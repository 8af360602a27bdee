use crate::bits::{bit_seq, bits_aligned, max_bits, Bits};
use crate::padding::padding_range;
use vstd::prelude::*;

verus! {

/// A unit of data that one of the network layers hands to the next.
pub trait NetworkPackage {

}

// ---------------------------------------------------------------------------
// 4B/5B line code
// ---------------------------------------------------------------------------

/// The 5-bit code of each 4-bit value.
pub open spec fn table_spec() -> Seq<u8> {
    seq![
        0b11110u8,
        0b01001u8,
        0b10100u8,
        0b10101u8,
        0b01010u8,
        0b01011u8,
        0b01110u8,
        0b01111u8,
        0b10010u8,
        0b10011u8,
        0b10110u8,
        0b10111u8,
        0b11010u8,
        0b11011u8,
        0b11100u8,
        0b11101u8,
    ]
}

/// The value whose 5-bit code is `v`, if `v` is a code (the first position of `v` in the table).
pub open spec fn decode_symbol(v: int) -> Option<int> {
    if v == 0b11110 {
        Some(0)
    } else if v == 0b01001 {
        Some(1)
    } else if v == 0b10100 {
        Some(2)
    } else if v == 0b10101 {
        Some(3)
    } else if v == 0b01010 {
        Some(4)
    } else if v == 0b01011 {
        Some(5)
    } else if v == 0b01110 {
        Some(6)
    } else if v == 0b01111 {
        Some(7)
    } else if v == 0b10010 {
        Some(8)
    } else if v == 0b10011 {
        Some(9)
    } else if v == 0b10110 {
        Some(10)
    } else if v == 0b10111 {
        Some(11)
    } else if v == 0b11010 {
        Some(12)
    } else if v == 0b11011 {
        Some(13)
    } else if v == 0b11100 {
        Some(14)
    } else if v == 0b11101 {
        Some(15)
    } else {
        None
    }
}

/// The number that a bit sequence spells, most significant bit first.
pub open spec fn bits_value(s: Seq<bool>) -> nat
    decreases s.len(),
{
    if s.len() == 0 {
        0
    } else {
        2 * bits_value(s.drop_last()) + if s.last() {
            1nat
        } else {
            0nat
        }
    }
}

/// Largest value of `n` bits.
pub open spec fn max_value(n: nat) -> nat
    decreases n,
{
    if n == 0 {
        0
    } else {
        2 * max_value((n - 1) as nat) + 1
    }
}

/// Bit `k` (0 is the most significant) of a 5-bit code.
pub open spec fn code_bit(code: u8, k: int) -> bool {
    (code >> ((4 - k) as u8)) & 1u8 == 1u8
}

/// Bit `k` (0 is the most significant) of a 4-bit value.
pub open spec fn nibble_bit(v: u8, k: int) -> bool {
    (v >> ((3 - k) as u8)) & 1u8 == 1u8
}

pub open spec fn min_int(a: int, b: int) -> int {
    if a <= b {
        a
    } else {
        b
    }
}

/// Chunk `c` of width `w` (the last one may be shorter).
pub open spec fn chunk(b: Seq<bool>, c: int, w: int) -> Seq<bool> {
    b.subrange(w * c, min_int(w * c + w, b.len() as int))
}

/// Number of chunks of width `w` in `len` bits, counting a partial last chunk.
pub open spec fn chunk_count(len: int, w: int) -> int {
    (len + w - 1) / w
}

/// The 4B/5B encoding: every chunk of (at most) four bits becomes the five bits of its code.
pub open spec fn encode_4b5b_spec(b: Seq<bool>) -> Seq<bool> {
    Seq::new(
        (5 * chunk_count(b.len() as int, 4)) as nat,
        |j: int| code_bit(table_spec()[bits_value(chunk(b, j / 5, 4)) as int], j % 5),
    )
}

/// `out` is a 4B/5B decoding of `b`: one nibble per complete 5-bit chunk (a partial last chunk
/// is dropped), and every chunk that is a code gives back the four bits of its value. What a
/// chunk that is no code gives (random bits) is left open.
pub open spec fn decoded_4b5b(b: Seq<bool>, out: Seq<bool>) -> bool {
    &&& out.len() == 4 * (b.len() / 5)
    &&& forall|j: int|
        0 <= j < out.len() ==> (decode_symbol(bits_value(chunk(b, j / 4, 5)) as int) matches Some(
            d,
        ) ==> #[trigger] out[j] == nibble_bit(d as u8, j % 4))
}

proof fn lemma_div_chunk(c: int, k: int, w: int)
    requires
        0 <= c,
        0 <= k < w,
    ensures
        (w * c + k) / w == c,
        (w * c + k) % w == k,
{
    assert((w * c + k) / w == c && (w * c + k) % w == k) by (nonlinear_arith)
        requires
            0 <= c,
            0 <= k < w,
    ;
}

pub proof fn lemma_bits_value_bound(s: Seq<bool>)
    ensures
        bits_value(s) <= max_value(s.len()),
    decreases s.len(),
{
    if s.len() > 0 {
        lemma_bits_value_bound(s.drop_last());
    }
}

proof fn lemma_max_values()
    ensures
        max_value(0) == 0,
        max_value(1) == 1,
        max_value(2) == 3,
        max_value(3) == 7,
        max_value(4) == 15,
        max_value(5) == 31,
{
    reveal_with_fuel(max_value, 6);
}

/// The 5-bit codes as an array.
fn table() -> (t: [u8; 16])
    ensures
        t@ == table_spec(),
{
    let t: [u8; 16] = [
        0b11110u8,
        0b01001u8,
        0b10100u8,
        0b10101u8,
        0b01010u8,
        0b01011u8,
        0b01110u8,
        0b01111u8,
        0b10010u8,
        0b10011u8,
        0b10110u8,
        0b10111u8,
        0b11010u8,
        0b11011u8,
        0b11100u8,
        0b11101u8,
    ];
    assert(t@ =~= table_spec());
    t
}

/// 4B/5B-encodes a bit sequence.
pub fn encode_4b5b(data: &Bits) -> (result: Bits)
    requires
        5 * chunk_count(bit_seq(*data).len() as int, 4) <= max_bits(),
    ensures
        bit_seq(result) == encode_4b5b_spec(bit_seq(*data)),
        bits_aligned(result),
{
    let ghost b = bit_seq(*data);
    let len = data.len();
    let table = table();
    let mut result = Bits::with_capacity(len + len / 4);
    let chunks = len / 4 + if len % 4 == 0 {
        0
    } else {
        1
    };
    assert(chunks == chunk_count(len as int, 4));
    let mut c: usize = 0;
    while c < chunks
        invariant
            b == bit_seq(*data),
            len == b.len(),
            table@ == table_spec(),
            chunks == chunk_count(len as int, 4),
            5 * chunks <= max_bits(),
            c <= chunks,
            bits_aligned(result),
            bit_seq(result) =~= Seq::new(
                (5 * c) as nat,
                |j: int| code_bit(table_spec()[bits_value(chunk(b, j / 5, 4)) as int], j % 5),
            ),
        decreases chunks - c,
    {
        let start = 4 * c;
        let end = if start + 4 <= len {
            start + 4
        } else {
            len
        };
        let ghost ch = chunk(b, c as int, 4);
        assert(ch == b.subrange(start as int, end as int));
        let mut index: usize = 0;
        let mut k = start;
        while k < end
            invariant
                b == bit_seq(*data),
                start <= k <= end <= len,
                end - start <= 4,
                len == b.len(),
                index == bits_value(b.subrange(start as int, k as int)),
                index <= max_value((k - start) as nat),
            decreases end - k,
        {
            let bit = data.get(k);
            assert(b.subrange(start as int, k + 1).drop_last() =~= b.subrange(
                start as int,
                k as int,
            ));
            proof {
                reveal_with_fuel(max_value, 2);
                lemma_max_values();
            }
            index = index * 2 + if bit {
                1
            } else {
                0
            };
            k += 1;
        }
        proof {
            lemma_max_values();
        }
        let code = table[index];
        let mut shift: usize = 0;
        while shift < 5
            invariant
                b == bit_seq(*data),
                code == table_spec()[bits_value(chunk(b, c as int, 4)) as int],
                5 * chunks <= max_bits(),
                c < chunks,
                shift <= 5,
                bits_aligned(result),
                bit_seq(result) =~= Seq::new(
                    (5 * c + shift) as nat,
                    |j: int| code_bit(table_spec()[bits_value(chunk(b, j / 5, 4)) as int], j % 5),
                ),
            decreases 5 - shift,
        {
            let bit = ((code >> ((4 - shift) as u8)) & 1) == 1;
            proof {
                lemma_div_chunk(c as int, shift as int, 5);
            }
            result.push(bit);
            shift += 1;
        }
        c += 1;
    }
    result
}

/// The value of a 5-bit chunk, and the table position it decodes to.
fn decode_index(table: &[u8; 16], value: u8) -> (r: Option<usize>)
    requires
        table@ == table_spec(),
    ensures
        r matches Some(i) ==> decode_symbol(value as int) == Some(i as int),
        r is None ==> decode_symbol(value as int) is None,
{
    let mut i: usize = 0;
    while i < 16
        invariant
            table@ == table_spec(),
            i <= 16,
            forall|j: int| 0 <= j < i ==> table_spec()[j] != value,
        decreases 16 - i,
    {
        if table[i] == value {
            return Some(i);
        }
        i += 1;
    }
    None
}

/// 4B/5B-decodes a bit sequence. A trailing chunk of fewer than five bits is dropped; a chunk that
/// is no code is replaced by four random bits.
pub fn decode_4b5b(data: &Bits) -> (result: Bits)
    ensures
        decoded_4b5b(bit_seq(*data), bit_seq(result)),
        bits_aligned(result),
{
    let ghost b = bit_seq(*data);
    let len = data.len();
    let table = table();
    let mut result = Bits::with_capacity(len / 5 * 4);
    let chunks = len / 5;
    let mut c: usize = 0;
    while c < chunks
        invariant
            b == bit_seq(*data),
            len == b.len(),
            len <= max_bits(),
            table@ == table_spec(),
            chunks == len / 5,
            c <= chunks,
            bits_aligned(result),
            bit_seq(result).len() == 4 * c,
            forall|j: int|
                0 <= j < 4 * c ==> (decode_symbol(bits_value(chunk(b, j / 4, 5)) as int) matches Some(
                    d,
                ) ==> #[trigger] bit_seq(result)[j] == nibble_bit(d as u8, j % 4)),
        decreases chunks - c,
    {
        let start = 5 * c;
        let end = start + 5;
        let mut value: u8 = 0;
        let mut k = start;
        while k < end
            invariant
                b == bit_seq(*data),
                start <= k <= end <= len,
                end == start + 5,
                len == b.len(),
                value == bits_value(b.subrange(start as int, k as int)),
                value <= max_value((k - start) as nat),
            decreases end - k,
        {
            let bit = data.get(k);
            assert(b.subrange(start as int, k + 1).drop_last() =~= b.subrange(
                start as int,
                k as int,
            ));
            proof {
                reveal_with_fuel(max_value, 2);
                lemma_max_values();
            }
            value = value * 2 + if bit {
                1
            } else {
                0
            };
            k += 1;
        }
        assert(chunk(b, c as int, 5) == b.subrange(start as int, end as int));
        let ghost before = bit_seq(result);
        match decode_index(&table, value) {
            Some(decoded) => {
                let d = decoded as u8;
                let mut shift: usize = 0;
                while shift < 4
                    invariant
                        shift <= 4,
                        d < 16,
                        c < chunks,
                        len <= max_bits(),
                        chunks == len / 5,
                        bits_aligned(result),
                        bit_seq(result).len() == 4 * c + shift,
                        forall|j: int| 0 <= j < 4 * c ==> #[trigger] bit_seq(result)[j] == before[j],
                        forall|j: int|
                            4 * c <= j < 4 * c + shift ==> #[trigger] bit_seq(result)[j]
                                == nibble_bit(d, j % 4),
                    decreases 4 - shift,
                {
                    let bit = ((d >> ((3 - shift) as u8)) & 1) == 1;
                    proof {
                        lemma_div_chunk(c as int, shift as int, 4);
                    }
                    result.push(bit);
                    shift += 1;
                }
                assert forall|j: int|
                    0 <= j < 4 * (c + 1) implies (decode_symbol(
                    bits_value(chunk(b, j / 4, 5)) as int,
                ) matches Some(e) ==> #[trigger] bit_seq(result)[j] == nibble_bit(e as u8, j % 4)) by {
                    if j >= 4 * c {
                        lemma_div_chunk(c as int, j - 4 * c, 4);
                    }
                }
            },
            None => {
                let random = padding_range(0, 2, 4);
                let mut shift: usize = 0;
                while shift < 4
                    invariant
                        shift <= 4,
                        random@.len() == 4,
                        c < chunks,
                        len <= max_bits(),
                        chunks == len / 5,
                        bits_aligned(result),
                        bit_seq(result).len() == 4 * c + shift,
                        forall|j: int| 0 <= j < 4 * c ==> #[trigger] bit_seq(result)[j] == before[j],
                    decreases 4 - shift,
                {
                    result.push(random[shift] == 1);
                    shift += 1;
                }
                assert forall|j: int|
                    0 <= j < 4 * (c + 1) implies (decode_symbol(
                    bits_value(chunk(b, j / 4, 5)) as int,
                ) matches Some(e) ==> #[trigger] bit_seq(result)[j] == nibble_bit(e as u8, j % 4)) by {
                    if j >= 4 * c {
                        lemma_div_chunk(c as int, j - 4 * c, 4);
                    }
                }
            },
        }
        c += 1;
    }
    result
}


proof fn lemma_table_entries()
    ensures
        forall|v: int| 0 <= v < 16 ==> decode_symbol(#[trigger] table_spec()[v] as int) == Some(v),
        forall|v: int| 0 <= v < 16 ==> #[trigger] table_spec()[v] < 32,
{
    let t = table_spec();
    assert(t[0] == 0b11110u8);
    assert(t[1] == 0b01001u8);
    assert(t[2] == 0b10100u8);
    assert(t[3] == 0b10101u8);
    assert(t[4] == 0b01010u8);
    assert(t[5] == 0b01011u8);
    assert(t[6] == 0b01110u8);
    assert(t[7] == 0b01111u8);
    assert(t[8] == 0b10010u8);
    assert(t[9] == 0b10011u8);
    assert(t[10] == 0b10110u8);
    assert(t[11] == 0b10111u8);
    assert(t[12] == 0b11010u8);
    assert(t[13] == 0b11011u8);
    assert(t[14] == 0b11100u8);
    assert(t[15] == 0b11101u8);
}

proof fn lemma_bits_value_4(s: Seq<bool>)
    requires
        s.len() == 4,
    ensures
        bits_value(s) == 8 * (if s[0] { 1int } else { 0 }) + 4 * (if s[1] { 1int } else { 0 }) + 2 * (
        if s[2] { 1int } else { 0 }) + (if s[3] { 1int } else { 0 }),
{
    let s3 = s.drop_last();
    let s2 = s3.drop_last();
    let s1 = s2.drop_last();
    let s0 = s1.drop_last();
    assert(s0.len() == 0);
    assert(bits_value(s0) == 0);
    assert(bits_value(s1) == 2 * bits_value(s0) + (if s[0] { 1nat } else { 0nat }));
    assert(bits_value(s2) == 2 * bits_value(s1) + (if s[1] { 1nat } else { 0nat }));
    assert(bits_value(s3) == 2 * bits_value(s2) + (if s[2] { 1nat } else { 0nat }));
}

proof fn lemma_bits_value_5(s: Seq<bool>)
    requires
        s.len() == 5,
    ensures
        bits_value(s) == 16 * (if s[0] { 1int } else { 0 }) + 8 * (if s[1] { 1int } else { 0 }) + 4
            * (if s[2] { 1int } else { 0 }) + 2 * (if s[3] { 1int } else { 0 }) + (if s[4] {
            1int
        } else {
            0
        }),
{
    lemma_bits_value_4(s.drop_last());
}

/// The five code bits of a 5-bit value spell that value.
proof fn lemma_code_bits_value(x: u8)
    requires
        x < 32,
    ensures
        bits_value(Seq::new(5, |k: int| code_bit(x, k))) == x,
{
    let s = Seq::new(5, |k: int| code_bit(x, k));
    lemma_bits_value_5(s);
    let b4 = (x >> 4u8) & 1u8;
    let b3 = (x >> 3u8) & 1u8;
    let b2 = (x >> 2u8) & 1u8;
    let b1 = (x >> 1u8) & 1u8;
    let b0 = (x >> 0u8) & 1u8;
    assert(x == 16 * b4 + 8 * b3 + 4 * b2 + 2 * b1 + b0 && b4 <= 1 && b3 <= 1 && b2 <= 1 && b1
        <= 1 && b0 <= 1) by (bit_vector)
        requires
            x < 32,
            b4 == (x >> 4u8) & 1u8,
            b3 == (x >> 3u8) & 1u8,
            b2 == (x >> 2u8) & 1u8,
            b1 == (x >> 1u8) & 1u8,
            b0 == (x >> 0u8) & 1u8,
    ;
}

/// The four nibble bits of the value that four bits spell are those bits.
proof fn lemma_nibble_of_value(s: Seq<bool>)
    requires
        s.len() == 4,
    ensures
        forall|k: int| 0 <= k < 4 ==> nibble_bit(bits_value(s) as u8, k) == #[trigger] s[k],
{
    lemma_bits_value_4(s);
    let a: u8 = if s[0] { 1 } else { 0 };
    let b: u8 = if s[1] { 1 } else { 0 };
    let c: u8 = if s[2] { 1 } else { 0 };
    let d: u8 = if s[3] { 1 } else { 0 };
    let v: u8 = (8 * a + 4 * b + 2 * c + d) as u8;
    assert(bits_value(s) == v);
    assert(((v >> 3u8) & 1u8 == 1u8) == (a == 1u8) && ((v >> 2u8) & 1u8 == 1u8) == (b == 1u8) && ((
    v >> 1u8) & 1u8 == 1u8) == (c == 1u8) && ((v >> 0u8) & 1u8 == 1u8) == (d == 1u8)) by (bit_vector)
        requires
            a <= 1,
            b <= 1,
            c <= 1,
            d <= 1,
            v == 8 * a + 4 * b + 2 * c + d,
    ;
}

/// Law: decoding the 4B/5B encoding of a sequence whose length is a multiple of four gives the
/// sequence back, whatever random bits the decoder holds in reserve.
pub proof fn lemma_4b5b_round_trip(b: Seq<bool>, out: Seq<bool>)
    requires
        b.len() % 4 == 0,
        decoded_4b5b(encode_4b5b_spec(b), out),
    ensures
        out == b,
{
    let e = encode_4b5b_spec(b);
    let n = (b.len() / 4) as int;
    assert(chunk_count(b.len() as int, 4) == n);
    assert(e.len() == 5 * n);
    assert(e.len() / 5 == n) by {
        lemma_div_chunk(n, 0, 5);
    }
    assert(out.len() == b.len());
    lemma_table_entries();
    assert forall|j: int| 0 <= j < b.len() implies #[trigger] out[j] == b[j] by {
        let c = j / 4;
        let k = j % 4;
        assert(j == 4 * c + k && 0 <= k < 4 && 0 <= c < n) by (nonlinear_arith)
            requires
                0 <= j < b.len(),
                b.len() == 4 * n,
                c == j / 4,
                k == j % 4,
        ;
        let ch = chunk(b, c, 4);
        assert(ch.len() == 4);
        lemma_bits_value_bound(ch);
        lemma_max_values();
        let v = bits_value(ch) as int;
        let code = table_spec()[v];
        let ec = chunk(e, c, 5);
        assert(ec =~= Seq::new(5, |i: int| code_bit(code, i))) by {
            assert forall|i: int| 0 <= i < 5 implies ec[i] == code_bit(code, i) by {
                lemma_div_chunk(c, i, 5);
            }
        }
        lemma_code_bits_value(code);
        assert(decode_symbol(bits_value(ec) as int) == Some(v));
        lemma_div_chunk(c, k, 4);
        assert(out[j] == nibble_bit(v as u8, k));
        lemma_nibble_of_value(ch);
        assert(ch[k] == b[j]);
    }
    assert(out =~= b);
}

/// `b` read as chunks of four bits, a shorter last chunk filled with zeros in front of its
/// bits (its value kept), each chunk written out as four bits.
pub open spec fn zero_extended_nibbles(b: Seq<bool>) -> Seq<bool> {
    Seq::new(
        (4 * chunk_count(b.len() as int, 4)) as nat,
        |j: int| nibble_bit(bits_value(chunk(b, j / 4, 4)) as u8, j % 4),
    )
}

/// Decoding the 4B/5B code of any bit sequence gives the sequence back chunk by chunk, a short
/// last chunk zero-extended in front to four bits; no chunk is replaced by random bits.
pub proof fn lemma_4b5b_round_trip_any_length(b: Seq<bool>, out: Seq<bool>)
    requires
        decoded_4b5b(encode_4b5b_spec(b), out),
    ensures
        out == zero_extended_nibbles(b),
{
    let e = encode_4b5b_spec(b);
    let n = chunk_count(b.len() as int, 4);
    assert(n >= 0);
    assert(e.len() == 5 * n);
    assert(e.len() / 5 == n) by {
        lemma_div_chunk(n, 0, 5);
    }
    let z = zero_extended_nibbles(b);
    assert(out.len() == z.len());
    lemma_table_entries();
    lemma_max_values();
    assert forall|j: int| 0 <= j < z.len() implies #[trigger] out[j] == z[j] by {
        let c = j / 4;
        let k = j % 4;
        assert(j == 4 * c + k && 0 <= k < 4 && 0 <= c < n) by (nonlinear_arith)
            requires
                0 <= j < 4 * n,
                c == j / 4,
                k == j % 4,
        ;
        assert(4 * c < b.len()) by (nonlinear_arith)
            requires
                0 <= c < n,
                n == (b.len() + 3) / 4,
        ;
        let ch = chunk(b, c, 4);
        assert(1 <= ch.len() <= 4);
        lemma_bits_value_bound(ch);
        let v = bits_value(ch) as int;
        assert(v < 16);
        let code = table_spec()[v];
        let ec = chunk(e, c, 5);
        assert(ec =~= Seq::new(5, |i: int| code_bit(code, i))) by {
            assert forall|i: int| 0 <= i < 5 implies ec[i] == code_bit(code, i) by {
                lemma_div_chunk(c, i, 5);
            }
        }
        lemma_code_bits_value(code);
        assert(decode_symbol(bits_value(ec) as int) == Some(v));
        lemma_div_chunk(c, k, 4);
    }
    assert(out =~= z);
}

// ---------------------------------------------------------------------------
// NRZI line code
// ---------------------------------------------------------------------------

/// Whether a bit sequence holds an odd number of ones.
pub open spec fn parity(s: Seq<bool>) -> bool
    decreases s.len(),
{
    if s.len() == 0 {
        false
    } else {
        parity(s.drop_last()) != s.last()
    }
}

/// NRZI encoding: the signal level flips at every one bit, starting from low.
pub open spec fn encode_nrzi_spec(b: Seq<bool>) -> Seq<bool> {
    Seq::new(b.len(), |i: int| parity(b.take(i + 1)))
}

/// NRZI decoding: a one wherever the level differs from the one before (low before the start).
pub open spec fn decode_nrzi_spec(b: Seq<bool>) -> Seq<bool> {
    Seq::new(
        b.len(),
        |i: int|
            if i == 0 {
                b[0]
            } else {
                b[i] != b[i - 1]
            },
    )
}

/// NRZI-decodes a signal.
pub fn decode_nrzi(data: &Bits) -> (result: Bits)
    ensures
        bit_seq(result) == decode_nrzi_spec(bit_seq(*data)),
        bits_aligned(result),
{
    let ghost b = bit_seq(*data);
    let len = data.len();
    let mut result = Bits::with_capacity(len);
    let mut old_bit: bool = false;
    let mut i: usize = 0;
    while i < len
        invariant
            b == bit_seq(*data),
            len == b.len(),
            len <= max_bits(),
            i <= len,
            old_bit == if i == 0 {
                false
            } else {
                b[i - 1]
            },
            bits_aligned(result),
            bit_seq(result) =~= decode_nrzi_spec(b).take(i as int),
        decreases len - i,
    {
        let bit = data.get(i);
        if old_bit != bit {
            old_bit = bit;
            result.push(true);
        } else {
            result.push(false);
        }
        i += 1;
    }
    assert(decode_nrzi_spec(b).take(len as int) =~= decode_nrzi_spec(b));
    result
}

/// NRZI-encodes a bit sequence.
pub fn encode_nrzi(data: &Bits) -> (result: Bits)
    ensures
        bit_seq(result) == encode_nrzi_spec(bit_seq(*data)),
        bits_aligned(result),
{
    let ghost b = bit_seq(*data);
    let len = data.len();
    let mut result = Bits::with_capacity(len);
    let mut state: bool = false;
    let mut i: usize = 0;
    while i < len
        invariant
            b == bit_seq(*data),
            len == b.len(),
            len <= max_bits(),
            i <= len,
            state == parity(b.take(i as int)),
            bits_aligned(result),
            bit_seq(result) =~= encode_nrzi_spec(b).take(i as int),
        decreases len - i,
    {
        let bit = data.get(i);
        assert(b.take(i + 1).drop_last() =~= b.take(i as int));
        if bit {
            state = !state;
        }
        result.push(state);
        i += 1;
    }
    assert(encode_nrzi_spec(b).take(len as int) =~= encode_nrzi_spec(b));
    result
}

/// Law: NRZI decoding undoes NRZI encoding.
pub proof fn lemma_nrzi_round_trip(b: Seq<bool>)
    ensures
        decode_nrzi_spec(encode_nrzi_spec(b)) == b,
{
    let e = encode_nrzi_spec(b);
    assert forall|i: int| 0 <= i < b.len() implies #[trigger] decode_nrzi_spec(e)[i] == b[i] by {
        assert(b.take(i + 1).drop_last() =~= b.take(i));
        assert(b.take(i + 1).last() == b[i]);
        assert(e[i] == parity(b.take(i + 1)));
        assert(parity(b.take(i + 1)) == (parity(b.take(i)) != b[i]));
        if i == 0 {
            assert(b.take(0).len() == 0);
            assert(parity(b.take(0)) == false);
        } else {
            assert(e[i - 1] == parity(b.take(i)));
        }
    }
    assert(decode_nrzi_spec(e) =~= b);
}

proof fn lemma_parity_of_decoded(b: Seq<bool>, i: int)
    requires
        0 <= i < b.len(),
    ensures
        parity(decode_nrzi_spec(b).take(i + 1)) == b[i],
    decreases i,
{
    let d = decode_nrzi_spec(b);
    assert(d.take(i + 1).drop_last() =~= d.take(i));
    assert(d.take(i + 1).last() == d[i]);
    assert(parity(d.take(i + 1)) == (parity(d.take(i)) != d[i]));
    if i == 0 {
        assert(d.take(0).len() == 0);
        assert(parity(d.take(0)) == false);
    } else {
        lemma_parity_of_decoded(b, i - 1);
    }
}

/// Law: NRZI encoding undoes NRZI decoding.
pub proof fn lemma_nrzi_round_trip_reverse(b: Seq<bool>)
    ensures
        encode_nrzi_spec(decode_nrzi_spec(b)) == b,
{
    assert forall|i: int| 0 <= i < b.len() implies #[trigger] encode_nrzi_spec(
        decode_nrzi_spec(b),
    )[i] == b[i] by {
        lemma_parity_of_decoded(b, i);
    }
    assert(encode_nrzi_spec(decode_nrzi_spec(b)) =~= b);
}

} // verus!

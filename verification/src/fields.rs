use vstd::arithmetic::div_mod::lemma_div_denominator;
use vstd::prelude::*;

verus! {

/// `256` to the power `n`.
pub open spec fn pow256(n: nat) -> nat
    decreases n,
{
    if n == 0 {
        1
    } else {
        256 * pow256((n - 1) as nat)
    }
}

/// The number that bytes spell, least significant byte first.
pub open spec fn le_value(s: Seq<u8>) -> nat
    decreases s.len(),
{
    if s.len() == 0 {
        0
    } else {
        s[0] as nat + 256 * le_value(s.drop_first())
    }
}

/// The `n` low bytes of `v`, least significant first (higher bytes are cut off).
pub open spec fn le_bytes(v: nat, n: nat) -> Seq<u8> {
    Seq::new(n, |k: int| ((v / pow256(k as nat)) % 256) as u8)
}

pub proof fn lemma_pow256_positive(n: nat)
    ensures
        pow256(n) >= 1,
    decreases n,
{
    if n > 0 {
        lemma_pow256_positive((n - 1) as nat);
    }
}

/// Reading back two written bytes gives the value modulo `65536`.
pub proof fn lemma_le_two_bytes(v: nat)
    ensures
        le_value(le_bytes(v, 2)) == v % 65536,
        le_bytes(v, 2).len() == 2,
{
    let s = le_bytes(v, 2);
    assert(pow256(0) == 1);
    assert(pow256(1) == 256);
    assert(s[0] == (v % 256) as u8);
    assert(s[1] == ((v / 256) % 256) as u8);
    assert(s.drop_first().drop_first().len() == 0);
    assert(le_value(s.drop_first()) == s[1] + 256 * le_value(s.drop_first().drop_first()));
    assert(le_value(s) == s[0] + 256 * le_value(s.drop_first()));
    assert((v % 256) + 256 * ((v / 256) % 256) == v % 65536) by (nonlinear_arith);
}

/// Appends the `n` low bytes of `value`, least significant first.
pub fn push_le(data: &mut Vec<u8>, value: usize, n: usize)
    ensures
        final(data)@ == old(data)@ + le_bytes(value as nat, n as nat),
{
    let mut v = value;
    let mut i: usize = 0;
    assert(pow256(0) == 1);
    assert(data@ =~= old(data)@ + le_bytes(value as nat, 0));
    while i < n
        invariant
            i <= n,
            v == value as nat / pow256(i as nat),
            data@ == old(data)@ + le_bytes(value as nat, i as nat),
        decreases n - i,
    {
        let ghost before = data@;
        proof {
            lemma_pow256_positive(i as nat);
            lemma_div_denominator(value as int, pow256(i as nat) as int, 256);
            assert(pow256((i + 1) as nat) == pow256(i as nat) * 256);
        }
        let byte = (v & 0xff) as u8;
        assert(byte == (v % 256) as u8) by (bit_vector)
            requires
                byte == (v & 0xff) as u8,
        ;
        data.push(byte);
        let next = v >> 8;
        assert(next == v / 256) by (bit_vector)
            requires
                next == v >> 8,
        ;
        v = next;
        i += 1;
        assert(data@ =~= old(data)@ + le_bytes(value as nat, i as nat));
    }
}

/// The number that `data[start..end]` spells, least significant byte first.
pub fn read_le(data: &[u8], start: usize, end: usize) -> (r: usize)
    requires
        start <= end <= data@.len(),
        end - start <= 4,
    ensures
        r == le_value(data@.subrange(start as int, end as int)),
{
    let mut v: usize = 0;
    let mut k = end;
    proof {
        reveal_with_fuel(pow256, 5);
    }
    while k > start
        invariant
            start <= k <= end <= data@.len(),
            end - start <= 4,
            v == le_value(data@.subrange(k as int, end as int)),
            v < pow256((end - k) as nat),
            pow256(0) == 1,
            pow256(1) == 256,
            pow256(2) == 65536,
            pow256(3) == 16777216,
            pow256(4) == 4294967296,
        decreases k - start,
    {
        k -= 1;
        assert(data@.subrange(k as int, end as int).drop_first() =~= data@.subrange(
            k + 1,
            end as int,
        ));
        assert(pow256((end - k) as nat) == 256 * pow256((end - k - 1) as nat));
        v = v * 256 + data[k] as usize;
    }
    v
}

} // verus!

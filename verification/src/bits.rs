use bitvec::order::Msb0;
use bitvec::vec::BitVec;
use vstd::prelude::*;

verus! {

/// A growable sequence of bits, stored most significant bit first in bytes (a `bitvec`
/// bit-vector of `u8` in `Msb0` order).
#[verifier::external_body]
#[derive(Debug, PartialEq, Eq)]
pub struct Bits {
    inner: BitVec<u8, Msb0>,
}

/// The bits that a `Bits` holds, in order.
pub uninterp spec fn bit_seq(bits: Bits) -> Seq<bool>;

/// Whether the live bits of a `Bits` start at the first bit of its first byte.
pub uninterp spec fn bits_aligned(bits: Bits) -> bool;

/// The most bits that a `Bits` can hold.
pub open spec fn max_bits() -> int {
    usize::MAX as int / 8
}

/// Bit `k` (0 is the most significant) of a byte.
pub open spec fn byte_bit(b: u8, k: int) -> bool {
    (b >> ((7 - k) as u8)) & 1u8 == 1u8
}

/// The bits of a byte sequence, each byte most significant bit first.
pub open spec fn bytes_to_bits(bytes: Seq<u8>) -> Seq<bool> {
    Seq::new(bytes.len() * 8, |i: int| byte_bit(bytes[i / 8], i % 8))
}

/// `bytes` hold `bits` from the first bit of the first byte on, most significant bit first, in
/// as few bytes as they fit in; the unused low bits of a partial last byte may be anything.
pub open spec fn packs_bits(bytes: Seq<u8>, bits: Seq<bool>) -> bool {
    &&& bytes.len() == (bits.len() + 7) / 8
    &&& forall|i: int| 0 <= i < bits.len() ==> #[trigger] bits[i] == byte_bit(bytes[i / 8], i % 8)
}

impl Bits {
    /// Creates an empty bit sequence (`BitVec::with_capacity`), which panics for a capacity
    /// above the most bits a bit-vector can hold.
    #[verifier::external_body]
    pub fn with_capacity(capacity: usize) -> (r: Bits)
        requires
            capacity <= max_bits(),
        ensures
            bit_seq(r) == Seq::<bool>::empty(),
            bits_aligned(r),
    {
        Bits { inner: BitVec::with_capacity(capacity) }
    }

    /// Views a byte vector as its bits (`BitVec::from_vec`), which covers every bit of every
    /// byte.
    #[verifier::external_body]
    pub fn from_vec(bytes: Vec<u8>) -> (r: Bits)
        requires
            bytes@.len() * 8 <= max_bits(),
        ensures
            bit_seq(r) == bytes_to_bits(bytes@),
            bits_aligned(r),
    {
        Bits { inner: BitVec::from_vec(bytes) }
    }

    /// Appends a bit (`BitVec::push`).
    #[verifier::external_body]
    pub fn push(&mut self, bit: bool)
        requires
            bit_seq(*old(self)).len() + 1 <= max_bits(),
        ensures
            bit_seq(*final(self)) == bit_seq(*old(self)).push(bit),
            bits_aligned(*old(self)) ==> bits_aligned(*final(self)),
    {
        self.inner.push(bit)
    }

    /// Number of bits (`BitVec::len`).
    #[verifier::external_body]
    pub fn len(&self) -> (r: usize)
        ensures
            r == bit_seq(*self).len(),
            r <= max_bits(),
    {
        self.inner.len()
    }

    /// The bit at `index` (indexing a `BitVec`).
    #[verifier::external_body]
    pub fn get(&self, index: usize) -> (r: bool)
        requires
            index < bit_seq(*self).len(),
        ensures
            r == bit_seq(*self)[index as int],
    {
        self.inner[index]
    }

    /// The bytes that hold the bits (`BitVec::into_vec`). When the bits start at the first bit of
    /// the first byte, every bit is where `bytes_to_bits` puts it; the unused low bits of a
    /// partial last byte are left unsaid, as the crate leaves their value unspecified.
    #[verifier::external_body]
    pub fn into_vec(self) -> (r: Vec<u8>)
        ensures
            bits_aligned(self) ==> r@.len() == (bit_seq(self).len() + 7) / 8,
            bits_aligned(self) ==> forall|i: int|
                0 <= i < bit_seq(self).len() ==> #[trigger] bit_seq(self)[i] == byte_bit(
                    r@[i / 8],
                    i % 8,
                ),
    {
        self.inner.into_vec()
    }
}

/// Two bytes that agree on all eight bits are equal.
pub proof fn lemma_byte_bits_eq(a: u8, b: u8)
    requires
        forall|k: int| 0 <= k < 8 ==> byte_bit(a, k) == byte_bit(b, k),
    ensures
        a == b,
{
    assert(byte_bit(a, 0) == byte_bit(b, 0));
    assert(byte_bit(a, 1) == byte_bit(b, 1));
    assert(byte_bit(a, 2) == byte_bit(b, 2));
    assert(byte_bit(a, 3) == byte_bit(b, 3));
    assert(byte_bit(a, 4) == byte_bit(b, 4));
    assert(byte_bit(a, 5) == byte_bit(b, 5));
    assert(byte_bit(a, 6) == byte_bit(b, 6));
    assert(byte_bit(a, 7) == byte_bit(b, 7));
    assert(a == b) by (bit_vector)
        requires
            ((a >> 7u8) & 1u8 == 1u8) == ((b >> 7u8) & 1u8 == 1u8),
            ((a >> 6u8) & 1u8 == 1u8) == ((b >> 6u8) & 1u8 == 1u8),
            ((a >> 5u8) & 1u8 == 1u8) == ((b >> 5u8) & 1u8 == 1u8),
            ((a >> 4u8) & 1u8 == 1u8) == ((b >> 4u8) & 1u8 == 1u8),
            ((a >> 3u8) & 1u8 == 1u8) == ((b >> 3u8) & 1u8 == 1u8),
            ((a >> 2u8) & 1u8 == 1u8) == ((b >> 2u8) & 1u8 == 1u8),
            ((a >> 1u8) & 1u8 == 1u8) == ((b >> 1u8) & 1u8 == 1u8),
            ((a >> 0u8) & 1u8 == 1u8) == ((b >> 0u8) & 1u8 == 1u8),
    ;
}

/// Bytes whose bits, most significant first, are those of `bytes` are `bytes`.
pub proof fn lemma_bytes_from_bits(bytes: Seq<u8>, r: Seq<u8>)
    requires
        r.len() == bytes.len(),
        forall|i: int|
            0 <= i < bytes.len() * 8 ==> #[trigger] bytes_to_bits(bytes)[i] == byte_bit(
                r[i / 8],
                i % 8,
            ),
    ensures
        r == bytes,
{
    assert forall|k: int| 0 <= k < bytes.len() implies #[trigger] r[k] == bytes[k] by {
        assert forall|b: int| 0 <= b < 8 implies byte_bit(r[k], b) == byte_bit(bytes[k], b) by {
            let i = 8 * k + b;
            assert(i / 8 == k && i % 8 == b && 0 <= i < bytes.len() * 8) by (nonlinear_arith)
                requires
                    i == 8 * k + b,
                    0 <= b < 8,
                    0 <= k < bytes.len(),
            ;
            assert(bytes_to_bits(bytes)[i] == byte_bit(r[i / 8], i % 8));
        }
        lemma_byte_bits_eq(r[k], bytes[k]);
    }
    assert(r =~= bytes);
}

/// `into_vec` of the bits of some bytes, laid out from the first bit, gives those bytes back.
pub proof fn lemma_into_vec_of_bytes(bits: Bits, bytes: Seq<u8>, r: Seq<u8>)
    requires
        bits_aligned(bits),
        bit_seq(bits) == bytes_to_bits(bytes),
        r.len() == (bit_seq(bits).len() + 7) / 8,
        forall|i: int|
            0 <= i < bit_seq(bits).len() ==> #[trigger] bit_seq(bits)[i] == byte_bit(
                r[i / 8],
                i % 8,
            ),
    ensures
        r == bytes,
{
    let n = bytes.len();
    assert((n * 8 + 7) / 8 == n) by (nonlinear_arith);
    lemma_bytes_from_bits(bytes, r);
}

} // verus!

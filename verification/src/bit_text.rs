use crate::bits::{bit_seq, bits_aligned, byte_bit, max_bits, Bits};
use vstd::prelude::*;

verus! {

/// The bits that a text of `'0'` and `'1'` characters spells, other characters skipped.
pub open spec fn text_bits(text: Seq<u8>) -> Seq<bool>
    decreases text.len(),
{
    if text.len() == 0 {
        Seq::empty()
    } else {
        let rest = text_bits(text.drop_last());
        if text.last() == 0x30u8 {
            rest.push(false)
        } else if text.last() == 0x31u8 {
            rest.push(true)
        } else {
            rest
        }
    }
}

proof fn lemma_text_bits_len(text: Seq<u8>)
    ensures
        text_bits(text).len() <= text.len(),
    decreases text.len(),
{
    if text.len() > 0 {
        lemma_text_bits_len(text.drop_last());
    }
}

/// The bits of a prefix of a text begin the bits of the text.
proof fn lemma_text_bits_prefix(text: Seq<u8>, j: int)
    requires
        0 <= j <= text.len(),
    ensures
        text_bits(text.take(j)).len() <= text_bits(text).len(),
        text_bits(text.take(j)) == text_bits(text).take(text_bits(text.take(j)).len() as int),
    decreases text.len() - j,
{
    if j == text.len() {
        assert(text.take(j) =~= text);
    } else {
        lemma_text_bits_prefix(text, j + 1);
        assert(text.take(j + 1).drop_last() =~= text.take(j));
        let a = text_bits(text.take(j));
        let b = text_bits(text.take(j + 1));
        let c = text_bits(text);
        assert(a =~= b.take(a.len() as int));
        assert(a =~= c.take(a.len() as int));
    }
}

/// Packs the first `size` bits that `text` spells (all of them, if it spells fewer) into
/// bytes, most significant bit first.
pub fn bits_from_text(text: &[u8], size: usize) -> (r: Vec<u8>)
    requires
        size <= max_bits(),
    ensures
        ({
            let all = text_bits(text@);
            let bits = if size < all.len() {
                all.take(size as int)
            } else {
                all
            };
            &&& r@.len() == (bits.len() + 7) / 8
            &&& forall|i: int| 0 <= i < bits.len() ==> #[trigger] bits[i] == byte_bit(r@[i / 8], i % 8)
        }),
{
    let mut bits = Bits::with_capacity(size);
    let mut i: usize = 0;
    while i < text.len() && bits.len() < size
        invariant
            i <= text@.len(),
            bits_aligned(bits),
            bit_seq(bits) == text_bits(text@.take(i as int)),
            bit_seq(bits).len() <= size,
            size <= max_bits(),
        decreases text@.len() - i,
    {
        proof {
            lemma_text_bits_len(text@.take(i as int));
            assert(text@.take(i + 1).drop_last() =~= text@.take(i as int));
        }
        let c = text[i];
        if c == 0x30u8 {
            bits.push(false);
        } else if c == 0x31u8 {
            bits.push(true);
        }
        i += 1;
    }
    proof {
        lemma_text_bits_prefix(text@, i as int);
        let all = text_bits(text@);
        let want = if size < all.len() {
            all.take(size as int)
        } else {
            all
        };
        if i == text.len() {
            assert(text@.take(i as int) =~= text@);
        } else {
            assert(bit_seq(bits).len() == size);
        }
        assert(bit_seq(bits) =~= want);
    }
    bits.into_vec()
}

} // verus!

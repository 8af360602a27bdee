use crate::bits::{bit_seq, bits_aligned, max_bits, Bits};
use crate::encoding::{
    chunk_count, decode_4b5b, decode_nrzi, decode_nrzi_spec, decoded_4b5b, encode_4b5b,
    encode_4b5b_spec, encode_nrzi, encode_nrzi_spec, lemma_4b5b_round_trip, lemma_nrzi_round_trip,
    NetworkPackage,
};
use vstd::prelude::*;

verus! {

/// The bits of one frame as the physical layer sends and receives them.
pub struct PhysicalPackage(pub Bits);

impl NetworkPackage for PhysicalPackage {

}

impl PhysicalPackage {
    /// The line signal of the frame: 4B/5B, then NRZI.
    pub fn to_samples(&self) -> (r: Bits)
        requires
            5 * chunk_count(bit_seq(self.0).len() as int, 4) <= max_bits(),
        ensures
            bit_seq(r) == encode_nrzi_spec(encode_4b5b_spec(bit_seq(self.0))),
            bits_aligned(r),
    {
        let bits = encode_4b5b(&self.0);
        let bits = encode_nrzi(&bits);
        bits
    }

    /// The frame carried by a line signal: NRZI decoding, then 4B/5B decoding.
    pub fn from_bits(bits: &Bits) -> (r: PhysicalPackage)
        ensures
            decoded_4b5b(decode_nrzi_spec(bit_seq(*bits)), bit_seq(r.0)),
            bits_aligned(r.0),
    {
        let bits = decode_nrzi(bits);
        let bits = decode_4b5b(&bits);
        PhysicalPackage(bits)
    }
}

/// Law: a frame whose length is a whole number of nibbles comes back unchanged from its own line
/// signal.
pub proof fn lemma_line_code_round_trip(frame: Seq<bool>, received: Seq<bool>)
    requires
        frame.len() % 4 == 0,
        decoded_4b5b(decode_nrzi_spec(encode_nrzi_spec(encode_4b5b_spec(frame))), received),
    ensures
        received == frame,
{
    lemma_nrzi_round_trip(encode_4b5b_spec(frame));
    lemma_4b5b_round_trip(frame, received);
}

impl From<Bits> for PhysicalPackage {
    fn from(bits: Bits) -> (r: PhysicalPackage) {
        PhysicalPackage(bits)
    }
}

impl vstd::std_specs::convert::FromSpecImpl<Bits> for PhysicalPackage {
    open spec fn obeys_from_spec() -> bool {
        true
    }

    open spec fn from_spec(bits: Bits) -> PhysicalPackage {
        PhysicalPackage(bits)
    }
}

impl From<PhysicalPackage> for Bits {
    fn from(package: PhysicalPackage) -> (r: Bits) {
        package.0
    }
}

impl vstd::std_specs::convert::FromSpecImpl<PhysicalPackage> for Bits {
    open spec fn obeys_from_spec() -> bool {
        true
    }

    open spec fn from_spec(package: PhysicalPackage) -> Bits {
        package.0
    }
}

} // verus!

use crate::bits::{bit_seq, bits_aligned, bytes_to_bits, lemma_into_vec_of_bytes, packs_bits, Bits};
use crate::checksum::{crc16_ibm_sdlc, CHECKSUM};
use crate::encoding::NetworkPackage;
use crate::fields::{le_bytes, le_value, lemma_le_two_bytes, push_le, read_le};
use crate::physical::PhysicalPackage;
use vstd::prelude::*;
use vstd::slice::slice_subrange;

verus! {

pub const BYTE_IN_LENGTH: usize = 2;

pub const BYTE_IN_ENDING: usize = 1;

pub const BYTE_IN_ADDRESS: usize = 2;

/// Bytes that a frame adds around its data: length, ending flag, addresses and checksum.
pub open spec fn redundancy_overhead() -> nat {
    7
}

/// The frame that `RedundancyPackage::new` builds: the frame length (data length plus overhead)
/// in two bytes, least significant first; the ending flag (1 when more fragments follow, else 0);
/// source and destination; the data; and the CRC-16 of all of that, least significant byte
/// first.
pub open spec fn redundancy_frame(
    data: Seq<u8>,
    data_len: nat,
    has_more_fragments: bool,
    src: u8,
    dest: u8,
) -> Seq<u8> {
    let body = le_bytes(data_len + redundancy_overhead(), 2) + seq![
        if has_more_fragments {
            1u8
        } else {
            0u8
        },
        src,
        dest,
    ] + data;
    body + le_bytes(crc16_ibm_sdlc(body) as nat, 2)
}

/// The length field of a frame.
pub open spec fn length_field(frame: Seq<u8>) -> nat {
    le_value(frame.subrange(0, 2))
}

/// The checksum field of a frame (its last two bytes).
pub open spec fn checksum_field(frame: Seq<u8>) -> nat {
    le_value(frame.subrange(frame.len() - 2, frame.len() as int))
}

/// A frame is long enough to hold its header and checksum, and its checksum field is the CRC-16
/// of everything before it.
pub open spec fn redundancy_valid(frame: Seq<u8>) -> bool {
    &&& frame.len() >= redundancy_overhead()
    &&& crc16_ibm_sdlc(frame.subrange(0, frame.len() - 2)) as nat == checksum_field(frame)
}

/// A data frame of the link layer.
#[derive(Eq, PartialEq, Debug, Clone)]
pub struct RedundancyPackage {
    pub data: Vec<u8>,
}

impl NetworkPackage for RedundancyPackage {

}

impl RedundancyPackage {
    /// Builds the frame of `data`, whose length field says `data_len` bytes of data.
    pub fn new(data: &[u8], data_len: usize, has_more_fragments: bool, src: u8, dest: u8) -> (r:
        Self)
        requires
            data_len + redundancy_overhead() <= usize::MAX,
        ensures
            r.data@ == redundancy_frame(data@, data_len as nat, has_more_fragments, src, dest),
    {
        let package_length = data_len + BYTE_IN_LENGTH + BYTE_IN_ENDING + BYTE_IN_ADDRESS
            + CHECKSUM.len();
        let mut package = Self { data: Vec::with_capacity(package_length) };
        package.set_package_length(package_length);
        package.set_has_more_fragments(has_more_fragments);
        package.set_address(src, dest);
        package.data.extend_from_slice(data);
        let ghost body = package.data@;
        assert(body =~= le_bytes(data_len as nat + redundancy_overhead(), 2) + seq![
            if has_more_fragments {
                1u8
            } else {
                0u8
            },
            src,
            dest,
        ] + data@);
        package.set_checksum();
        package
    }

    /// The frame carried by a received physical frame, if its checksum holds.
    pub fn from_physical(package: PhysicalPackage) -> (r: Option<Self>)
        ensures
            r matches Some(p) ==> redundancy_valid(p.data@),
            forall|bytes: Seq<u8>|
                bits_aligned(package.0) && bit_seq(package.0) == bytes_to_bits(bytes) ==> {
                    &&& (r is Some <==> redundancy_valid(bytes))
                    &&& (r matches Some(p) ==> p.data@ == bytes)
                },
            bits_aligned(package.0) ==> exists|bytes: Seq<u8>|
                {
                    &&& packs_bits(bytes, bit_seq(package.0))
                    &&& (r is Some <==> redundancy_valid(bytes))
                    &&& (r matches Some(p) ==> p.data@ == bytes)
                },
    {
        let bits: Bits = package.0;
        let ghost old_bits = bits;
        let package = Self { data: bits.into_vec() };
        assert(bits_aligned(old_bits) ==> packs_bits(package.data@, bit_seq(old_bits)));
        proof {
            assert forall|bytes: Seq<u8>|
                bits_aligned(old_bits) && bit_seq(old_bits) == bytes_to_bits(
                    bytes,
                ) implies package.data@ == bytes by {
                lemma_into_vec_of_bytes(old_bits, bytes, package.data@);
            }
        }
        if package.validate_checksum() {
            Some(package)
        } else {
            None
        }
    }

    /// Number of data bytes that the length field announces.
    pub fn len(&self) -> (r: usize)
        requires
            self.data@.len() >= 2,
            length_field(self.data@) >= redundancy_overhead(),
        ensures
            r == length_field(self.data@) - redundancy_overhead(),
    {
        let len = read_le(self.data.as_slice(), 0, BYTE_IN_LENGTH);
        len - BYTE_IN_LENGTH - BYTE_IN_ENDING - BYTE_IN_ADDRESS - CHECKSUM.len()
    }

    /// The length field announces no data.
    pub fn is_empty(&self) -> (r: bool)
        requires
            self.data@.len() >= 2,
            length_field(self.data@) >= redundancy_overhead(),
        ensures
            r == (length_field(self.data@) == redundancy_overhead()),
    {
        self.len() == 0
    }

    fn set_package_length(&mut self, len: usize)
        ensures
            final(self).data@ == old(self).data@ + le_bytes(len as nat, 2),
    {
        push_le(&mut self.data, len, BYTE_IN_LENGTH);
    }

    /// The checksum field (the last two bytes).
    pub fn checksum(&self) -> (r: usize)
        requires
            self.data@.len() >= 2,
        ensures
            r == checksum_field(self.data@),
    {
        let len = CHECKSUM.len();
        read_le(self.data.as_slice(), self.data.len() - len, self.data.len())
    }

    /// The frame is long enough and its checksum field matches its contents.
    pub fn validate_checksum(&self) -> (r: bool)
        ensures
            r == redundancy_valid(self.data@),
    {
        if self.data.len() < BYTE_IN_LENGTH + BYTE_IN_ENDING + BYTE_IN_ADDRESS + CHECKSUM.len() {
            return false;
        }
        let body = slice_subrange(self.data.as_slice(), 0, self.data.len() - CHECKSUM.len());
        CHECKSUM.checksum(body) == self.checksum()
    }

    fn set_checksum(&mut self)
        ensures
            final(self).data@ == old(self).data@ + le_bytes(
                crc16_ibm_sdlc(old(self).data@) as nat,
                2,
            ),
    {
        let checksum = CHECKSUM.checksum(self.data.as_slice());
        push_le(&mut self.data, checksum, CHECKSUM.len());
    }

    /// The ending flag is set: more fragments of the same packet follow.
    pub fn has_more_fragments(&self) -> (r: bool)
        requires
            self.data@.len() >= 3,
        ensures
            r == (self.data@[2] != 0),
    {
        self.data[BYTE_IN_LENGTH] != 0
    }

    fn set_has_more_fragments(&mut self, has_more_fragments: bool)
        ensures
            final(self).data@ == old(self).data@.push(
                if has_more_fragments {
                    1u8
                } else {
                    0u8
                },
            ),
    {
        self.data.push(
            if has_more_fragments {
                1
            } else {
                0
            },
        );
    }

    fn set_address(&mut self, src: u8, dest: u8)
        ensures
            final(self).data@ == old(self).data@.push(src).push(dest),
    {
        self.data.push(src);
        self.data.push(dest);
    }

    /// Source and destination.
    pub fn address(&self) -> (r: (u8, u8))
        requires
            self.data@.len() >= 5,
        ensures
            r == (self.data@[3], self.data@[4]),
    {
        let src = self.data[BYTE_IN_LENGTH + BYTE_IN_ENDING];
        let dest = self.data[BYTE_IN_LENGTH + BYTE_IN_ENDING + 1];
        (src, dest)
    }

    /// The bytes between the header and the checksum.
    pub fn data(&self) -> (r: &[u8])
        requires
            self.data@.len() >= redundancy_overhead(),
        ensures
            r@ == self.data@.subrange(5, self.data@.len() - 2),
    {
        let start = BYTE_IN_LENGTH + BYTE_IN_ENDING + BYTE_IN_ADDRESS;
        let end = self.data.len() - CHECKSUM.len();
        slice_subrange(self.data.as_slice(), start, end)
    }
}

/// Law: a frame built from some data reads back that data, its flag and addresses, announces
/// the data's length (when the frame length fits the two-byte field), and passes its checksum.
pub proof fn lemma_redundancy_round_trip(data: Seq<u8>, has_more_fragments: bool, src: u8, dest: u8)
    requires
        data.len() + redundancy_overhead() < 65536,
    ensures
        ({
            let f = redundancy_frame(data, data.len(), has_more_fragments, src, dest);
            &&& f.len() == data.len() + redundancy_overhead()
            &&& length_field(f) == data.len() + redundancy_overhead()
            &&& (f[2] != 0) == has_more_fragments
            &&& f[3] == src
            &&& f[4] == dest
            &&& f.subrange(5, f.len() - 2) == data
            &&& redundancy_valid(f)
        }),
{
    let n = data.len() + redundancy_overhead();
    let body = le_bytes(n, 2) + seq![
        if has_more_fragments {
            1u8
        } else {
            0u8
        },
        src,
        dest,
    ] + data;
    let crc = crc16_ibm_sdlc(body);
    let f = body + le_bytes(crc as nat, 2);
    assert(f == redundancy_frame(data, data.len(), has_more_fragments, src, dest));
    lemma_le_two_bytes(n);
    lemma_le_two_bytes(crc as nat);
    assert(f.subrange(0, 2) =~= le_bytes(n, 2));
    assert(f.subrange(5, f.len() - 2) =~= data);
    assert(f.subrange(0, f.len() - 2) =~= body);
    assert(f.subrange(f.len() - 2, f.len() as int) =~= le_bytes(crc as nat, 2));
}

} // verus!

use crate::bits::{bit_seq, bits_aligned, bytes_to_bits, lemma_into_vec_of_bytes, packs_bits, Bits};
use crate::checksum::{crc16_ibm_sdlc, CHECKSUM};
use crate::encoding::NetworkPackage;
use crate::fields::{le_bytes, le_value, lemma_le_two_bytes, push_le, read_le};
use crate::redundancy::{checksum_field, length_field};
use vstd::prelude::*;
use vstd::slice::{slice_subrange, slice_to_vec};

verus! {

pub const BYTE_IN_LENGTH: usize = 2;

pub const BYTE_IN_OFFSET: usize = 1;

pub const BYTE_IN_ENDING_AND_ACK: usize = 1;

pub const BYTE_IN_ADDRESS: usize = 2;

/// Bytes that an acknowledged frame adds around its data.
pub open spec fn ack_overhead() -> nat {
    8
}

/// The flag byte: bit 0 says that more fragments follow, bit 1 that the frame is an
/// acknowledgement.
pub open spec fn ack_flags(has_more_fragments: bool, has_ack: bool) -> u8 {
    ((if has_more_fragments {
        1u8
    } else {
        0u8
    }) | ((if has_ack {
        1u8
    } else {
        0u8
    }) << 1u8)) as u8
}

/// The frame that `AckPackage::new` builds: the frame length (data length plus overhead) in two
/// bytes, least significant first; the low byte of the offset; the flag byte; source and
/// destination; the data; and the CRC-16 of all of that, least significant byte first.
pub open spec fn ack_frame(
    data: Seq<u8>,
    data_len: nat,
    offset: nat,
    has_more_fragments: bool,
    has_ack: bool,
    src: u8,
    dest: u8,
) -> Seq<u8> {
    let body = le_bytes(data_len + ack_overhead(), 2) + le_bytes(offset, 1) + seq![
        ack_flags(has_more_fragments, has_ack),
        src,
        dest,
    ] + data;
    body + le_bytes(crc16_ibm_sdlc(body) as nat, 2)
}

/// The checksum field is the CRC-16 of everything before it.
pub open spec fn ack_valid(frame: Seq<u8>) -> bool {
    crc16_ibm_sdlc(frame.subrange(0, frame.len() - 2)) as nat == checksum_field(frame)
}

pub open spec fn flag_more(flags: u8) -> bool {
    flags & 1u8 != 0u8
}

pub open spec fn flag_ack(flags: u8) -> bool {
    (flags >> 1u8) & 1u8 == 1u8
}

/// A frame of the stop-and-wait link, which may acknowledge a frame of the peer.
#[derive(Eq, PartialEq, Debug, Clone)]
pub struct AckPackage {
    pub data: Vec<u8>,
}

impl NetworkPackage for AckPackage {

}

impl AckPackage {
    /// Builds the frame of `data`, whose length field says `data_len` bytes of data.
    pub fn new(
        data: &[u8],
        data_len: usize,
        offset: usize,
        has_more_fragments: bool,
        has_ack: bool,
        src: u8,
        dest: u8,
    ) -> (r: Self)
        requires
            data_len + ack_overhead() <= usize::MAX,
        ensures
            r.data@ == ack_frame(
                data@,
                data_len as nat,
                offset as nat,
                has_more_fragments,
                has_ack,
                src,
                dest,
            ),
    {
        let mut package = Self {
            data: Vec::with_capacity(
                data_len + BYTE_IN_LENGTH + BYTE_IN_OFFSET + BYTE_IN_ENDING_AND_ACK
                    + BYTE_IN_ADDRESS + CHECKSUM.len(),
            ),
        };
        package.set_len(
            data_len + BYTE_IN_LENGTH + BYTE_IN_OFFSET + BYTE_IN_ENDING_AND_ACK + BYTE_IN_ADDRESS
                + CHECKSUM.len(),
        );
        package.set_offset(offset);
        package.set_has_more_fragments_and_ack(has_more_fragments, has_ack);
        package.set_address(src, dest);
        package.data.extend_from_slice(data);
        assert(package.data@ =~= le_bytes(data_len as nat + ack_overhead(), 2) + le_bytes(
            offset as nat,
            1,
        ) + seq![ack_flags(has_more_fragments, has_ack), src, dest] + data@);
        package.set_checksum();
        package
    }

    /// The frame carried by received bits, if its checksum holds.
    pub fn build_from_raw(raw_data: Bits) -> (r: Option<Self>)
        requires
            bits_aligned(raw_data),
            bit_seq(raw_data).len() > 8,
        ensures
            r matches Some(p) ==> ack_valid(p.data@),
            forall|bytes: Seq<u8>|
                bit_seq(raw_data) == bytes_to_bits(bytes) ==> {
                    &&& (r is Some <==> ack_valid(bytes))
                    &&& (r matches Some(p) ==> p.data@ == bytes)
                },
            exists|bytes: Seq<u8>|
                {
                    &&& packs_bits(bytes, bit_seq(raw_data))
                    &&& (r is Some <==> ack_valid(bytes))
                    &&& (r matches Some(p) ==> p.data@ == bytes)
                },
    {
        let ghost bits = raw_data;
        let package = Self { data: raw_data.into_vec() };
        assert(packs_bits(package.data@, bit_seq(bits)));
        proof {
            assert forall|bytes: Seq<u8>| bit_seq(bits) == bytes_to_bits(
                bytes,
            ) implies package.data@ == bytes by {
                lemma_into_vec_of_bytes(bits, bytes, package.data@);
            }
            assert((bit_seq(bits).len() + 7) / 8 >= 2);
        }
        if package.validate_checksum() {
            Some(package)
        } else {
            None
        }
    }

    /// The data between the header and the checksum.
    pub fn extract(&self) -> (r: Vec<u8>)
        requires
            self.data@.len() >= ack_overhead(),
        ensures
            r@ == self.data@.subrange(6, self.data@.len() - 2),
    {
        slice_to_vec(
            slice_subrange(
                self.data.as_slice(),
                BYTE_IN_LENGTH + BYTE_IN_OFFSET + BYTE_IN_ENDING_AND_ACK + BYTE_IN_ADDRESS,
                self.data.len() - CHECKSUM.len(),
            ),
        )
    }

    /// The frame length that the length field announces.
    pub fn len(&self) -> (r: usize)
        requires
            self.data@.len() >= 2,
        ensures
            r == length_field(self.data@),
    {
        read_le(self.data.as_slice(), 0, BYTE_IN_LENGTH)
    }

    /// The offset field.
    pub fn offset(&self) -> (r: usize)
        requires
            self.data@.len() >= 3,
        ensures
            r == self.data@[2],
    {
        let r = read_le(self.data.as_slice(), BYTE_IN_LENGTH, BYTE_IN_LENGTH + BYTE_IN_OFFSET);
        let ghost sub = self.data@.subrange(2, 3);
        assert(sub.drop_first().len() == 0);
        assert(le_value(sub) == sub[0] + 256 * le_value(sub.drop_first()));
        r
    }

    /// Number of data bytes that the length field announces.
    pub fn data_len(&self) -> (r: usize)
        requires
            self.data@.len() >= 2,
            length_field(self.data@) >= ack_overhead(),
        ensures
            r == length_field(self.data@) - ack_overhead(),
    {
        self.len() - BYTE_IN_LENGTH - BYTE_IN_OFFSET - BYTE_IN_ENDING_AND_ACK - BYTE_IN_ADDRESS
            - CHECKSUM.len()
    }

    fn set_len(&mut self, len: usize)
        ensures
            final(self).data@ == old(self).data@ + le_bytes(len as nat, 2),
    {
        push_le(&mut self.data, len, BYTE_IN_LENGTH);
    }

    fn set_offset(&mut self, offset: usize)
        ensures
            final(self).data@ == old(self).data@ + le_bytes(offset as nat, 1),
    {
        push_le(&mut self.data, offset, BYTE_IN_OFFSET);
    }

    /// The checksum field (the last two bytes).
    pub fn checksum(&self) -> (r: usize)
        requires
            self.data@.len() >= 2,
        ensures
            r == checksum_field(self.data@),
    {
        let len = CHECKSUM.len();
        read_le(self.data.as_slice(), self.data.len() - len, self.data.len())
    }

    /// The checksum field matches the contents.
    pub fn validate_checksum(&self) -> (r: bool)
        requires
            self.data@.len() >= 2,
        ensures
            r == ack_valid(self.data@),
    {
        let body = slice_subrange(self.data.as_slice(), 0, self.data.len() - CHECKSUM.len());
        CHECKSUM.checksum(body) == self.checksum()
    }

    fn set_checksum(&mut self)
        ensures
            final(self).data@ == old(self).data@ + le_bytes(
                crc16_ibm_sdlc(old(self).data@) as nat,
                2,
            ),
    {
        let checksum = CHECKSUM.checksum(self.data.as_slice());
        push_le(&mut self.data, checksum, CHECKSUM.len());
    }

    /// Bit 0 of the flag byte: more fragments follow.
    pub fn has_more_fragments(&self) -> (r: bool)
        requires
            self.data@.len() >= 4,
        ensures
            r == flag_more(self.data@[3]),
    {
        (self.data[BYTE_IN_LENGTH + BYTE_IN_OFFSET] & 0x01) != 0
    }

    /// Bit 1 of the flag byte: the frame acknowledges a frame of the peer.
    pub fn has_ack(&self) -> (r: bool)
        requires
            self.data@.len() >= 4,
        ensures
            r == flag_ack(self.data@[3]),
    {
        ((self.data[BYTE_IN_LENGTH + BYTE_IN_OFFSET] >> 1) & 0x01) == 1
    }

    fn set_has_more_fragments_and_ack(&mut self, has_more_fragments: bool, has_ack: bool)
        ensures
            final(self).data@ == old(self).data@.push(ack_flags(has_more_fragments, has_ack)),
    {
        let more: u8 = if has_more_fragments {
            1
        } else {
            0
        };
        let ack: u8 = if has_ack {
            1
        } else {
            0
        };
        let mask = more | (ack << 1);
        self.data.push(mask);
    }

    fn set_address(&mut self, src: u8, dest: u8)
        ensures
            final(self).data@ == old(self).data@.push(src).push(dest),
    {
        self.data.push(src);
        self.data.push(dest);
    }

    /// Source and destination.
    pub fn address(&self) -> (r: (u8, u8))
        requires
            self.data@.len() >= 6,
        ensures
            r == (self.data@[4], self.data@[5]),
    {
        let src = self.data[BYTE_IN_LENGTH + BYTE_IN_OFFSET + BYTE_IN_ENDING_AND_ACK];
        let dest = self.data[BYTE_IN_LENGTH + BYTE_IN_OFFSET + BYTE_IN_ENDING_AND_ACK + 1];
        (src, dest)
    }
}

/// The flags read back as they were set.
pub proof fn lemma_ack_flags(has_more_fragments: bool, has_ack: bool)
    ensures
        flag_more(ack_flags(has_more_fragments, has_ack)) == has_more_fragments,
        flag_ack(ack_flags(has_more_fragments, has_ack)) == has_ack,
{
    let m: u8 = if has_more_fragments {
        1
    } else {
        0
    };
    let a: u8 = if has_ack {
        1
    } else {
        0
    };
    assert(((m | (a << 1u8)) & 1u8 != 0u8) == (m == 1u8) && (((m | (a << 1u8)) >> 1u8) & 1u8
        == 1u8) == (a == 1u8)) by (bit_vector)
        requires
            m <= 1,
            a <= 1,
    ;
}

/// Law: an acknowledged frame built from some data and an announced data length reads back
/// that data, its offset (modulo 256), flags and addresses, announces its length (when it fits
/// the two-byte field), and passes its checksum.
pub proof fn lemma_ack_round_trip(
    data: Seq<u8>,
    data_len: nat,
    offset: nat,
    has_more_fragments: bool,
    has_ack: bool,
    src: u8,
    dest: u8,
)
    requires
        data_len + ack_overhead() < 65536,
    ensures
        ({
            let f = ack_frame(data, data_len, offset, has_more_fragments, has_ack, src, dest);
            &&& f.len() == data.len() + ack_overhead()
            &&& length_field(f) == data_len + ack_overhead()
            &&& f[2] == offset % 256
            &&& flag_more(f[3]) == has_more_fragments
            &&& flag_ack(f[3]) == has_ack
            &&& f[4] == src
            &&& f[5] == dest
            &&& f.subrange(6, f.len() - 2) == data
            &&& ack_valid(f)
        }),
{
    let n = data_len + ack_overhead();
    let body = le_bytes(n, 2) + le_bytes(offset, 1) + seq![
        ack_flags(has_more_fragments, has_ack),
        src,
        dest,
    ] + data;
    let crc = crc16_ibm_sdlc(body);
    let f = body + le_bytes(crc as nat, 2);
    assert(f == ack_frame(data, data_len, offset, has_more_fragments, has_ack, src, dest));
    lemma_le_two_bytes(n);
    lemma_le_two_bytes(crc as nat);
    lemma_ack_flags(has_more_fragments, has_ack);
    assert(crate::fields::pow256(0) == 1);
    assert(f[2] == le_bytes(offset, 1)[0]);
    assert(offset / 1 == offset);
    assert(f[2] == offset % 256);
    assert(f.len() == data.len() + ack_overhead());
    assert(f[3] == ack_flags(has_more_fragments, has_ack));
    assert(f[4] == src && f[5] == dest);
    assert(f.subrange(0, 2) =~= le_bytes(n, 2));
    assert(f.subrange(6, f.len() - 2) =~= data);
    assert(f.subrange(0, f.len() - 2) =~= body);
    assert(f.subrange(f.len() - 2, f.len() as int) =~= le_bytes(crc as nat, 2));
}

} // verus!

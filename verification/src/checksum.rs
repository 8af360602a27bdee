use crc::{Crc, CRC_16_IBM_SDLC, CRC_32_ISO_HDLC, CRC_64_XZ};
use vstd::prelude::*;

verus! {

/// The CRC-16/IBM-SDLC checksum of some bytes (as `crc` computes it).
pub uninterp spec fn crc16_ibm_sdlc(data: Seq<u8>) -> u16;

/// The CRC-32/ISO-HDLC checksum of some bytes (as `crc` computes it).
pub uninterp spec fn crc32_iso_hdlc(data: Seq<u8>) -> u32;

/// The CRC-64/XZ checksum of some bytes (as `crc` computes it).
pub uninterp spec fn crc64_xz(data: Seq<u8>) -> u64;

/// `Crc::<u16>::new(&CRC_16_IBM_SDLC).checksum`: a function of the bytes alone, named
/// `crc16_ibm_sdlc`; nothing more of its value is stated.
#[verifier::external_body]
fn crc16_checksum(data: &[u8]) -> (r: u16)
    ensures
        r == crc16_ibm_sdlc(data@),
{
    Crc::<u16>::new(&CRC_16_IBM_SDLC).checksum(data)
}

/// `Crc::<u32>::new(&CRC_32_ISO_HDLC).checksum`: a function of the bytes alone, named
/// `crc32_iso_hdlc`; nothing more of its value is stated.
#[verifier::external_body]
fn crc32_checksum(data: &[u8]) -> (r: u32)
    ensures
        r == crc32_iso_hdlc(data@),
{
    Crc::<u32>::new(&CRC_32_ISO_HDLC).checksum(data)
}

/// `Crc::<u64>::new(&CRC_64_XZ).checksum`: a function of the bytes alone, named `crc64_xz`;
/// nothing more of its value is stated.
#[verifier::external_body]
fn crc64_checksum(data: &[u8]) -> (r: u64)
    ensures
        r == crc64_xz(data@),
{
    Crc::<u64>::new(&CRC_64_XZ).checksum(data)
}

/// The cyclic redundancy check that guards a frame: CRC-16/IBM-SDLC, CRC-32/ISO-HDLC or
/// CRC-64/XZ.
#[derive(Clone, Copy, Debug, PartialEq, Eq)]
pub enum Checksum {
    CRC16,
    CRC32,
    CRC64,
}

/// The checksum that the frames of this crate carry.
pub const CHECKSUM: Checksum = Checksum::CRC16;

impl Checksum {
    /// Number of bytes that the checksum occupies.
    pub open spec fn spec_len(self) -> nat {
        match self {
            Checksum::CRC16 => 2,
            Checksum::CRC32 => 4,
            Checksum::CRC64 => 8,
        }
    }

    /// The checksum of some bytes.
    pub open spec fn spec_checksum(self, data: Seq<u8>) -> usize {
        match self {
            Checksum::CRC16 => crc16_ibm_sdlc(data) as usize,
            Checksum::CRC32 => crc32_iso_hdlc(data) as usize,
            Checksum::CRC64 => crc64_xz(data) as usize,
        }
    }

    /// Number of bytes that the checksum occupies.
    pub fn len(&self) -> (r: usize)
        ensures
            r == self.spec_len(),
    {
        match self {
            Checksum::CRC16 => 2,
            Checksum::CRC32 => 4,
            Checksum::CRC64 => 8,
        }
    }

    /// The checksum of `data`.
    pub fn checksum(&self, data: &[u8]) -> (r: usize)
        ensures
            r == self.spec_checksum(data@),
    {
        match self {
            Checksum::CRC16 => crc16_checksum(data) as usize,
            Checksum::CRC32 => crc32_checksum(data) as usize,
            Checksum::CRC64 => crc64_checksum(data) as usize,
        }
    }
}

} // verus!

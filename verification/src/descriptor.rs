use vstd::prelude::*;

verus! {

/// How one audio sample is stored.
#[derive(Copy, Clone, Debug, PartialEq, Eq, Structural)]
pub enum SampleFormat {
    /// The value 0 corresponds to 0.
    I16,
    /// The value 0 corresponds to 32768.
    U16,
    /// The boundaries are (-1.0, 1.0).
    F32,
}

/// The shape of an audio stream.
#[derive(Copy, Clone, Debug)]
pub struct SoundDescriptor {
    pub channels: u16,
    pub sample_rate: u32,
    pub sample_format: SampleFormat,
}

/// The bits of one sample of a format.
pub open spec fn sample_bits(format: SampleFormat) -> nat {
    match format {
        SampleFormat::I16 => 16,
        SampleFormat::U16 => 16,
        SampleFormat::F32 => 32,
    }
}

impl SampleFormat {
    /// The bits of one sample: the size of its type in bytes, times eight.
    pub fn sample_size(&self) -> (r: usize)
        ensures
            r == sample_bits(*self),
    {
        match self {
            SampleFormat::I16 => 2 * 8,
            SampleFormat::U16 => 2 * 8,
            SampleFormat::F32 => 4 * 8,
        }
    }
}

} // verus!

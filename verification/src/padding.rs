use rand::Rng;
use vstd::prelude::*;

verus! {

/// A random byte from the thread-local generator (`rand::Rng::gen`); any byte may come back.
#[verifier::external_body]
fn random_byte() -> u8 {
    rand::thread_rng().gen::<u8>()
}

/// A random byte in `start..end` from the thread-local generator (`rand::Rng::gen_range`),
/// which panics on an empty range and otherwise returns a value of the range.
#[verifier::external_body]
fn random_byte_in(start: u8, end: u8) -> (r: u8)
    requires
        start < end,
    ensures
        start <= r < end,
{
    rand::thread_rng().gen_range(start..end)
}

/// `count` random bytes, used to fill the unused part of a frame.
pub fn padding(count: usize) -> (r: Vec<u8>)
    ensures
        r@.len() == count,
{
    let mut r: Vec<u8> = Vec::with_capacity(count);
    let mut i: usize = 0;
    while i < count
        invariant
            i <= count,
            r@.len() == i,
        decreases count - i,
    {
        r.push(random_byte());
        i += 1;
    }
    r
}

/// `count` random bytes, each in `start..end`.
pub fn padding_range(start: u8, end: u8, count: usize) -> (r: Vec<u8>)
    requires
        start < end,
    ensures
        r@.len() == count,
        forall|i: int| 0 <= i < count ==> start <= #[trigger] r@[i] < end,
{
    let mut r: Vec<u8> = Vec::with_capacity(count);
    let mut i: usize = 0;
    while i < count
        invariant
            start < end,
            i <= count,
            r@.len() == i,
            forall|j: int| 0 <= j < i ==> start <= #[trigger] r@[j] < end,
        decreases count - i,
    {
        r.push(random_byte_in(start, end));
        i += 1;
    }
    r
}

} // verus!

use rand::{Rng, SeedableRng};
use rand_pcg::Lcg128Xsl64;
use vstd::prelude::*;

verus! {

#[verifier::external_type_specification]
#[verifier::external_body]
pub struct ExLcg128Xsl64(Lcg128Xsl64);

/// The byte at `index` (from 0) of what `Rng::gen::<u8>` draws, one call after another, from a
/// PCG-64 generator made by `SeedableRng::seed_from_u64(seed)`.
pub uninterp spec fn pcg64_byte(seed: u64, index: nat) -> u8;

/// A PCG-64 generator, with the seed it was made from and how many bytes it has handed out.
pub struct PcgStream {
    rng: Lcg128Xsl64,
    seed: Ghost<u64>,
    drawn: Ghost<nat>,
}

impl PcgStream {
    /// The seed the generator was made from.
    pub closed spec fn seed(&self) -> u64 {
        self.seed@
    }

    /// How many bytes the generator has handed out.
    pub closed spec fn drawn(&self) -> nat {
        self.drawn@
    }
}

/// A PCG-64 generator seeded with `seed` (`SeedableRng::seed_from_u64`), which has handed out
/// nothing yet.
#[verifier::external_body]
fn seeded_generator(seed: u64) -> (r: PcgStream)
    ensures
        r.seed() == seed,
        r.drawn() == 0,
{
    PcgStream { rng: Lcg128Xsl64::seed_from_u64(seed), seed: Ghost(seed), drawn: Ghost(0) }
}

/// The next random byte of a generator (`Rng::gen`): the byte at its position in the stream
/// of its seed, after which the position moves on by one.
#[verifier::external_body]
fn next_byte(stream: &mut PcgStream) -> (r: u8)
    ensures
        r == pcg64_byte(old(stream).seed(), old(stream).drawn()),
        final(stream).seed() == old(stream).seed(),
        final(stream).drawn() == old(stream).drawn() + 1,
{
    let byte: u8 = stream.rng.gen();
    stream.drawn = Ghost(stream.drawn@ + 1);
    byte
}

/// The bytes a test transfer sends: the first 1250 bytes of the PCG-64 generator seeded with 2.
pub fn generate_random_data() -> (r: Vec<u8>)
    ensures
        r@ == Seq::new(1250, |i: int| pcg64_byte(2, i as nat)),
{
    let mut rng = seeded_generator(2);
    let mut r: Vec<u8> = Vec::with_capacity(1250);
    let mut i: usize = 0;
    while i < 1250
        invariant
            i <= 1250,
            rng.seed() == 2,
            rng.drawn() == i,
            r@ == Seq::new(i as nat, |k: int| pcg64_byte(2, k as nat)),
        decreases 1250 - i,
    {
        r.push(next_byte(&mut rng));
        i += 1;
        assert(r@ =~= Seq::new(i as nat, |k: int| pcg64_byte(2, k as nat)));
    }
    r
}

} // verus!

use vstd::prelude::*;
use rand::rngs::StdRng;
use rand::{Rng, SeedableRng};

verus! {

#[verifier::external_type_specification]
#[verifier::external_body]
pub struct ExStdRng(StdRng);

/// Relies on rand's `SeedableRng::seed_from_u64` for `StdRng`: a generator
/// whose stream is fixed by the seed.
#[verifier::external_body]
fn std_rng_from_seed(seed: u64) -> StdRng {
    StdRng::seed_from_u64(seed)
}

/// Relies on rand's `SeedableRng::from_entropy` for `StdRng`: a generator
/// seeded from the operating system.
#[verifier::external_body]
fn std_rng_from_entropy() -> StdRng {
    StdRng::from_entropy()
}

/// Relies on rand's `Rng::gen_range` over `0..bound`, which returns a value
/// of that range and panics only on an empty range.
#[verifier::external_body]
fn std_rng_below(rng: &mut StdRng, bound: u128) -> (r: u128)
    requires
        bound > 0,
    ensures
        r < bound,
{
    rng.gen_range(0..bound)
}

/// The source of randomness threaded through sampling and generation.
pub struct RandomSource {
    rng: StdRng,
}

impl RandomSource {
    /// A reproducible source: equal seeds give equal streams of draws.
    pub fn seeded(seed: u64) -> (r: RandomSource) {
        RandomSource { rng: std_rng_from_seed(seed) }
    }

    /// A source seeded from the operating system.
    pub fn from_entropy() -> (r: RandomSource) {
        RandomSource { rng: std_rng_from_entropy() }
    }

    /// A uniform draw from `0..bound`.
    pub fn below(&mut self, bound: u128) -> (r: u128)
        requires
            bound > 0,
        ensures
            r < bound,
    {
        std_rng_below(&mut self.rng, bound)
    }
}

} // verus!

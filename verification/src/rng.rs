//! The random source the solver draws from.
//!
//! All randomness is funneled through `RandomSource`: a seeded pseudo-random
//! generator, so a run can be reproduced, or one seeded from the operating
//! system.  Nothing is assumed of a drawn value beyond its range.

use vstd::prelude::*;

verus! {

#[verifier::external_type_specification]
#[verifier::external_body]
pub struct ExStdRng(rand::rngs::StdRng);

/// A stream of uniformly distributed numbers for the solver's tie-breaking
/// and tile selection.
pub struct RandomSource {
    rng: rand::rngs::StdRng,
}

impl RandomSource {
    /// Relies on rand's `SeedableRng::seed_from_u64` to build a generator
    /// from a seed.
    #[verifier::external_body]
    pub fn from_seed(seed: u64) -> (r: RandomSource) {
        RandomSource { rng: <rand::rngs::StdRng as rand::SeedableRng>::seed_from_u64(seed) }
    }

    /// Relies on rand's `SeedableRng::from_entropy` to build a generator from
    /// operating-system randomness.
    #[verifier::external_body]
    pub fn from_entropy() -> (r: RandomSource) {
        RandomSource { rng: <rand::rngs::StdRng as rand::SeedableRng>::from_entropy() }
    }

    /// Relies on rand's `Rng::gen_range`, which returns a value drawn
    /// uniformly from the nonempty range `0..n`; nothing more is assumed of
    /// which value comes back.
    #[verifier::external_body]
    pub(crate) fn next_below(&mut self, n: usize) -> (r: usize)
        requires
            n > 0,
        ensures
            r < n,
    {
        rand::Rng::gen_range(&mut self.rng, 0..n)
    }
}

} // verus!

//! Seedable randomness for the fill phase.
//!
//! The engine never draws randomness itself: callers hand it a
//! `RandomSource`, so a fixed seed replays a generation exactly.  The words
//! come from `rand`'s standard generator behind trusted wrappers.

use vstd::prelude::*;
use rand::SeedableRng;

verus! {

#[verifier::external_type_specification]
#[verifier::external_body]
pub struct ExStdRng(rand::rngs::StdRng);

/// A seedable source of random words for the engine's fill decisions.
pub struct RandomSource {
    rng: rand::rngs::StdRng,
}

impl RandomSource {
    /// Relies on rand's `StdRng::seed_from_u64` (`SeedableRng`), which
    /// expands a 64-bit seed into a generator state.
    #[verifier::external_body]
    pub fn from_seed(seed: u64) -> RandomSource {
        RandomSource { rng: rand::rngs::StdRng::seed_from_u64(seed) }
    }

    /// Relies on rand's `SeedableRng::try_from_rng` over the operating
    /// system's generator: a freshly seeded source, or `None` when the
    /// system cannot supply entropy — no panic path.
    #[verifier::external_body]
    pub fn from_entropy() -> Option<RandomSource> {
        match rand::rngs::StdRng::try_from_rng(&mut rand::rngs::SysRng) {
            Ok(rng) => Some(RandomSource { rng }),
            Err(_) => None,
        }
    }

    /// Relies on rand's `Rng::next_u64` for `StdRng`; nothing is promised of
    /// the word drawn.
    #[verifier::external_body]
    pub fn next_u64(&mut self) -> u64 {
        rand::Rng::next_u64(&mut self.rng)
    }
}

} // verus!

//! The randomness source: a seedable generator injected into the generation
//! controller. Determinism of a run within one process is fully determined
//! by the seed together with the grid size, the rule set and the fixed
//! traversal order; nothing about the drawn values themselves is assumed.

use vstd::prelude::*;

use rand::rngs::SmallRng;
use rand::RngCore;
use rand::SeedableRng;

verus! {

#[verifier::external_type_specification]
#[verifier::external_body]
pub struct ExSmallRng(SmallRng);

/// A seedable source of uniform draws.
pub struct RandomSource {
    pub rng: SmallRng,
}

impl RandomSource {
    /// Creates a source seeded with `seed`.
    /// Relies on rand's `SeedableRng::seed_from_u64` for `SmallRng`, which
    /// builds a generator state from the seed and does not fail.
    #[verifier::external_body]
    pub fn new(seed: u64) -> (r: RandomSource) {
        RandomSource { rng: SmallRng::seed_from_u64(seed) }
    }

    /// Draws the next value.
    /// Relies on rand's `RngCore::next_u64` for `SmallRng`, which advances
    /// the generator and returns some 64-bit value; it does not fail, and
    /// nothing is assumed about which value comes back.
    #[verifier::external_body]
    pub fn next_u64(&mut self) -> (r: u64) {
        self.rng.next_u64()
    }
}

} // verus!

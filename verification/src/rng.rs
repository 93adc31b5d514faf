//! The randomness source: a seedable, reproducible ChaCha20 stream.
//!
//! Every random decision of the sampler and the loot evaluator draws from a
//! [`LootRng`]. A generator built from a seed yields a stream that is a pure
//! function of that seed, which is what makes seeded rolls reproducible.

use vstd::prelude::*;

verus! {

#[verifier::external_type_specification]
#[verifier::external_body]
pub struct ExChaCha20Rng(rand_chacha::ChaCha20Rng);

/// The abstract state of the generator between draws.
pub type RngState = rand_chacha::ChaCha20Rng;

/// What one bounded draw on a given generator state returns, and the state
/// it leaves behind.
pub uninterp spec fn rng_next(state: rand_chacha::ChaCha20Rng, bound: u64) -> (
    u64,
    rand_chacha::ChaCha20Rng,
);

/// The generator state a given seed produces.
pub uninterp spec fn rng_from_seed(seed: u64) -> rand_chacha::ChaCha20Rng;

/// A seedable pseudo-random source, consumed draw by draw.
pub struct LootRng {
    state: rand_chacha::ChaCha20Rng,
}

impl View for LootRng {
    type V = rand_chacha::ChaCha20Rng;

    closed spec fn view(&self) -> rand_chacha::ChaCha20Rng {
        self.state
    }
}

impl LootRng {
    /// A fully reproducible generator.
    ///
    /// Relies on `rand_chacha::ChaCha20Rng` seeded through
    /// `rand::SeedableRng::seed_from_u64`: the ChaCha20 stream is a pure
    /// function of the seed, the same in every process and on every machine.
    #[verifier::external_body]
    pub fn seed_from_u64(seed: u64) -> (r: LootRng)
        ensures
            r@ == rng_from_seed(seed),
    {
        LootRng { state: <rand_chacha::ChaCha20Rng as rand::SeedableRng>::seed_from_u64(seed) }
    }

    /// A generator seeded from the operating system, so not reproducible.
    ///
    /// Relies on `rand::SeedableRng::from_entropy`, which aborts only when
    /// the operating system hands out no entropy; nothing is promised of
    /// the draws beyond what each draw's own contract states.
    #[verifier::external_body]
    pub fn from_entropy() -> (r: LootRng)
    {
        LootRng { state: <rand_chacha::ChaCha20Rng as rand::SeedableRng>::from_entropy() }
    }

    /// One draw, uniform below `bound`.
    ///
    /// Relies on `rand::Rng::gen_range` over `0..bound`: the result lies
    /// below the bound, and it and the advanced generator are a pure
    /// function of the prior state, so equal states keep yielding equal
    /// draws.
    #[verifier::external_body]
    pub fn gen_index(&mut self, bound: u64) -> (r: u64)
        requires
            bound >= 1,
        ensures
            r < bound,
            r == rng_next(old(self)@, bound).0,
            final(self)@ == rng_next(old(self)@, bound).1,
    {
        rand::Rng::gen_range(&mut self.state, 0..bound)
    }
}

} // verus!

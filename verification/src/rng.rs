//! The injected source of randomness for demand-order shuffling and
//! rationing draws.  A `TradeRng` is explicitly seeded, so ticks are
//! reproducible; every contract here states only what holds of every
//! possible outcome.

use vstd::prelude::*;
use rand::SeedableRng;
use rand::RngExt;
use rand::seq::SliceRandom;
use crate::ware::Ware;

verus! {

#[verifier::external_type_specification]
#[verifier::external_body]
pub struct ExStdRng(rand::rngs::StdRng);

/// A seeded pseudo-random generator driving one trading day's draws.
pub struct TradeRng {
    inner: rand::rngs::StdRng,
}

impl TradeRng {
    /// Relies on rand's `SeedableRng::seed_from_u64`: builds a generator
    /// deterministically from the seed.
    #[verifier::external_body]
    pub fn from_seed(seed: u64) -> (r: TradeRng) {
        TradeRng { inner: rand::rngs::StdRng::seed_from_u64(seed) }
    }

    /// Relies on rand's `RngExt::random_range` over `0..bound`: the draw is
    /// uniform, and always below the bound.
    #[verifier::external_body]
    pub fn below(&mut self, bound: u32) -> (r: u32)
        requires
            bound > 0,
        ensures
            r < bound,
    {
        self.inner.random_range(0..bound)
    }

    /// Relies on rand's `RngExt::random_range` over `0..bound`: the draw is
    /// uniform, and always below the bound.
    #[verifier::external_body]
    pub fn below_u64(&mut self, bound: u64) -> (r: u64)
        requires
            bound > 0,
        ensures
            r < bound,
    {
        self.inner.random_range(0..bound)
    }

    /// Relies on rand's `SliceRandom::shuffle`: the slice afterwards is a
    /// uniformly drawn permutation of the same elements.
    #[verifier::external_body]
    pub fn shuffle_wares(&mut self, wares: &mut Vec<Ware>)
        ensures
            final(wares)@.len() == old(wares)@.len(),
            final(wares)@.to_multiset() == old(wares)@.to_multiset(),
    {
        wares.as_mut_slice().shuffle(&mut self.inner)
    }
}

} // verus!

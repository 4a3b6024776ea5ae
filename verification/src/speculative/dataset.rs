//! Settings and random numbers for synthetic data.
use crate::lcg;
use vstd::prelude::*;

verus! {

/// Reproducible pseudo-random numbers.
pub struct Lcg {
    state: u64,
}

impl Lcg {
    /// The state.
    pub closed spec fn state(&self) -> u64 {
        self.state
    }

    /// A generator for a seed; the seed is mixed with a constant.
    pub fn new(seed: u64) -> (rng: Self)
        ensures
            rng.state() == seed ^ 0xcafe_babe_dead_beef,
    {
        Lcg { state: seed ^ 0xcafe_babe_dead_beef }
    }

    /// The next number, which is also the new state.
    pub fn next_u64(&mut self) -> (x: u64)
        ensures
            x == lcg::next_state(old(self).state()),
            final(self).state() == x,
    {
        self.state = lcg::step(self.state);
        self.state
    }
}

/// Size of a synthetic data set.
#[derive(Debug, Clone, Copy)]
pub struct DatasetConfig {
    /// Number of stored vectors.
    pub n_vectors: usize,
    /// Dimensions of a vector.
    pub dims: usize,
    /// Number of queries.
    pub n_queries: usize,
    /// Seed of the random numbers.
    pub seed: u64,
}

impl Default for DatasetConfig {
    fn default() -> (config: Self)
        ensures
            config.n_vectors == 10_000,
            config.dims == 128,
            config.n_queries == 500,
            config.seed == 0x5EED_0000_7777_0000,
    {
        DatasetConfig {
            n_vectors: 10_000,
            dims: 128,
            n_queries: 500,
            seed: 0x5EED_0000_7777_0000,
        }
    }
}

} // verus!

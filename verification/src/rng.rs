//! The random source behind the generator, the randomized solver mode and
//! the reducer. Production callers draw entropy from the operating system;
//! tests use a fixed seed so generation and reduction are reproducible.

use vstd::prelude::*;

use rand::SeedableRng;
use rand::seq::SliceRandom;

verus! {

#[verifier::external_type_specification]
#[verifier::external_body]
pub struct ExStdRng(rand::rngs::StdRng);

/// A pluggable random source: it only ever permutes slices of cell values
/// or cell indices, so nothing downstream depends on more than that.
pub struct BoardRng {
    inner: rand::rngs::StdRng,
}

impl BoardRng {
    /// Relies on rand::rngs::StdRng together with SeedableRng::from_entropy:
    /// a generator seeded from the operating system. Nothing can be promised
    /// of the values it will produce.
    #[verifier::external_body]
    pub fn from_entropy() -> (r: BoardRng) {
        BoardRng { inner: rand::rngs::StdRng::from_entropy() }
    }

    /// Relies on rand::rngs::StdRng together with SeedableRng::seed_from_u64:
    /// a deterministic generator for reproducible runs. Nothing is claimed of
    /// the values it produces.
    #[verifier::external_body]
    pub fn seeded(seed: u64) -> (r: BoardRng) {
        BoardRng { inner: rand::rngs::StdRng::seed_from_u64(seed) }
    }

    /// Relies on rand::seq::SliceRandom::shuffle: a Fisher-Yates pass that
    /// reorders the slice in place by swaps, so the result holds exactly the
    /// same values with the same multiplicities, in some order.
    #[verifier::external_body]
    pub fn shuffle(&mut self, values: &mut Vec<u8>)
        ensures
            final(values)@.to_multiset() == old(values)@.to_multiset(),
    {
        values.shuffle(&mut self.inner)
    }
}

} // verus!

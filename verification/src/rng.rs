//! The pluggable bounded number generator the draw runs on.
//!
//! The engine needs only one capability: derive the next value in a range
//! from a seeded state. The draw is generic over it, so a caller can swap the
//! algorithm; the engine ships a deterministic xorshift generator.

use vstd::prelude::*;

verus! {

/// A deterministic generator of bounded values: built from a seed, it hands
/// out one value in `[1, max_range]` per call, advancing its state each time.
pub trait RandomNumberGeneratorTrait: Sized {
    fn new(seed: u64) -> Self;

    fn number(&mut self, max_range: u32) -> (r: u32)
        requires
            max_range >= 1,
        ensures
            1 <= r <= max_range;
}

/// A xorshift generator: the engine's default number source. Its output is a
/// deterministic function of the seed, as round auditability asks.
pub struct RandomNumberGenerator {
    state: u64,
}

impl RandomNumberGeneratorTrait for RandomNumberGenerator {
    fn new(seed: u64) -> Self {
        // Mix and keep the state nonzero: xorshift fixes 0 forever.
        let mixed = seed ^ 0x9E37_79B9_7F4A_7C15u64;
        RandomNumberGenerator {
            state: if mixed == 0 {
                0x9E37_79B9_7F4A_7C15u64
            } else {
                mixed
            },
        }
    }

    fn number(&mut self, max_range: u32) -> (r: u32) {
        let mut x = self.state;
        x = x ^ (x << 13u64);
        x = x ^ (x >> 7u64);
        x = x ^ (x << 17u64);
        self.state = x;
        let rem = x % (max_range as u64);
        assert(rem < max_range as u64);
        (rem as u32) + 1
    }
}

} // verus!

//! A tiny deterministic PRNG (SplitMix64), so seeded pair sampling is
//! reproducible without a random-number dependency. The output need not
//! match any particular reference generator, only be self-consistent for a
//! given seed.

use vstd::prelude::*;

verus! {

/// The SplitMix64 state increment.
pub const GAMMA: u64 = 0x9E37_79B9_7F4A_7C15;

/// The SplitMix64 output function of a state.
pub open spec fn mix64(s: u64) -> u64 {
    let z = (s ^ (s >> 30u64)).wrapping_mul(0xBF58_476D_1CE4_E5B9u64);
    let z = (z ^ (z >> 27u64)).wrapping_mul(0x94D0_49BB_1331_11EBu64);
    z ^ (z >> 31u64)
}

/// The state after one step.
pub open spec fn advance(s: u64) -> u64 {
    s.wrapping_add(GAMMA)
}

/// SplitMix64 generator. Fast, good enough for sampling a few hundred
/// corpus inputs.
pub struct SplitMix64 {
    state: u64,
}

impl View for SplitMix64 {
    type V = u64;

    /// The generator's state.
    closed spec fn view(&self) -> u64 {
        self.state
    }
}

impl SplitMix64 {
    pub fn new(seed: u64) -> (r: Self)
        ensures
            r@ == seed,
    {
        SplitMix64 { state: seed }
    }

    /// Advances the state by [`GAMMA`] (wrapping) and returns the mix of the
    /// new state.
    pub fn next_u64(&mut self) -> (r: u64)
        ensures
            final(self)@ == advance(old(self)@),
            r == mix64(final(self)@),
    {
        self.state = self.state.wrapping_add(GAMMA);
        let mut z = self.state;
        z = (z ^ (z >> 30u64)).wrapping_mul(0xBF58_476D_1CE4_E5B9u64);
        z = (z ^ (z >> 27u64)).wrapping_mul(0x94D0_49BB_1331_11EBu64);
        z ^ (z >> 31u64)
    }

    /// A value in `0..n`, by reducing the next output modulo `n` (the bias
    /// is negligible for the small `n` this is used with).
    pub fn below(&mut self, n: usize) -> (r: usize)
        requires
            n > 0,
        ensures
            final(self)@ == advance(old(self)@),
            r == mix64(final(self)@) % (n as u64),
            r < n,
    {
        let x = self.next_u64();
        (x % (n as u64)) as usize
    }
}

} // verus!

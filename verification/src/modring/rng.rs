//! A tiny deterministic PRNG used for test vectors and randomized property
//! checks. Not cryptographically secure; protocol randomness is derived from
//! the transcript instead.
use vstd::prelude::*;

verus! {

/// The SplitMix64 increment (the golden-ratio constant).
pub const GOLDEN_GAMMA: u64 = 0x9E37_79B9_7F4A_7C15;

/// The SplitMix64 output mix applied to an (already advanced) state.
pub open spec fn splitmix_mix(z: u64) -> u64 {
    let z1 = (z ^ (z >> 30u64)).wrapping_mul(0xBF58_476D_1CE4_E5B9u64);
    let z2 = (z1 ^ (z1 >> 27u64)).wrapping_mul(0x94D0_49BB_1331_11EBu64);
    z2 ^ (z2 >> 31u64)
}

/// SplitMix64 — a fast, well-distributed deterministic generator.
#[derive(Clone, Debug)]
pub struct SplitMix64 {
    state: u64,
}

impl View for SplitMix64 {
    type V = u64;

    closed spec fn view(&self) -> u64 {
        self.state
    }
}

impl SplitMix64 {
    /// Seed the generator.
    pub fn new(seed: u64) -> (g: Self)
        ensures
            g@ == seed,
    {
        SplitMix64 { state: seed }
    }

    /// Next 64-bit output: advance the state by the golden gamma and mix it.
    pub fn next(&mut self) -> (r: u64)
        ensures
            final(self)@ == old(self)@.wrapping_add(GOLDEN_GAMMA),
            r == splitmix_mix(final(self)@),
    {
        self.state = self.state.wrapping_add(GOLDEN_GAMMA);
        let mut z = self.state;
        z = (z ^ (z >> 30)).wrapping_mul(0xBF58_476D_1CE4_E5B9);
        z = (z ^ (z >> 27)).wrapping_mul(0x94D0_49BB_1331_11EB);
        z ^ (z >> 31)
    }

    /// Value in `[0, bound)`: the next output reduced mod `bound`.
    pub fn below(&mut self, bound: u64) -> (r: u64)
        requires
            bound > 0,
        ensures
            final(self)@ == old(self)@.wrapping_add(GOLDEN_GAMMA),
            r == splitmix_mix(final(self)@) % bound,
            r < bound,
    {
        self.next() % bound
    }
}

} // verus!

//! A small deterministic pseudo-random generator: the SplitMix64 step
//! function. The search engine owns one generator per run, seeded
//! explicitly, so that a run is a pure function of its inputs and seed.

use vstd::prelude::*;

verus! {

/// Additive constant of the SplitMix64 state update.
pub const GOLDEN_GAMMA: u64 = 0x9E3779B97F4A7C15;

/// First multiplier of the SplitMix64 output mix.
pub const MIX_MUL_1: u64 = 0xBF58476D1CE4E5B9;

/// Second multiplier of the SplitMix64 output mix.
pub const MIX_MUL_2: u64 = 0x94D049BB133111EB;

/// Addition modulo `2^64`.
pub open spec fn spec_wrap_add(a: u64, b: u64) -> u64 {
    ((a + b) % 0x1_0000_0000_0000_0000) as u64
}

/// Multiplication modulo `2^64`.
pub open spec fn spec_wrap_mul(a: u64, b: u64) -> u64 {
    ((a * b) % 0x1_0000_0000_0000_0000) as u64
}

/// The SplitMix64 output mix of a state value.
pub open spec fn spec_mix(z0: u64) -> u64 {
    let z1 = spec_wrap_mul(z0 ^ (z0 >> 30), MIX_MUL_1);
    let z2 = spec_wrap_mul(z1 ^ (z1 >> 27), MIX_MUL_2);
    z2 ^ (z2 >> 31)
}

/// The generator state after one draw.
pub open spec fn spec_next_state(s: u64) -> u64 {
    spec_wrap_add(s, GOLDEN_GAMMA)
}

/// The value produced by one draw from state `s`.
pub open spec fn spec_output(s: u64) -> u64 {
    spec_mix(spec_next_state(s))
}

fn wrap_add(a: u64, b: u64) -> (r: u64)
    ensures
        r == spec_wrap_add(a, b),
{
    let s: u128 = a as u128 + b as u128;
    (s % 0x1_0000_0000_0000_0000u128) as u64
}

fn wrap_mul(a: u64, b: u64) -> (r: u64)
    ensures
        r == spec_wrap_mul(a, b),
{
    proof {
        assert((a as int) * (b as int) < 0x1_0000_0000_0000_0000_0000_0000_0000_0000)
            by (nonlinear_arith)
            requires
                a < 0x1_0000_0000_0000_0000,
                b < 0x1_0000_0000_0000_0000;
    }
    let p: u128 = a as u128 * b as u128;
    (p % 0x1_0000_0000_0000_0000u128) as u64
}

/// A deterministic pseudo-random generator owned by one optimization run.
/// Both the state update and the output are pinned exactly, so every
/// sequence of draws is a function of the seed alone.
pub struct Rng64 {
    pub state: u64,
}

impl Rng64 {
    /// A generator starting from the given seed.
    pub fn new(seed: u64) -> (r: Rng64)
        ensures
            r.state == seed,
    {
        Rng64 { state: seed }
    }

    /// Draw the next value and advance the state.
    pub fn next_u64(&mut self) -> (r: u64)
        ensures
            final(self).state == spec_next_state(old(self).state),
            r == spec_output(old(self).state),
    {
        let s2: u64 = wrap_add(self.state, GOLDEN_GAMMA);
        self.state = s2;
        let z1: u64 = wrap_mul(s2 ^ (s2 >> 30), MIX_MUL_1);
        let z2: u64 = wrap_mul(z1 ^ (z1 >> 27), MIX_MUL_2);
        z2 ^ (z2 >> 31)
    }
}

} // verus!

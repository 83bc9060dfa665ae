//! Sebastiano Vigna's SplitMix64 generator. The builders draw their seeds
//! from it, so that a construction is a function of the keys alone.

use vstd::prelude::*;

verus! {

/// The increment that the generator adds to its state at each step.
pub const GAMMA: u64 = 0x9e37_79b9_7f4a_7c15;

/// The state of the generator with which every builder starts.
pub const INITIAL_STATE: u64 = 1;

/// The state that follows `state`.
pub open spec fn next_state(state: u64) -> u64 {
    state.wrapping_add(GAMMA)
}

/// The value that the generator gives out when it has reached `state`.
pub open spec fn output(state: u64) -> u64 {
    let a = (state ^ (state >> 30)).wrapping_mul(0xbf58_476d_1ce4_e5b9);
    let b = (a ^ (a >> 27)).wrapping_mul(0x94d0_49bb_1331_11eb);
    b ^ (b >> 31)
}

/// The state after `steps` steps from `INITIAL_STATE`.
pub open spec fn state_after(steps: nat) -> u64
    decreases steps,
{
    if steps == 0 {
        INITIAL_STATE
    } else {
        next_state(state_after((steps - 1) as nat))
    }
}

/// The seed of the build attempt with index `attempt`, counted from zero.
pub open spec fn seed_of_attempt(attempt: nat) -> u64 {
    output(state_after(attempt + 1))
}

/// Advances the generator by one step and returns its next value.
pub fn splitmix64(seed: &mut u64) -> (r: u64)
    ensures
        *final(seed) == next_state(*old(seed)),
        r == output(*final(seed)),
{
    *seed = (*seed).wrapping_add(GAMMA);
    let z = *seed;
    let a = (z ^ (z >> 30)).wrapping_mul(0xbf58_476d_1ce4_e5b9);
    let b = (a ^ (a >> 27)).wrapping_mul(0x94d0_49bb_1331_11eb);
    b ^ (b >> 31)
}

} // verus!

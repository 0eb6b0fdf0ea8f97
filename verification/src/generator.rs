//! Reproducible input for tests and benchmarks: a xorshift generator with a
//! fixed seed, which hands out the same values on every run.

use vstd::prelude::*;

verus! {

/// The state before the first value.
pub const SEED: u64 = 17;

/// Each value is the low 32 bits of the state times this constant.
pub const MULTIPLIER: u64 = 2685821657736338717;

/// The state that follows `x`: three shifts, each mixed in with xor.
pub open spec fn next_state(x: u64) -> u64 {
    let a = x ^ (x >> 12u64);
    let b = a ^ (a << 25u64);
    b ^ (b >> 27u64)
}

/// The state from which value `i` is taken.
pub open spec fn state_at(i: nat) -> u64
    decreases i,
{
    if i == 0 {
        SEED
    } else {
        next_state(state_at((i - 1) as nat))
    }
}

/// Value `i` of the sequence: the product of the state and the multiplier,
/// cut to its low 32 bits.
pub open spec fn value_at(i: nat) -> i32 {
    state_at(i).wrapping_mul(MULTIPLIER) as i32
}

/// The first `len` values of the sequence. Every call returns the same values,
/// and a longer result begins with the shorter ones.
pub fn generate_unsorted(len: usize) -> (v: Vec<i32>)
    ensures
        v@.len() == len,
        forall|i: int| 0 <= i < len ==> v@[i] == value_at(i as nat),
{
    let mut v: Vec<i32> = vec![0i32; len];

    let mut x: u64 = SEED;
    for i in 0..len
        invariant
            v@.len() == len,
            x == state_at(i as nat),
            forall|j: int| 0 <= j < i ==> v@[j] == value_at(j as nat),
    {
        v[i] = #[verifier::truncate] (x.wrapping_mul(MULTIPLIER) as i32);
        x ^= x >> 12;
        x ^= x << 25;
        x ^= x >> 27;
    }

    v
}

} // verus!

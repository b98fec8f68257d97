//! Tie-break mixer: a fixed avalanche-style integer hash.
//!
//! Wherever two players compare equal on all fairness and skill criteria,
//! the engine orders them by `mix(id, seed)`. The mixer is pure and
//! deterministic for fixed inputs, so orderings are reproducible for a
//! given seed yet vary from round to round when the host supplies a fresh
//! seed. It is never used for anything security-sensitive.

use vstd::prelude::*;

verus! {

/// Mathematical definition of the mixer: the player id is folded into the
/// seed, then passed through two xor-shift / multiply avalanche passes.
pub open spec fn spec_mix(id: i64, seed: u64) -> u64 {
    let x0 = (id as u64) ^ seed;
    let x1 = (x0 ^ (x0 >> 33)).wrapping_mul(0xff51afd7ed558ccd);
    let x2 = (x1 ^ (x1 >> 33)).wrapping_mul(0xc4ceb9fe1a85ec53);
    x2 ^ (x2 >> 33)
}

/// Executable mixer; computes exactly `spec_mix(id, seed)`.
pub fn mix(id: i64, seed: u64) -> (r: u64)
    ensures
        r == spec_mix(id, seed),
{
    let x0 = (#[verifier::truncate] (id as u64)) ^ seed;
    let x1 = (x0 ^ (x0 >> 33)).wrapping_mul(0xff51afd7ed558ccd);
    let x2 = (x1 ^ (x1 >> 33)).wrapping_mul(0xc4ceb9fe1a85ec53);
    x2 ^ (x2 >> 33)
}

} // verus!

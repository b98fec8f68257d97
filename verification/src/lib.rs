//! Round pairing engine for recurring badminton sessions.
//!
//! The engine partitions a roster into courts of four players, selects a
//! fair subset of players to sit out each round, balances per-court skill
//! levels with a bounded local search, and is deterministic for a fixed
//! tie-break seed.

pub mod balance;
pub mod courts;
pub mod games;
pub mod mixer;
pub mod models;
pub mod ranking;
pub mod round;

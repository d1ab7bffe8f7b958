//! Verified logic for a small collection of simulators and games: the
//! non-numeric bookkeeping of an orbital simulator, blackjack hands and
//! decks, a slot machine's payout rules, and a sudoku puzzle generator with
//! its scoring helpers.
//!
//! Randomness comes from the `rand` crate through two trusted wrappers in
//! `rng`; everything built on top of them is verified.

pub mod cards;
pub mod orbit;
pub mod rng;
pub mod slots;
pub mod solve;
pub mod sudoku;

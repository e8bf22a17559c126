//! Reward and outcome engine of a three-reel fruit slot game.
//!
//! The engine builds quantized probability spaces over a fixed set of fruit
//! symbols, resolves spins deterministically from a seed, computes the exact
//! expected return of a rule set, and encodes rule sets as a stable binary
//! artifact.

pub mod artifact;
pub mod client;
pub mod codec;
pub mod constructor;
pub mod estimate;
pub mod fruit;
pub mod ledger;
pub mod outcome;
pub mod prob_space;
mod random;
pub mod rule_set;
pub mod wheel;

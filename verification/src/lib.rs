//! A gift-exchange assignment library: every participant is paired with a
//! receiver so that the pairing is a bijection over the participant list,
//! nobody gives to themselves, and nobody gives to their excluded partner.
//!
//! The assignment is produced by one randomized greedy pass over an
//! exclusion graph, with a swap-based repair step when the pass deadlocks.

pub mod engine;
pub mod graph;
mod random;

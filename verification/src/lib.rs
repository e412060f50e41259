//! Consensus checks for a chain of Bitcoin block headers, written as the
//! value-level transition function of a folding-style step circuit: bounded
//! comparisons, median-of-eleven verification, compact-target decoding,
//! proof-of-work and difficulty-retarget rules, and the sixteen-element
//! accumulator that carries the chain state from one block to the next.

pub mod difficulty_update;
pub mod digest;
pub mod hash_target;
pub mod header_step;
pub mod limbs;
pub mod median;
pub mod prev_block_hash;
pub mod uint256;

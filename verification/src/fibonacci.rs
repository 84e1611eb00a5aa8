//! The Fibonacci recurrence as a circuit: one row per term, each row an
//! addition gate over the two terms before it.

pub mod chip;
pub mod circuit;
pub mod config;

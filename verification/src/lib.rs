//! Exact Collatz sequence engine over arbitrary-precision positive integers.
//!
//! The crate parses a starting value given either as a plain decimal literal
//! or as a `base^exponent-subtract` expression, generates the Collatz
//! sequence down to 1, and derives summary statistics (parity counts,
//! sequence length, maximum value and its first position) from the sequence
//! as persisted one decimal line at a time.

pub mod big;
pub mod decimal;
pub mod parse;
pub mod sequence;
pub mod stats;

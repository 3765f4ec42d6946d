//! A small parser-combinator algebra over byte slices.
//!
//! Every parser reports whether it consumed input, so that alternation
//! can tell when backtracking is still safe.

pub mod structs;
pub mod predicates;
pub mod parsers;
pub mod operators;

//! A compile-time list-sorting transform.
//!
//! The host toolchain hands the transform the token sequence standing between
//! the delimiters of one call site.  The transform parses it as a
//! comma-separated argument list, checks that every argument is a string
//! literal, stable-sorts the arguments by the literal's value (byte-wise),
//! and returns an array-literal node holding the original expressions in the
//! new order - or a failure signal after reporting a diagnostic for every
//! offence found.
//!
//! Expressions are opaque to the transform: an argument is carried as the
//! index it had in the token sequence, and only reordered, never rebuilt.

pub mod ast;
pub mod expand;
pub mod order;
pub mod parse;
pub mod sorter;

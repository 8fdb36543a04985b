//! Word-level read-modify-write primitives.
//!
//! Every primitive takes an exclusive reference to the word it works on, so
//! nothing can come between its read and its write.

pub mod polyfill;
pub mod x86;

//! Lexers for the languages that the toolkit reads.

pub mod felis;

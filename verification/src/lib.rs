//! A small front-end toolkit: identifier tables, a token cursor with a
//! backtracking parser kernel, a lexer, and an equality-based type annotator.

pub mod lang;
pub mod syntax;
pub mod table;
pub mod types_and_values;

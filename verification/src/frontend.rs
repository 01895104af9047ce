//! From source text to syntax trees.

pub mod lexer;
pub mod parser;

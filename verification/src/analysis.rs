//! From syntax trees to checked, lowered programs.

pub mod irgen;
pub mod resolver;

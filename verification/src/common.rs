//! Data shared by every stage: text helpers, tokens, syntax trees, diagnostics.

pub mod ast;
pub mod error;
pub mod text;
pub mod token;
pub mod views;

//! Front end of the Chao scripting language: scanning, parsing, resolution and
//! lowering to a three-address intermediate representation.
//!
//! The four stages run one after the other, each on the whole output of the
//! one before it:
//!
//! - [`lex`] turns source lines into tokens,
//! - [`parse`] turns tokens into statements,
//! - [`resolve`] binds names and checks types,
//! - [`lower`] turns resolved statements into instructions.
//!
//! No stage stops at the first fault: each reads all of its input and hands
//! out every diagnostic it has raised.

pub mod analysis;
pub mod common;
pub mod frontend;

pub use crate::analysis::irgen::lower;
pub use crate::analysis::resolver::resolve;
pub use crate::common::text::src_by_lines;
pub use crate::frontend::lexer::lex;
pub use crate::frontend::parser::parse;

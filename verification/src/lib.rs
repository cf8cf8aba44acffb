//! Front end of a small command language: source text is scanned into tokens,
//! grouped by bracket nesting into a token tree, and parsed into commands of
//! atoms.

pub mod eval;
pub mod lexer;
pub mod parser;
pub mod string;
pub mod text;
pub mod tree;

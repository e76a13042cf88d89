//! A lexical scanner and a recursive-descent expression parser for a small
//! C-like expression language: literals, unary and binary operators,
//! parenthesized grouping, and a fixed set of reserved words.
//!
//! The pipeline has two stages. [`lexer::tokenize_code`] turns raw source
//! text into an ordered token sequence ending in an EOF token, together with
//! a status code and the lexical diagnostics gathered along the way.
//! [`parser::parse`] turns that token sequence into a single expression tree,
//! or a structured parse error.

pub mod domain;
pub mod lexer;
pub mod parser;

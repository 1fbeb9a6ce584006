//! A lexer and parser for a small Lisp-like language of S-expressions:
//! parenthesized lists whose leaves are symbols and string literals.
//!
//! The pipeline has two stages. [`lexer::tokenize`] scans the source text
//! once, left to right, and emits a flat sequence of tokens, each carrying
//! the line and column where it begins. [`parser::parse_expression`] then
//! rebuilds the nested list structure from a range of that sequence,
//! reporting structural errors (stray or missing delimiters, several bare
//! atoms in one range) as [`ast::ParseError`] values.
//! [`parser::parse_top_level`] instead splits the whole sequence into
//! independent top-level forms and parses each on its own.

pub mod ast;
pub mod lexer;
pub mod parser;
pub mod laws;

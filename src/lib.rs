//! Lexer and token-level parsing primitives for a small pipeline query language.
pub mod parser;
pub mod tokens;

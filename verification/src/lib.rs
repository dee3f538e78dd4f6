//! Core of a small scripting language: a scanner that turns source text into
//! tokens, a recursive-descent parser that builds an abstract syntax tree with
//! explicit operator precedence, and a tree-walking evaluator over a chain of
//! lexical scopes.
//!
//! Numeric payloads are carried as opaque 64-bit words; the arithmetic that
//! interprets them is supplied by the caller of the evaluator, so the whole
//! core stays within verified integer code.

pub mod frontend;
pub mod runtime;
mod text;

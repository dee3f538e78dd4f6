//! The source-facing half of the interpreter: lexical scanning, the abstract
//! syntax tree, and the recursive-descent parser.

pub mod ast;
pub mod lexer;
pub mod parser;

//! The evaluation half of the interpreter: runtime values, chained lexical
//! environments, and the tree-walking evaluator.

pub mod environment;
pub mod interpreter;
pub mod values;

//! Runtime values and the errors an evaluation can raise.

use vstd::prelude::*;

verus! {

/// A value produced by evaluation.
///
/// The payload of `Number` is an opaque 64-bit word. The core never interprets
/// it: the arithmetic handed to the evaluator decides what the word denotes
/// (for instance the bits of an IEEE-754 double, or a plain unsigned integer).
#[derive(Clone, Copy, Debug, PartialEq, Eq, Structural)]
pub enum RuntimeValue {
    Number(u64),
    Boolean(bool),
    Null,
}

/// Why an evaluation stopped: the mathematical form, over sequences of
/// characters, that contracts speak of.
pub enum RuntimeErrorView {
    /// The name was already bound in the innermost scope.
    AlreadyDeclared(Seq<char>),
    /// The name was bound as a constant and may not be reassigned.
    AssignedToConstant(Seq<char>),
    /// No scope in the chain binds the name.
    UndeclaredVariable(Seq<char>),
    /// A binary operator was applied to operands that are not both numbers.
    NonNumericOperands,
}

/// Why an evaluation stopped. Each variant that concerns a variable carries
/// the offending name.
#[derive(Debug)]
pub enum RuntimeError {
    AlreadyDeclared(String),
    AssignedToConstant(String),
    UndeclaredVariable(String),
    NonNumericOperands,
}

impl View for RuntimeError {
    type V = RuntimeErrorView;

    open spec fn view(&self) -> RuntimeErrorView {
        match self {
            RuntimeError::AlreadyDeclared(name) => RuntimeErrorView::AlreadyDeclared(name@),
            RuntimeError::AssignedToConstant(name) => RuntimeErrorView::AssignedToConstant(name@),
            RuntimeError::UndeclaredVariable(name) => RuntimeErrorView::UndeclaredVariable(name@),
            RuntimeError::NonNumericOperands => RuntimeErrorView::NonNumericOperands,
        }
    }
}

} // verus!

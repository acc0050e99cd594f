//! The ways in which an expression can fail to compile.

use vstd::prelude::*;

verus! {

/// Why an expression could not be turned into an automaton.
#[derive(PartialEq, Eq, Structural, Clone, Copy, Debug)]
pub enum CompileError {
    /// An infix expression is empty, or an operator in it has nothing to
    /// apply to, or an alternative in it ends without an operand.
    MalformedExpression,
    /// In a postfix expression, the given operator comes when too few
    /// operands have come before it.
    InsufficientOperands(char),
    /// A postfix expression leaves no fragment, or more than one.
    EmptyOrAmbiguousResult,
}

} // verus!

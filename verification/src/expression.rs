//! Regular expressions as trees, and the strings that they match.

use vstd::prelude::*;
use crate::parse::spec_is_op;

verus! {

/// A regular expression.
pub enum Expression {
    /// One symbol.
    Symbol(char),
    /// The first, then the second.
    Concatenation(Box<Expression>, Box<Expression>),
    /// The first or the second.
    Alternation(Box<Expression>, Box<Expression>),
    /// The expression, or nothing.
    Optional(Box<Expression>),
    /// The expression any number of times.
    Star(Box<Expression>),
    /// The expression once or more.
    Plus(Box<Expression>),
}

impl Expression {
    /// The expression matches `input`.
    pub open spec fn matches(self, input: Seq<char>) -> bool
        decreases self,
    {
        match self {
            Expression::Symbol(c) => input == seq![c],
            Expression::Concatenation(a, b) => exists|i: int|
                0 <= i <= input.len() && a.matches(#[trigger] input.take(i)) && b.matches(
                    input.skip(i),
                ),
            Expression::Alternation(a, b) => a.matches(input) || b.matches(input),
            Expression::Optional(a) => input.len() == 0 || a.matches(input),
            Expression::Star(a) => exists|pieces: Seq<Seq<char>>|
                #[trigger] pieces.flatten() == input && forall|j: int|
                    0 <= j < pieces.len() ==> a.matches(#[trigger] pieces[j]),
            Expression::Plus(a) => exists|pieces: Seq<Seq<char>>|
                pieces.len() >= 1 && #[trigger] pieces.flatten() == input && forall|j: int|
                    0 <= j < pieces.len() ==> a.matches(#[trigger] pieces[j]),
        }
    }
}

/// The stack of expressions after the token `c`, when `stack` was the stack
/// before it, or `None` where `c` is an operator and the stack holds too
/// few operands for it.
pub open spec fn parse_token(stack: Seq<Expression>, c: char) -> Option<Seq<Expression>> {
    let n = stack.len() as int;
    if !spec_is_op(c) {
        Some(stack.push(Expression::Symbol(c)))
    } else if c == '.' || c == '|' {
        if n < 2 {
            None
        } else {
            let left = Box::new(stack[n - 2]);
            let right = Box::new(stack[n - 1]);
            let combined = if c == '.' {
                Expression::Concatenation(left, right)
            } else {
                Expression::Alternation(left, right)
            };
            Some(stack.take(n - 2).push(combined))
        }
    } else {
        if n < 1 {
            None
        } else {
            let operand = Box::new(stack[n - 1]);
            let combined = if c == '?' {
                Expression::Optional(operand)
            } else if c == '*' {
                Expression::Star(operand)
            } else {
                Expression::Plus(operand)
            };
            Some(stack.take(n - 1).push(combined))
        }
    }
}

/// The stack of expressions after the tokens of a postfix expression, or
/// `None` where an operator finds too few operands.
pub open spec fn expressions(postfix: Seq<char>) -> Option<Seq<Expression>>
    decreases postfix.len(),
{
    if postfix.len() == 0 {
        Some(Seq::empty())
    } else {
        match expressions(postfix.drop_last()) {
            Some(stack) => parse_token(stack, postfix.last()),
            None => None,
        }
    }
}

/// The expression that a postfix expression stands for: the one that its
/// tokens leave on the stack, if they leave exactly one.
pub open spec fn expression(postfix: Seq<char>) -> Option<Expression> {
    match expressions(postfix) {
        Some(stack) => if stack.len() == 1 {
            Some(stack[0])
        } else {
            None
        },
        None => None,
    }
}

} // verus!

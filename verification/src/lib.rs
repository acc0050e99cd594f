//! A small regular-expression engine: expressions are compiled into
//! nondeterministic finite automata by Thompson's construction and matched
//! by simulating the automaton on the input.
//!
//! An expression is made of symbols, of the postfix operators `?`, `*` and
//! `+`, of concatenation and of alternation, written `|`. [`parse`] turns
//! such an expression into postfix form. [`nfa`] compiles the postfix form
//! with a stack of fragments, which [`partial_nfa`] builds and combines, and
//! runs the finished automaton on an input, one set of active states after
//! the other. [`state_set`] and [`table`] hold the sets and the transition
//! tables.
//!
//! Every function says in its contract what it computes, over the
//! mathematical forms of the values: [`fragment`] has those of the
//! fragments, [`nfa`] that of the automaton. [`walk`], [`construction`] and
//! [`acceptance`] show what the fragments and the automaton accept, and
//! [`correctness`] that the automaton of an expression accepts the inputs
//! that the expression, as [`expression`] reads it, matches, and no others.
//! [`language`] says so of the simplest expressions.

pub mod acceptance;
pub mod construction;
pub mod correctness;
pub mod error;
pub mod expression;
pub mod fragment;
pub mod language;
pub mod nfa;
pub mod parse;
pub mod partial_nfa;
pub mod state_set;
pub mod table;
pub mod walk;

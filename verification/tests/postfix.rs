use pegrex::error::CompileError;
use pegrex::parse::{is_op, re2post};

fn post(infix: &str) -> Result<String, CompileError> {
    re2post(&infix.to_string())
}

#[test]
fn the_five_operators() {
    for c in ['.', '|', '?', '*', '+'] {
        assert!(is_op(c));
    }
    for c in ['a', 'Z', '0', ' ', '(', ')', '-', '\\', 'é'] {
        assert!(!is_op(c));
    }
}

#[test]
fn a_single_symbol_is_its_own_postfix_form() {
    assert_eq!(post("a"), Ok("a".to_string()));
}

#[test]
fn side_by_side_becomes_concatenation() {
    assert_eq!(post("ab"), Ok("ab.".to_string()));
    assert_eq!(post("abc"), Ok("ab.c.".to_string()));
    assert_eq!(post("abcd"), Ok("ab.c.d.".to_string()));
}

#[test]
fn alternation_comes_after_both_sides() {
    assert_eq!(post("a|b"), Ok("ab|".to_string()));
    assert_eq!(post("a|b|c"), Ok("ab|c|".to_string()));
    assert_eq!(post("ab|cd"), Ok("ab.cd.|".to_string()));
}

#[test]
fn postfix_operators_stay_with_their_operand() {
    assert_eq!(post("a?"), Ok("a?".to_string()));
    assert_eq!(post("a*"), Ok("a*".to_string()));
    assert_eq!(post("a+"), Ok("a+".to_string()));
    assert_eq!(post("ab*"), Ok("ab*.".to_string()));
    assert_eq!(post("a*b"), Ok("a*b.".to_string()));
    assert_eq!(post("a+?"), Ok("a+?".to_string()));
    assert_eq!(post("a."), Ok("a.".to_string()));
}

#[test]
fn the_composite_expression() {
    assert_eq!(post("abc|d?e"), Ok("ab.c.d?e.|".to_string()));
}

#[test]
fn a_postfix_operator_after_a_bar_applies_to_what_is_written() {
    assert_eq!(post("a|*b"), Ok("a*b|".to_string()));
    assert_eq!(post("ab|?c"), Ok("ab.?c|".to_string()));
}

#[test]
fn symbols_beyond_ascii() {
    assert_eq!(post("éü"), Ok("éü.".to_string()));
}

#[test]
fn an_operator_with_nothing_before_it_is_malformed() {
    assert_eq!(post("*"), Err(CompileError::MalformedExpression));
    assert_eq!(post("?a"), Err(CompileError::MalformedExpression));
    assert_eq!(post("+"), Err(CompileError::MalformedExpression));
    assert_eq!(post(".a"), Err(CompileError::MalformedExpression));
    assert_eq!(post("|"), Err(CompileError::MalformedExpression));
    assert_eq!(post("|a"), Err(CompileError::MalformedExpression));
    assert_eq!(post("|*"), Err(CompileError::MalformedExpression));
}

#[test]
fn an_alternative_without_an_operand_is_malformed() {
    assert_eq!(post("a|"), Err(CompileError::MalformedExpression));
    assert_eq!(post("a||b"), Err(CompileError::MalformedExpression));
    assert_eq!(post("a|*"), Err(CompileError::MalformedExpression));
    assert_eq!(post("a|*|b"), Err(CompileError::MalformedExpression));
}

#[test]
fn the_empty_expression_is_malformed() {
    assert_eq!(post(""), Err(CompileError::MalformedExpression));
}

use pegrex::error::CompileError;
use pegrex::nfa::{NFAStates, TransitionTable, NFA};
use pegrex::parse::re2post;
use pegrex::partial_nfa::PNFA;

fn automaton(infix: &str) -> NFA {
    let post = re2post(&infix.to_string()).unwrap();
    NFA::compile(post).unwrap()
}

fn run(nfa: &mut NFA, input: &str) -> bool {
    nfa.run_string(&input.to_string())
}

fn failure(postfix: &str) -> CompileError {
    match NFA::compile(postfix.to_string()) {
        Ok(_) => panic!("{:?} compiled", postfix),
        Err(e) => e,
    }
}

fn states(members: &[usize]) -> NFAStates {
    let mut set = NFAStates::new();
    for &s in members {
        set.insert(s);
    }
    set
}

#[test]
fn single_symbol_accepts_itself_only() {
    for c in ['a', 'z', '0', ' ', 'é'] {
        let mut n = automaton(&c.to_string());
        assert!(run(&mut n, &c.to_string()));
        assert!(!run(&mut n, ""));
        assert!(!run(&mut n, &format!("{}{}", c, c)));
        assert!(!run(&mut n, &format!("{}x", c)));
        assert!(!run(&mut n, &format!("x{}", c)));
        assert!(!run(&mut n, "x"));
        assert!(!run(&mut n, "xyz"));
    }
}

#[test]
fn concatenation() {
    let mut n = automaton("ab");
    assert!(run(&mut n, "ab"));
    assert!(!run(&mut n, "a"));
    assert!(!run(&mut n, "b"));
    assert!(!run(&mut n, "ba"));
    assert!(!run(&mut n, ""));
    assert!(!run(&mut n, "abb"));
    assert!(!run(&mut n, "aab"));
}

#[test]
fn alternation() {
    let mut n = automaton("a|b");
    assert!(run(&mut n, "a"));
    assert!(run(&mut n, "b"));
    assert!(!run(&mut n, "c"));
    assert!(!run(&mut n, ""));
    assert!(!run(&mut n, "ab"));
}

#[test]
fn optional() {
    let mut n = automaton("a?");
    assert!(run(&mut n, ""));
    assert!(run(&mut n, "a"));
    assert!(!run(&mut n, "aa"));
    assert!(!run(&mut n, "b"));
}

#[test]
fn star() {
    let mut n = automaton("a*");
    let mut input = String::new();
    for _ in 0..20 {
        assert!(run(&mut n, &input));
        input.push('a');
    }
    assert!(!run(&mut n, "b"));
    assert!(!run(&mut n, "ab"));
    assert!(!run(&mut n, "ba"));
    assert!(!run(&mut n, "aaba"));
}

#[test]
fn plus() {
    let mut n = automaton("a+");
    assert!(!run(&mut n, ""));
    let mut input = String::new();
    for _ in 0..20 {
        input.push('a');
        assert!(run(&mut n, &input));
    }
    assert!(!run(&mut n, "b"));
    assert!(!run(&mut n, "ab"));
    assert!(!run(&mut n, "ba"));
}

#[test]
fn a_bare_operator_has_insufficient_operands() {
    assert_eq!(failure("|"), CompileError::InsufficientOperands('|'));
}

#[test]
fn composite_expression() {
    let mut n = automaton("abc|d?e");
    assert!(run(&mut n, "abc"));
    assert!(run(&mut n, "de"));
    assert!(run(&mut n, "e"));
    assert!(!run(&mut n, "ab"));
    assert!(!run(&mut n, "abcd"));
    assert!(!run(&mut n, "d"));
    assert!(!run(&mut n, ""));
    assert!(!run(&mut n, "abce"));
    assert!(!run(&mut n, "dde"));
    assert!(!run(&mut n, "abcde"));
}

#[test]
fn every_operator_needs_its_operands() {
    assert_eq!(failure("."), CompileError::InsufficientOperands('.'));
    assert_eq!(failure("a."), CompileError::InsufficientOperands('.'));
    assert_eq!(failure("a|"), CompileError::InsufficientOperands('|'));
    assert_eq!(failure("?"), CompileError::InsufficientOperands('?'));
    assert_eq!(failure("*"), CompileError::InsufficientOperands('*'));
    assert_eq!(failure("+"), CompileError::InsufficientOperands('+'));
    assert_eq!(failure("ab.."), CompileError::InsufficientOperands('.'));
}

#[test]
fn the_first_failing_operator_is_reported() {
    assert_eq!(failure("a*|b+"), CompileError::InsufficientOperands('|'));
    assert_eq!(failure("?|"), CompileError::InsufficientOperands('?'));
    assert_eq!(failure("ab.c..*"), CompileError::InsufficientOperands('.'));
}

#[test]
fn no_fragment_or_several_is_an_error() {
    assert_eq!(failure(""), CompileError::EmptyOrAmbiguousResult);
    assert_eq!(failure("ab"), CompileError::EmptyOrAmbiguousResult);
    assert_eq!(failure("ab.c"), CompileError::EmptyOrAmbiguousResult);
    assert_eq!(failure("a*b"), CompileError::EmptyOrAmbiguousResult);
}

#[test]
fn a_malformed_infix_expression_does_not_reach_the_compiler() {
    assert_eq!(re2post(&"*a".to_string()), Err(CompileError::MalformedExpression));
}

#[test]
fn operand_order_matters() {
    // "ab." is a then b
    let mut n = NFA::compile("ab.".to_string()).unwrap();
    assert!(run(&mut n, "ab"));
    assert!(!run(&mut n, "ba"));
}

#[test]
fn closure_follows_chains_of_unlabeled_transitions() {
    // ((a?)?)?b needs several unlabeled steps before `b`
    let mut n = NFA::compile("a???b.".to_string()).unwrap();
    assert!(run(&mut n, "b"));
    assert!(run(&mut n, "ab"));
    assert!(!run(&mut n, "aab"));
    assert!(!run(&mut n, "a"));
    // (a*)* loops through unlabeled transitions
    let mut n = NFA::compile("a**".to_string()).unwrap();
    assert!(run(&mut n, ""));
    assert!(run(&mut n, "aaa"));
    assert!(!run(&mut n, "ab"));
}

#[test]
fn a_symbol_retires_the_states_before_it() {
    // after one `a` of "ab", a second `a` must not be taken from the start
    let mut n = automaton("ab");
    assert!(!run(&mut n, "aab"));
    let mut n = automaton("a?b");
    assert!(!run(&mut n, "bb"));
    assert!(!run(&mut n, "ba"));
}

#[test]
fn repeated_and_mixed_expressions() {
    let mut n = automaton("ab*c+|d");
    assert!(run(&mut n, "ac"));
    assert!(run(&mut n, "abbbccc"));
    assert!(run(&mut n, "d"));
    assert!(!run(&mut n, "a"));
    assert!(!run(&mut n, "abd"));
    assert!(!run(&mut n, "dd"));
    assert!(!run(&mut n, ""));
}

#[test]
fn a_postfix_operator_after_a_bar_repeats_the_left_side() {
    // "a|*b" is written "a*b|"
    let mut n = automaton("a|*b");
    assert!(run(&mut n, ""));
    assert!(run(&mut n, "aaa"));
    assert!(run(&mut n, "b"));
    assert!(!run(&mut n, "ab"));
}

#[test]
fn the_automaton_can_be_run_again() {
    let mut n = automaton("a+b");
    assert!(run(&mut n, "aab"));
    assert!(!run(&mut n, "b"));
    assert!(run(&mut n, "ab"));
    assert!(run(&mut n, "aab"));
}

#[test]
fn from_partial_makes_one_accepting_state() {
    let pnfa = PNFA::concatenate(PNFA::single_symbol('a'), PNFA::single_symbol('b'));
    let mut n = NFA::from_partial(pnfa);
    assert!(run(&mut n, "ab"));
    assert!(!run(&mut n, "a"));
    assert!(!n.is_accepted());
}

#[test]
fn stepping_by_hand() {
    // 0 --> 1 --> 2 without a symbol, 2 -x-> 3, 3 accepts
    let mut table: TransitionTable = TransitionTable::new();
    table.insert((0, None), states(&[1]));
    table.insert((1, None), states(&[2]));
    table.insert((2, Some('x')), states(&[3]));
    let mut n = NFA::new(table, 0, states(&[3]));
    assert!(!n.is_accepted());
    n.take_unlabeled();
    assert!(!n.is_accepted());
    n.transition('x');
    assert!(n.is_accepted());
    n.transition('x');
    assert!(!n.is_accepted());
    n.reset();
    n.transition('y');
    assert!(!n.is_accepted());
    n.transition('x');
    assert!(!n.is_accepted());
    assert!(run(&mut n, "x"));
    assert!(!run(&mut n, "xx"));
    assert!(!run(&mut n, ""));
}

#[test]
fn the_empty_input_needs_an_unlabeled_way_to_acceptance() {
    let mut table: TransitionTable = TransitionTable::new();
    table.insert((0, None), states(&[1]));
    table.insert((1, None), states(&[2, 0]));
    let mut n = NFA::new(table, 0, states(&[2]));
    assert!(run(&mut n, ""));
    assert!(!run(&mut n, "a"));
    let mut n = NFA::new(TransitionTable::new(), 0, states(&[0]));
    assert!(run(&mut n, ""));
    let mut n = NFA::new(TransitionTable::new(), 0, states(&[1]));
    assert!(!run(&mut n, ""));
}

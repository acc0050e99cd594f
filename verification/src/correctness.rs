//! The automaton of a postfix expression accepts the inputs that the
//! expression matches, and no others.

use vstd::prelude::*;
use crate::construction::lemma_single_symbol_accepts;
use crate::expression::{expression, expressions, parse_token, Expression};
use crate::nfa::{apply_token, compiled, fragments, lemma_total_states_push, total_states};
use crate::parse::{postfix, reading, spec_is_op, Reading};
use crate::fragment::Fragment;

verus! {

/// The fragment accepts what the expression matches, and nothing else.
pub open spec fn same_language(f: Fragment, e: Expression) -> bool {
    forall|input: Seq<char>| #[trigger] f.accepts(input) <==> e.matches(input)
}

/// The fragment for a symbol accepts what the symbol, as an expression,
/// matches.
pub proof fn lemma_symbol_same(c: char)
    ensures
        same_language(Fragment::single_symbol(c), Expression::Symbol(c)),
{
    assert forall|input: Seq<char>| #[trigger]
        Fragment::single_symbol(c).accepts(input) <==> Expression::Symbol(c).matches(input) by {
        lemma_single_symbol_accepts(c, input);
    }
}

/// Concatenation of fragments is concatenation of what they accept.
pub proof fn lemma_concatenation_same(f1: Fragment, f2: Fragment, e1: Expression, e2: Expression)
    requires
        f1.wf(),
        f2.wf(),
        f1.num_states + f2.num_states <= usize::MAX,
        same_language(f1, e1),
        same_language(f2, e2),
    ensures
        same_language(
            f1.concatenate(f2),
            Expression::Concatenation(Box::new(e1), Box::new(e2)),
        ),
{
    let f = f1.concatenate(f2);
    let e = Expression::Concatenation(Box::new(e1), Box::new(e2));
    assert forall|input: Seq<char>| #[trigger] f.accepts(input) <==> e.matches(input) by {
        f1.lemma_concatenate_accepts(f2, input);
        if f.accepts(input) {
            let i = choose|i: int|
                0 <= i <= input.len() && f1.accepts(#[trigger] input.take(i)) && f2.accepts(
                    input.skip(i),
                );
            assert(e1.matches(input.take(i)) && e2.matches(input.skip(i)));
        }
        if e.matches(input) {
            let i = choose|i: int|
                0 <= i <= input.len() && e1.matches(#[trigger] input.take(i)) && e2.matches(
                    input.skip(i),
                );
            assert(f1.accepts(input.take(i)) && f2.accepts(input.skip(i)));
        }
    }
}

/// Alternation of fragments is alternation of what they accept.
pub proof fn lemma_alternation_same(f1: Fragment, f2: Fragment, e1: Expression, e2: Expression)
    requires
        f1.wf(),
        f2.wf(),
        1 + f1.num_states + f2.num_states <= usize::MAX,
        same_language(f1, e1),
        same_language(f2, e2),
    ensures
        same_language(f1.alternate(f2), Expression::Alternation(Box::new(e1), Box::new(e2))),
{
    let f = f1.alternate(f2);
    let e = Expression::Alternation(Box::new(e1), Box::new(e2));
    assert forall|input: Seq<char>| #[trigger] f.accepts(input) <==> e.matches(input) by {
        f1.lemma_alternate_accepts(f2, input);
        assert(f1.accepts(input) <==> e1.matches(input));
        assert(f2.accepts(input) <==> e2.matches(input));
    }
}

/// A fragment made optional accepts what the optional expression matches.
pub proof fn lemma_optional_same(f: Fragment, e: Expression)
    requires
        f.wf(),
        1 + f.num_states <= usize::MAX,
        same_language(f, e),
    ensures
        same_language(f.optional(), Expression::Optional(Box::new(e))),
{
    assert forall|input: Seq<char>| #[trigger]
        f.optional().accepts(input) <==> Expression::Optional(Box::new(e)).matches(input) by {
        f.lemma_optional_accepts(input);
        assert(f.accepts(input) <==> e.matches(input));
    }
}

/// Every piece is accepted by the fragment.
pub open spec fn all_accepted(f: Fragment, pieces: Seq<Seq<char>>) -> bool {
    forall|j: int| 0 <= j < pieces.len() ==> f.accepts(#[trigger] pieces[j])
}

/// Every piece is matched by the expression.
pub open spec fn all_matched(e: Expression, pieces: Seq<Seq<char>>) -> bool {
    forall|j: int| 0 <= j < pieces.len() ==> e.matches(#[trigger] pieces[j])
}

proof fn lemma_pieces_same(f: Fragment, e: Expression, pieces: Seq<Seq<char>>)
    requires
        same_language(f, e),
    ensures
        all_accepted(f, pieces) <==> all_matched(e, pieces),
{
    if all_accepted(f, pieces) {
        assert forall|j: int| 0 <= j < pieces.len() implies e.matches(#[trigger] pieces[j]) by {
            assert(f.accepts(pieces[j]));
        }
    }
    if all_matched(e, pieces) {
        assert forall|j: int| 0 <= j < pieces.len() implies f.accepts(#[trigger] pieces[j]) by {
            assert(f.accepts(pieces[j]) <==> e.matches(pieces[j]));
        }
    }
}

/// A fragment repeated any number of times accepts what the starred
/// expression matches.
pub proof fn lemma_star_same(f: Fragment, e: Expression)
    requires
        f.wf(),
        1 + f.num_states <= usize::MAX,
        same_language(f, e),
    ensures
        same_language(f.star(), Expression::Star(Box::new(e))),
{
    let starred = Expression::Star(Box::new(e));
    assert forall|input: Seq<char>| #[trigger] f.star().accepts(input) <==> starred.matches(
        input,
    ) by {
        f.lemma_star_accepts(input);
        if f.star().accepts(input) {
            let pieces = choose|pieces: Seq<Seq<char>>|
                #[trigger] pieces.flatten() == input && forall|j: int|
                    0 <= j < pieces.len() ==> f.accepts(#[trigger] pieces[j]);
            lemma_pieces_same(f, e, pieces);
            assert(pieces.flatten() == input && all_matched(e, pieces));
        }
        if starred.matches(input) {
            let pieces = choose|pieces: Seq<Seq<char>>|
                #[trigger] pieces.flatten() == input && forall|j: int|
                    0 <= j < pieces.len() ==> e.matches(#[trigger] pieces[j]);
            lemma_pieces_same(f, e, pieces);
            assert(pieces.flatten() == input && all_accepted(f, pieces));
        }
    }
}

/// A fragment repeated once or more accepts what the expression with `+`
/// matches.
pub proof fn lemma_plus_same(f: Fragment, e: Expression)
    requires
        f.wf(),
        1 + f.num_states <= usize::MAX,
        same_language(f, e),
    ensures
        same_language(f.plus(), Expression::Plus(Box::new(e))),
{
    let repeated = Expression::Plus(Box::new(e));
    assert forall|input: Seq<char>| #[trigger] f.plus().accepts(input) <==> repeated.matches(
        input,
    ) by {
        f.lemma_plus_accepts(input);
        if f.plus().accepts(input) {
            let pieces = choose|pieces: Seq<Seq<char>>|
                pieces.len() >= 1 && #[trigger] pieces.flatten() == input && forall|j: int|
                    0 <= j < pieces.len() ==> f.accepts(#[trigger] pieces[j]);
            lemma_pieces_same(f, e, pieces);
            assert(pieces.len() >= 1 && pieces.flatten() == input && all_matched(e, pieces));
        }
        if repeated.matches(input) {
            let pieces = choose|pieces: Seq<Seq<char>>|
                pieces.len() >= 1 && #[trigger] pieces.flatten() == input && forall|j: int|
                    0 <= j < pieces.len() ==> e.matches(#[trigger] pieces[j]);
            lemma_pieces_same(f, e, pieces);
            assert(pieces.len() >= 1 && pieces.flatten() == input && all_accepted(f, pieces));
        }
    }
}

/// The two stacks go together: they are as high, every fragment is
/// well-formed and accepts what the expression at its place matches, and
/// the fragments have no more than `budget` states in all.
pub open spec fn stacks_agree(fs: Seq<Fragment>, es: Seq<Expression>, budget: nat) -> bool {
    &&& fs.len() == es.len()
    &&& forall|i: int| 0 <= i < fs.len() ==> (#[trigger] fs[i]).wf()
    &&& forall|i: int| 0 <= i < fs.len() ==> same_language(#[trigger] fs[i], es[i])
    &&& total_states(fs) <= budget
}

/// A token does the same to both stacks.
proof fn lemma_token_agrees(fs: Seq<Fragment>, es: Seq<Expression>, budget: nat, c: char)
    requires
        stacks_agree(fs, es, budget),
        budget + 1 <= usize::MAX,
    ensures
        apply_token(fs, c) is Ok <==> parse_token(es, c) is Some,
        apply_token(fs, c) is Ok ==> stacks_agree(
            apply_token(fs, c)->Ok_0,
            parse_token(es, c)->0,
            budget + 1,
        ),
{
    let n = fs.len() as int;
    if n >= 1 {
        lemma_total_states_push(fs.drop_last(), fs.last());
        assert(fs.drop_last().push(fs.last()) =~= fs);
        assert(fs.drop_last() =~= fs.take(n - 1));
    }
    if n >= 2 {
        lemma_total_states_push(fs.take(n - 2), fs[n - 2]);
        assert(fs.take(n - 2).push(fs[n - 2]) =~= fs.take(n - 1));
    }
    if !spec_is_op(c) {
        let f = Fragment::single_symbol(c);
        lemma_symbol_same(c);
        Fragment::lemma_single_symbol_wf(c);
        lemma_total_states_push(fs, f);
    } else if c == '.' || c == '|' {
        if n >= 2 {
            let (f1, f2) = (fs[n - 2], fs[n - 1]);
            let (e1, e2) = (es[n - 2], es[n - 1]);
            if c == '.' {
                lemma_concatenation_same(f1, f2, e1, e2);
                f1.lemma_concatenate_wf(f2);
                lemma_total_states_push(fs.take(n - 2), f1.concatenate(f2));
            } else {
                lemma_alternation_same(f1, f2, e1, e2);
                f1.lemma_alternate_wf(f2);
                lemma_total_states_push(fs.take(n - 2), f1.alternate(f2));
            }
        }
    } else {
        if n >= 1 {
            let f = fs[n - 1];
            let e = es[n - 1];
            if c == '?' {
                lemma_optional_same(f, e);
                f.lemma_optional_wf();
                lemma_total_states_push(fs.take(n - 1), f.optional());
            } else if c == '*' {
                lemma_star_same(f, e);
                f.lemma_star_wf();
                lemma_total_states_push(fs.take(n - 1), f.star());
            } else {
                lemma_plus_same(f, e);
                f.lemma_plus_wf();
                lemma_total_states_push(fs.take(n - 1), f.plus());
            }
        }
    }
}

/// The tokens of a postfix expression build a stack of fragments where
/// they build a stack of expressions, and the fragments accept what the
/// expressions match.
pub proof fn lemma_stacks_agree(postfix: Seq<char>)
    requires
        postfix.len() <= usize::MAX,
    ensures
        fragments(postfix) is Ok <==> expressions(postfix) is Some,
        fragments(postfix) is Ok ==> stacks_agree(
            fragments(postfix)->Ok_0,
            expressions(postfix)->0,
            postfix.len(),
        ),
    decreases postfix.len(),
{
    if postfix.len() > 0 {
        lemma_stacks_agree(postfix.drop_last());
        if fragments(postfix.drop_last()) is Ok {
            lemma_token_agrees(
                fragments(postfix.drop_last())->Ok_0,
                expressions(postfix.drop_last())->0,
                postfix.drop_last().len(),
                postfix.last(),
            );
        }
    }
}

/// A postfix expression compiles where it stands for an expression, and
/// its automaton then accepts the inputs that the expression matches, and
/// no others.
pub proof fn theorem_automaton_accepts_what_expression_matches(
    postfix: Seq<char>,
    input: Seq<char>,
)
    requires
        postfix.len() <= usize::MAX,
    ensures
        compiled(postfix) is Ok <==> expression(postfix) is Some,
        compiled(postfix) is Ok ==> (compiled(postfix)->Ok_0.accepts(input) <==> expression(
            postfix,
        )->0.matches(input)),
{
    lemma_stacks_agree(postfix);
    if compiled(postfix) is Ok {
        let f = fragments(postfix)->Ok_0[0];
        let e = expressions(postfix)->0[0];
        assert(total_states(fragments(postfix)->Ok_0) >= f.num_states) by {
            reveal_with_fuel(total_states, 2);
        }
        f.lemma_finalize_accepts(input);
        assert(f.accepts(input) <==> e.matches(input));
    }
}

/// What a token does to the height of the stack of expressions: a symbol
/// adds one, `.` and `|` need two and take one away, and the postfix
/// operators need one and leave the height as it is.
proof fn lemma_token_height(stack: Seq<Expression>, c: char)
    ensures
        parse_token(stack, c) is Some <==> stack.len() >= (if !spec_is_op(c) {
            0nat
        } else if c == '.' || c == '|' {
            2nat
        } else {
            1nat
        }),
        parse_token(stack, c) is Some ==> parse_token(stack, c)->0.len() == stack.len() + (
        if !spec_is_op(c) {
            1int
        } else if c == '.' || c == '|' {
            -1int
        } else {
            0int
        }),
{
}

/// A token does to the height of the stack of fragments what it does to
/// the height of the stack of expressions.
proof fn lemma_same_heights(postfix: Seq<char>)
    ensures
        fragments(postfix) is Ok <==> expressions(postfix) is Some,
        fragments(postfix) is Ok ==> fragments(postfix)->Ok_0.len() == expressions(
            postfix,
        )->0.len(),
    decreases postfix.len(),
{
    if postfix.len() > 0 {
        lemma_same_heights(postfix.drop_last());
        if expressions(postfix.drop_last()) is Some {
            let fs = fragments(postfix.drop_last())->Ok_0;
            let n = fs.len() as int;
            lemma_token_height(expressions(postfix.drop_last())->0, postfix.last());
            if n >= 2 {
                assert(fs.take(n - 2).len() == n - 2);
            }
            if n >= 1 {
                assert(fs.take(n - 1).len() == n - 1);
            }
        }
    }
}

/// The expressions after one more token.
pub proof fn lemma_expressions_push(postfix: Seq<char>, c: char)
    ensures
        expressions(postfix.push(c)) == match expressions(postfix) {
            Some(stack) => parse_token(stack, c),
            None => None,
        },
{
    assert(postfix.push(c).drop_last() =~= postfix);
}

/// How high the stack of expressions is when the postfix form is written
/// as far as `r` says: one expression for the alternatives that are
/// complete, and one or two for the operands of the alternative being read.
pub open spec fn height(r: Reading) -> nat {
    (if r.alternative {
        1nat
    } else {
        0nat
    }) + if r.operands >= 2 {
        2nat
    } else {
        r.operands
    }
}

/// What is written, with the operators that end an alternative after it,
/// stands for one expression.
proof fn lemma_closing_parses(r: Reading)
    requires
        r.operands >= 1,
        expressions(r.out) is Some,
        expressions(r.out)->0.len() == height(r),
    ensures
        expressions(r.out + r.closing()) is Some,
        expressions(r.out + r.closing())->0.len() == 1,
{
    let joined = if r.operands >= 2 {
        r.out.push('.')
    } else {
        r.out
    };
    lemma_expressions_push(r.out, '.');
    lemma_token_height(expressions(r.out)->0, '.');
    lemma_expressions_push(joined, '|');
    lemma_token_height(expressions(joined)->0, '|');
    let closed = if r.alternative {
        joined.push('|')
    } else {
        joined
    };
    assert(r.out + r.closing() =~= closed);
}

/// As far as an infix expression without `.` is read, what is written of
/// its postfix form builds a stack of expressions.
proof fn lemma_reading_parses(infix: Seq<char>)
    requires
        forall|i: int| 0 <= i < infix.len() ==> infix[i] != '.',
        reading(infix) is Some,
    ensures
        expressions(reading(infix)->0.out) is Some,
        expressions(reading(infix)->0.out)->0.len() == height(reading(infix)->0),
        reading(infix)->0.out.len() > 0 ==> height(reading(infix)->0) >= 1,
    decreases infix.len(),
{
    if infix.len() > 0 {
        let earlier = infix.drop_last();
        let c = infix.last();
        assert forall|i: int| 0 <= i < earlier.len() implies earlier[i] != '.' by {
            assert(earlier[i] == infix[i]);
        }
        lemma_reading_parses(earlier);
        let r = reading(earlier)->0;
        if !spec_is_op(c) {
            let joined = if r.operands >= 2 {
                r.out.push('.')
            } else {
                r.out
            };
            lemma_expressions_push(r.out, '.');
            lemma_token_height(expressions(r.out)->0, '.');
            lemma_expressions_push(joined, c);
            lemma_token_height(expressions(joined)->0, c);
            assert(r.read(c)->0.out =~= joined.push(c));
        } else if c != '|' {
            lemma_expressions_push(r.out, c);
            lemma_token_height(expressions(r.out)->0, c);
        } else {
            lemma_closing_parses(r);
        }
    }
}

/// The postfix form of an infix expression in which `.` does not occur
/// compiles.
pub proof fn lemma_postfix_form_compiles(infix: Seq<char>)
    requires
        forall|i: int| 0 <= i < infix.len() ==> infix[i] != '.',
        postfix(infix) is Ok,
    ensures
        expression(postfix(infix)->Ok_0) is Some,
        compiled(postfix(infix)->Ok_0) is Ok,
{
    lemma_reading_parses(infix);
    lemma_closing_parses(reading(infix)->0);
    lemma_same_heights(postfix(infix)->Ok_0);
}

} // verus!

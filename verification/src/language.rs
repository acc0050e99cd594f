//! What the automata of the simplest expressions accept.

use vstd::prelude::*;
use crate::correctness::{
    lemma_expressions_push, theorem_automaton_accepts_what_expression_matches,
};
use crate::error::CompileError;
use crate::expression::{expression, expressions, parse_token, Expression};
use crate::nfa::{apply_token, compiled, fragments, Automaton};
use crate::parse::{lemma_reading_push, postfix, reading, spec_is_op, Reading};

verus! {

/// Every symbol of `input` is `c`.
pub open spec fn all_are(input: Seq<char>, c: char) -> bool {
    forall|i: int| 0 <= i < input.len() ==> input[i] == c
}

/// Pieces that each hold the symbol `c` alone make an input that holds
/// nothing but `c`, as many times as there are pieces.
proof fn lemma_pieces_of_one_symbol(c: char, pieces: Seq<Seq<char>>)
    requires
        forall|j: int| 0 <= j < pieces.len() ==> #[trigger] pieces[j] == seq![c],
    ensures
        all_are(pieces.flatten(), c),
        pieces.flatten().len() == pieces.len(),
    decreases pieces.len(),
{
    if pieces.len() > 0 {
        let more = pieces.drop_first();
        assert forall|j: int| 0 <= j < more.len() implies #[trigger] more[j] == seq![c] by {
            assert(more[j] == pieces[j + 1]);
        }
        lemma_pieces_of_one_symbol(c, more);
        assert(pieces.first() == seq![c]);
        assert forall|i: int| 0 <= i < pieces.flatten().len() implies pieces.flatten()[i]
            == c by {
            if i > 0 {
                assert(pieces.flatten()[i] == more.flatten()[i - 1]);
            }
        }
    }
}

/// An input that holds nothing but `c` is made of pieces that each hold
/// `c` alone, as many as the input is long.
proof fn lemma_one_symbol_in_pieces(c: char, input: Seq<char>) -> (pieces: Seq<Seq<char>>)
    requires
        all_are(input, c),
    ensures
        pieces.flatten() == input,
        pieces.len() == input.len(),
        forall|j: int| 0 <= j < pieces.len() ==> #[trigger] pieces[j] == seq![c],
    decreases input.len(),
{
    if input.len() == 0 {
        assert(input =~= Seq::<char>::empty());
        Seq::empty()
    } else {
        let rest = input.drop_first();
        assert forall|i: int| 0 <= i < rest.len() implies rest[i] == c by {
            assert(rest[i] == input[i + 1]);
        }
        let more = lemma_one_symbol_in_pieces(c, rest);
        let pieces = seq![seq![c]] + more;
        assert(pieces.drop_first() =~= more);
        assert(pieces.first() == seq![c]);
        assert(input[0] == c);
        assert(pieces.flatten() =~= input);
        assert forall|j: int| 0 <= j < pieces.len() implies #[trigger] pieces[j] == seq![c] by {
            if j > 0 {
                assert(pieces[j] == more[j - 1]);
            }
        }
        pieces
    }
}

/// An operator that is the first token has no operand, and the expression
/// does not compile.
pub proof fn lemma_bare_operator_fails(op: char)
    requires
        spec_is_op(op),
    ensures
        compiled(seq![op]) == Err::<Automaton, CompileError>(
            CompileError::InsufficientOperands(op),
        ),
{
    let text = seq![op];
    assert(text.drop_last() =~= Seq::<char>::empty());
    assert(fragments(text) == apply_token(Seq::empty(), op)) by {
        reveal_with_fuel(fragments, 2);
    }
}

/// The automaton of a single symbol accepts the string that holds that
/// symbol and nothing else, and no other string: not the empty string, not
/// a longer one, not one with another symbol.
pub proof fn lemma_automaton_of_symbol(c: char, input: Seq<char>)
    requires
        !spec_is_op(c),
    ensures
        postfix(seq![c]) == Ok::<Seq<char>, CompileError>(seq![c]),
        compiled(seq![c]) is Ok,
        compiled(seq![c])->Ok_0.accepts(input) <==> input == seq![c],
{
    let text = seq![c];
    assert(text.drop_last() =~= Seq::<char>::empty());
    assert(reading(text) == Reading::start().read(c)) by {
        reveal_with_fuel(reading, 2);
    }
    let r = Reading::start().read(c)->0;
    assert(r.out + r.closing() =~= text);
    assert(expressions(text) == Some(seq![Expression::Symbol(c)])) by {
        reveal_with_fuel(expressions, 2);
        assert(Seq::<Expression>::empty().push(Expression::Symbol(c)) =~= seq![
            Expression::Symbol(c),
        ]);
    }
    theorem_automaton_accepts_what_expression_matches(text, input);
}

/// The automaton of two symbols side by side accepts the string that
/// holds the first and then the second, and no other string.
pub proof fn lemma_automaton_of_concatenation(c: char, d: char, input: Seq<char>)
    requires
        !spec_is_op(c),
        !spec_is_op(d),
    ensures
        postfix(seq![c, d]) == Ok::<Seq<char>, CompileError>(seq![c, d, '.']),
        compiled(seq![c, d, '.']) is Ok,
        compiled(seq![c, d, '.'])->Ok_0.accepts(input) <==> input == seq![c, d],
{
    let infix = seq![c, d];
    assert(infix.drop_last() =~= seq![c]);
    assert(seq![c].drop_last() =~= Seq::<char>::empty());
    assert(reading(infix) == Reading::start().read(c)->0.read(d)) by {
        reveal_with_fuel(reading, 3);
    }
    let r = Reading::start().read(c)->0.read(d)->0;
    let text = seq![c, d, '.'];
    assert(r.out + r.closing() =~= text);
    let (first, second) = (Expression::Symbol(c), Expression::Symbol(d));
    let e = Expression::Concatenation(Box::new(first), Box::new(second));
    assert(expressions(text) == Some(seq![e])) by {
        assert(text.drop_last() =~= infix);
        reveal_with_fuel(expressions, 4);
        let one = Seq::<Expression>::empty().push(first);
        let two = one.push(second);
        assert(two.take(0).push(e) =~= seq![e]);
    }
    theorem_automaton_accepts_what_expression_matches(text, input);
    if input == seq![c, d] {
        assert(input.take(1) =~= seq![c]);
        assert(input.skip(1) =~= seq![d]);
        assert(first.matches(input.take(1)) && second.matches(input.skip(1)));
    }
    if e.matches(input) {
        let i = choose|i: int|
            0 <= i <= input.len() && first.matches(#[trigger] input.take(i)) && second.matches(
                input.skip(i),
            );
        assert(input =~= input.take(i) + input.skip(i));
        assert(input =~= seq![c, d]);
    }
}

/// The automaton of two symbols with `|` between them accepts the string
/// that holds the first alone and the string that holds the second alone,
/// and no other string.
pub proof fn lemma_automaton_of_alternation(c: char, d: char, input: Seq<char>)
    requires
        !spec_is_op(c),
        !spec_is_op(d),
    ensures
        postfix(seq![c, '|', d]) == Ok::<Seq<char>, CompileError>(seq![c, d, '|']),
        compiled(seq![c, d, '|']) is Ok,
        compiled(seq![c, d, '|'])->Ok_0.accepts(input) <==> input == seq![c] || input == seq![
            d,
        ],
{
    let infix = seq![c, '|', d];
    assert(infix.drop_last() =~= seq![c, '|']);
    assert(seq![c, '|'].drop_last() =~= seq![c]);
    assert(seq![c].drop_last() =~= Seq::<char>::empty());
    assert(reading(infix) == Reading::start().read(c)->0.read('|')->0.read(d)) by {
        reveal_with_fuel(reading, 4);
    }
    let r = Reading::start().read(c)->0.read('|')->0.read(d)->0;
    let text = seq![c, d, '|'];
    assert(r.out + r.closing() =~= text);
    let (first, second) = (Expression::Symbol(c), Expression::Symbol(d));
    let e = Expression::Alternation(Box::new(first), Box::new(second));
    assert(expressions(text) == Some(seq![e])) by {
        assert(text.drop_last() =~= seq![c, d]);
        assert(seq![c, d].drop_last() =~= seq![c]);
        reveal_with_fuel(expressions, 4);
        let one = Seq::<Expression>::empty().push(first);
        let two = one.push(second);
        assert(two.take(0).push(e) =~= seq![e]);
    }
    theorem_automaton_accepts_what_expression_matches(text, input);
    assert(first.matches(input) <==> input == seq![c]);
    assert(second.matches(input) <==> input == seq![d]);
}

/// The automaton of a symbol followed by `?` accepts the empty string and
/// the string that holds the symbol alone, and no other string.
pub proof fn lemma_automaton_of_optional(c: char, input: Seq<char>)
    requires
        !spec_is_op(c),
    ensures
        postfix(seq![c, '?']) == Ok::<Seq<char>, CompileError>(seq![c, '?']),
        compiled(seq![c, '?']) is Ok,
        compiled(seq![c, '?'])->Ok_0.accepts(input) <==> input.len() == 0 || input == seq![c],
{
    lemma_repeated_symbol(c, '?');
    theorem_automaton_accepts_what_expression_matches(seq![c, '?'], input);
    assert(Expression::Symbol(c).matches(input) <==> input == seq![c]);
    assert(input.len() == 0 ==> input != seq![c]);
}

/// A symbol followed by a postfix operator is its own postfix form, and
/// stands for the symbol under that operator.
proof fn lemma_repeated_symbol(c: char, op: char)
    requires
        !spec_is_op(c),
        op == '?' || op == '*' || op == '+',
    ensures
        postfix(seq![c, op]) == Ok::<Seq<char>, CompileError>(seq![c, op]),
        expression(seq![c, op]) == Some(
            if op == '?' {
                Expression::Optional(Box::new(Expression::Symbol(c)))
            } else if op == '*' {
                Expression::Star(Box::new(Expression::Symbol(c)))
            } else {
                Expression::Plus(Box::new(Expression::Symbol(c)))
            },
        ),
{
    let text = seq![c, op];
    assert(text.drop_last() =~= seq![c]);
    assert(seq![c].drop_last() =~= Seq::<char>::empty());
    assert(reading(text) == Reading::start().read(c)->0.read(op)) by {
        reveal_with_fuel(reading, 3);
    }
    let r = Reading::start().read(c)->0.read(op)->0;
    assert(r.out + r.closing() =~= text);
    let one = Seq::<Expression>::empty().push(Expression::Symbol(c));
    let e = parse_token(one, op)->0[0];
    assert(expressions(text) == Some(seq![e])) by {
        reveal_with_fuel(expressions, 3);
        assert(parse_token(one, op)->0 =~= seq![e]);
    }
}

/// The automaton of a symbol followed by `*` accepts the strings that
/// hold nothing but that symbol, any number of times, and no other string.
pub proof fn lemma_automaton_of_star(c: char, input: Seq<char>)
    requires
        !spec_is_op(c),
    ensures
        postfix(seq![c, '*']) == Ok::<Seq<char>, CompileError>(seq![c, '*']),
        compiled(seq![c, '*']) is Ok,
        compiled(seq![c, '*'])->Ok_0.accepts(input) <==> all_are(input, c),
{
    lemma_repeated_symbol(c, '*');
    theorem_automaton_accepts_what_expression_matches(seq![c, '*'], input);
    let symbol = Expression::Symbol(c);
    let e = Expression::Star(Box::new(symbol));
    if e.matches(input) {
        let pieces = choose|pieces: Seq<Seq<char>>|
            #[trigger] pieces.flatten() == input && forall|j: int|
                0 <= j < pieces.len() ==> symbol.matches(#[trigger] pieces[j]);
        assert forall|j: int| 0 <= j < pieces.len() implies #[trigger] pieces[j] == seq![c] by {
            assert(symbol.matches(pieces[j]));
        }
        lemma_pieces_of_one_symbol(c, pieces);
    }
    if all_are(input, c) {
        let pieces = lemma_one_symbol_in_pieces(c, input);
        assert forall|j: int| 0 <= j < pieces.len() implies symbol.matches(
            #[trigger] pieces[j],
        ) by {
            assert(pieces[j] == seq![c]);
        }
        assert(pieces.flatten() == input);
    }
}

/// The automaton of a symbol followed by `+` accepts the strings that
/// hold nothing but that symbol, once or more, and no other string.
pub proof fn lemma_automaton_of_plus(c: char, input: Seq<char>)
    requires
        !spec_is_op(c),
    ensures
        postfix(seq![c, '+']) == Ok::<Seq<char>, CompileError>(seq![c, '+']),
        compiled(seq![c, '+']) is Ok,
        compiled(seq![c, '+'])->Ok_0.accepts(input) <==> input.len() >= 1 && all_are(input, c),
{
    lemma_repeated_symbol(c, '+');
    theorem_automaton_accepts_what_expression_matches(seq![c, '+'], input);
    let symbol = Expression::Symbol(c);
    let e = Expression::Plus(Box::new(symbol));
    if e.matches(input) {
        let pieces = choose|pieces: Seq<Seq<char>>|
            pieces.len() >= 1 && #[trigger] pieces.flatten() == input && forall|j: int|
                0 <= j < pieces.len() ==> symbol.matches(#[trigger] pieces[j]);
        assert forall|j: int| 0 <= j < pieces.len() implies #[trigger] pieces[j] == seq![c] by {
            assert(symbol.matches(pieces[j]));
        }
        lemma_pieces_of_one_symbol(c, pieces);
    }
    if input.len() >= 1 && all_are(input, c) {
        let pieces = lemma_one_symbol_in_pieces(c, input);
        assert forall|j: int| 0 <= j < pieces.len() implies symbol.matches(
            #[trigger] pieces[j],
        ) by {
            assert(pieces[j] == seq![c]);
        }
        assert(pieces.len() >= 1 && pieces.flatten() == input);
    }
}

/// Where the first expression matches the words `u1` and `u2` only and
/// the second the word `v` only, their concatenation matches `u1` and `u2`
/// with `v` after them, and nothing else.
proof fn lemma_words_concatenated(
    e1: Expression,
    e2: Expression,
    u1: Seq<char>,
    u2: Seq<char>,
    v: Seq<char>,
    input: Seq<char>,
)
    requires
        forall|w: Seq<char>| #[trigger] e1.matches(w) <==> w == u1 || w == u2,
        forall|w: Seq<char>| #[trigger] e2.matches(w) <==> w == v,
    ensures
        Expression::Concatenation(Box::new(e1), Box::new(e2)).matches(input) <==> input == u1
            + v || input == u2 + v,
{
    let e = Expression::Concatenation(Box::new(e1), Box::new(e2));
    if e.matches(input) {
        let i = choose|i: int|
            0 <= i <= input.len() && e1.matches(#[trigger] input.take(i)) && e2.matches(
                input.skip(i),
            );
        assert(input =~= input.take(i) + input.skip(i));
    }
    if input == u1 + v || input == u2 + v {
        let u = if input == u1 + v {
            u1
        } else {
            u2
        };
        let i = u.len() as int;
        assert(input.take(i) =~= u);
        assert(input.skip(i) =~= v);
        assert(e1.matches(input.take(i)) && e2.matches(input.skip(i)));
    }
}

/// The automaton of three symbols side by side, or else a symbol that may
/// be left out and then a last symbol, as in `abc|d?e`, accepts the three
/// symbols in their order, the last symbol alone, and the last symbol
/// after the one that may be left out: three strings, and no other.
pub proof fn lemma_automaton_of_composite(
    a: char,
    b: char,
    c: char,
    d: char,
    e: char,
    input: Seq<char>,
)
    requires
        !spec_is_op(a),
        !spec_is_op(b),
        !spec_is_op(c),
        !spec_is_op(d),
        !spec_is_op(e),
    ensures
        postfix(seq![a, b, c, '|', d, '?', e]) == Ok::<Seq<char>, CompileError>(
            seq![a, b, '.', c, '.', d, '?', e, '.', '|'],
        ),
        compiled(seq![a, b, '.', c, '.', d, '?', e, '.', '|']) is Ok,
        compiled(seq![a, b, '.', c, '.', d, '?', e, '.', '|'])->Ok_0.accepts(input) <==> input
            == seq![a, b, c] || input == seq![d, e] || input == seq![e],
{
    // the postfix form
    let i0 = Seq::<char>::empty();
    let i1 = i0.push(a);
    let i2 = i1.push(b);
    let i3 = i2.push(c);
    let i4 = i3.push('|');
    let i5 = i4.push(d);
    let i6 = i5.push('?');
    let i7 = i6.push(e);
    lemma_reading_push(i0, a);
    lemma_reading_push(i1, b);
    lemma_reading_push(i2, c);
    lemma_reading_push(i3, '|');
    lemma_reading_push(i4, d);
    lemma_reading_push(i5, '?');
    lemma_reading_push(i6, e);
    let r1 = Reading::start().read(a)->0;
    let r2 = r1.read(b)->0;
    let r3 = r2.read(c)->0;
    let r4 = r3.read('|')->0;
    let r5 = r4.read(d)->0;
    let r6 = r5.read('?')->0;
    let r7 = r6.read(e)->0;
    assert(reading(i7) == Some(r7));
    let text = seq![a, b, '.', c, '.', d, '?', e, '.', '|'];
    assert(r3.out =~= seq![a, b, '.', c]);
    assert(r4.out =~= seq![a, b, '.', c, '.']);
    assert(r7.out =~= seq![a, b, '.', c, '.', d, '?', e]);
    assert(r7.out + r7.closing() =~= text);
    assert(i7 =~= seq![a, b, c, '|', d, '?', e]);
    // the expression
    let t0 = Seq::<char>::empty();
    let t1 = t0.push(a);
    let t2 = t1.push(b);
    let t3 = t2.push('.');
    let t4 = t3.push(c);
    let t5 = t4.push('.');
    let t6 = t5.push(d);
    let t7 = t6.push('?');
    let t8 = t7.push(e);
    let t9 = t8.push('.');
    let t10 = t9.push('|');
    lemma_expressions_push(t0, a);
    lemma_expressions_push(t1, b);
    lemma_expressions_push(t2, '.');
    lemma_expressions_push(t3, c);
    lemma_expressions_push(t4, '.');
    lemma_expressions_push(t5, d);
    lemma_expressions_push(t6, '?');
    lemma_expressions_push(t7, e);
    lemma_expressions_push(t8, '.');
    lemma_expressions_push(t9, '|');
    let (sa, sb, sc) = (Expression::Symbol(a), Expression::Symbol(b), Expression::Symbol(c));
    let (sd, se) = (Expression::Symbol(d), Expression::Symbol(e));
    let ab = Expression::Concatenation(Box::new(sa), Box::new(sb));
    let abc = Expression::Concatenation(Box::new(ab), Box::new(sc));
    let dq = Expression::Optional(Box::new(sd));
    let dqe = Expression::Concatenation(Box::new(dq), Box::new(se));
    let whole = Expression::Alternation(Box::new(abc), Box::new(dqe));
    assert(expressions(t2)->0 =~= seq![sa, sb]);
    assert(expressions(t3)->0 =~= seq![ab]);
    assert(expressions(t4)->0 =~= seq![ab, sc]);
    assert(expressions(t5)->0 =~= seq![abc]);
    assert(expressions(t6)->0 =~= seq![abc, sd]);
    assert(expressions(t7)->0 =~= seq![abc, dq]);
    assert(expressions(t8)->0 =~= seq![abc, dq, se]);
    assert(expressions(t9)->0 =~= seq![abc, dqe]);
    assert(expressions(t10)->0 =~= seq![whole]);
    assert(t10 =~= text);
    theorem_automaton_accepts_what_expression_matches(text, input);
    // what the expression matches
    assert forall|w: Seq<char>| #[trigger] ab.matches(w) <==> w == seq![a, b] by {
        lemma_words_concatenated(sa, sb, seq![a], seq![a], seq![b], w);
        assert(seq![a] + seq![b] =~= seq![a, b]);
    }
    lemma_words_concatenated(ab, sc, seq![a, b], seq![a, b], seq![c], input);
    assert(seq![a, b] + seq![c] =~= seq![a, b, c]);
    assert forall|w: Seq<char>| #[trigger]
        dq.matches(w) <==> w == Seq::<char>::empty() || w == seq![d] by {
        assert(sd.matches(w) <==> w == seq![d]);
        assert(w.len() == 0 <==> w =~= Seq::<char>::empty());
    }
    lemma_words_concatenated(dq, se, Seq::empty(), seq![d], seq![e], input);
    assert(Seq::<char>::empty() + seq![e] =~= seq![e]);
    assert(seq![d] + seq![e] =~= seq![d, e]);
}

} // verus!

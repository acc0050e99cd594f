//! Rewriting of infix expressions into postfix form.
//!
//! An infix expression is a string of symbols and operators. A symbol with
//! the postfix operators that follow it is an operand. Operands that stand
//! side by side are concatenated, and `|` separates alternatives; it binds
//! less than concatenation. In postfix form every operator follows its
//! operands, and concatenation is written `.`.

use vstd::prelude::*;
use vstd::string::StringExecFns;
use crate::error::CompileError;

verus! {

/// Taken on trust of the standard library: `String::push` appends the
/// character `ch` to the string, and changes nothing else of it.
pub assume_specification[ String::push ](s: &mut String, ch: char)
    ensures
        final(s)@ == old(s)@.push(ch),
;

/// The five operator characters: explicit concatenation, alternation,
/// optional, zero-or-more and one-or-more.
pub open spec fn spec_is_op(c: char) -> bool {
    c == '.' || c == '|' || c == '?' || c == '*' || c == '+'
}

/// Tells whether `c` is one of the operator characters.
#[verifier::when_used_as_spec(spec_is_op)]
pub fn is_op(c: char) -> (b: bool)
    ensures
        b == spec_is_op(c),
{
    c == '.' || c == '|' || c == '?' || c == '*' || c == '+'
}

/// What is known of an infix expression when a part of it has been read.
pub struct Reading {
    /// The postfix form as far as it is written: the symbols and postfix
    /// operators read, in their order, with `.` and `|` where the operands
    /// and alternatives that they join are complete.
    pub out: Seq<char>,
    /// The number of operands read since the last `|`.
    pub operands: nat,
    /// Whether a `|` has been read.
    pub alternative: bool,
}

impl Reading {
    /// Nothing has been read.
    pub open spec fn start() -> Reading {
        Reading { out: Seq::empty(), operands: 0, alternative: false }
    }

    /// The operators that are still to be written when the alternative
    /// being read ends: `.` if it joins its last operand to those before
    /// it, then `|` if it is not the first alternative.
    pub open spec fn closing(self) -> Seq<char> {
        (if self.operands >= 2 {
            seq!['.']
        } else {
            Seq::empty()
        }) + (if self.alternative {
            seq!['|']
        } else {
            Seq::empty()
        })
    }

    /// What is known after the next character `c`, or `None` where `c` is
    /// an operator that has nothing to apply to.
    ///
    /// A symbol begins an operand; the `.` that joins the operand before it
    /// to those before that one is written first. Every operator but `|`
    /// counts as a postfix operator, `.` too: it is written where it
    /// stands, after what has been written; at the very beginning it has
    /// nothing to apply to. `|` ends an alternative, which must hold an
    /// operand.
    pub open spec fn read(self, c: char) -> Option<Reading> {
        if !spec_is_op(c) {
            Some(
                Reading {
                    out: self.out + (if self.operands >= 2 {
                        seq!['.']
                    } else {
                        Seq::empty()
                    }) + seq![c],
                    operands: self.operands + 1,
                    alternative: self.alternative,
                },
            )
        } else if c != '|' {
            if self.out.len() == 0 {
                None
            } else {
                Some(
                    Reading {
                        out: self.out.push(c),
                        operands: self.operands,
                        alternative: self.alternative,
                    },
                )
            }
        } else {
            if self.operands == 0 {
                None
            } else {
                Some(Reading { out: self.out + self.closing(), operands: 0, alternative: true })
            }
        }
    }
}

/// What is known of `infix` when all of it has been read, or `None` where
/// one of its operators has nothing to apply to.
pub open spec fn reading(infix: Seq<char>) -> Option<Reading>
    decreases infix.len(),
{
    if infix.len() == 0 {
        Some(Reading::start())
    } else {
        match reading(infix.drop_last()) {
            Some(r) => r.read(infix.last()),
            None => None,
        }
    }
}

/// The postfix form of the infix expression `infix`. An expression in
/// which an operator has nothing to apply to, or whose last alternative
/// holds no operand, is malformed; so is the empty expression.
pub open spec fn postfix(infix: Seq<char>) -> Result<Seq<char>, CompileError> {
    match reading(infix) {
        Some(r) => if r.operands == 0 {
            Err(CompileError::MalformedExpression)
        } else {
            Ok(r.out + r.closing())
        },
        None => Err(CompileError::MalformedExpression),
    }
}

/// What is known after one more character.
pub proof fn lemma_reading_push(infix: Seq<char>, c: char)
    ensures
        reading(infix.push(c)) == match reading(infix) {
            Some(r) => r.read(c),
            None => None,
        },
{
    assert(infix.push(c).drop_last() =~= infix);
}

/// Once an operator has had nothing to apply to, the expression stays
/// malformed whatever follows.
pub proof fn lemma_malformed_stays(infix: Seq<char>, n: int)
    requires
        0 <= n <= infix.len(),
        reading(infix.take(n)) is None,
    ensures
        reading(infix) is None,
    decreases infix.len(),
{
    if n < infix.len() {
        assert(infix.drop_last().take(n) =~= infix.take(n));
        lemma_malformed_stays(infix.drop_last(), n);
    } else {
        assert(infix.take(n) =~= infix);
    }
}

/// The strings of `stack`, one after the other.
pub open spec fn joined(stack: Seq<String>) -> Seq<char>
    decreases stack.len(),
{
    if stack.len() == 0 {
        Seq::empty()
    } else {
        joined(stack.drop_last()) + stack.last()@
    }
}

proof fn lemma_joined_push(stack: Seq<String>, top: String)
    ensures
        joined(stack.push(top)) == joined(stack) + top@,
{
    assert(stack.push(top).drop_last() =~= stack);
}

proof fn lemma_joined_nonempty(stack: Seq<String>)
    requires
        stack.len() > 0,
        forall|i: int| 0 <= i < stack.len() ==> (#[trigger] stack[i])@.len() > 0,
    ensures
        joined(stack).len() > 0,
{
}

proof fn lemma_same_front(a: Seq<char>, b: Seq<char>, tail: Seq<char>)
    requires
        a + tail == b + tail,
    ensures
        a == b,
{
    assert(a.len() + tail.len() == (a + tail).len());
    assert(b.len() + tail.len() == (b + tail).len());
    assert((a + tail).take(a.len() as int) =~= a);
    assert((b + tail).take(b.len() as int) =~= b);
}

proof fn lemma_reverse_last(ops: Seq<char>)
    requires
        ops.len() > 0,
    ensures
        ops.reverse() == seq![ops.last()] + ops.drop_last().reverse(),
{
    assert(ops.reverse() =~= seq![ops.last()] + ops.drop_last().reverse());
}

/// Applies the operator on top of `cstack` to the two operands on top of
/// `sstack`: they are replaced by one operand, the two in their order
/// followed by the operator.
fn apply_top(sstack: &mut Vec<String>, cstack: &mut Vec<char>)
    requires
        old(sstack)@.len() >= 2,
        old(cstack)@.len() >= 1,
    ensures
        final(cstack)@ == old(cstack)@.drop_last(),
        final(sstack)@.len() == old(sstack)@.len() - 1,
        final(sstack)@.drop_last() == old(sstack)@.take(old(sstack)@.len() - 2),
        final(sstack)@.last()@ == old(sstack)@[old(sstack)@.len() - 2]@ + old(
            sstack,
        )@.last()@ + seq![old(cstack)@.last()],
        joined(final(sstack)@) + final(cstack)@.reverse() == joined(old(sstack)@) + old(
            cstack,
        )@.reverse(),
{
    let ghost n = sstack@.len() as int;
    let pop1 = sstack.pop().unwrap();
    let mut pop2 = sstack.pop().unwrap();
    let ghost rest = sstack@;
    let ghost first = pop2;
    pop2.append(pop1.as_str());
    pop2.push(cstack.pop().unwrap());
    sstack.push(pop2);
    proof {
        assert(sstack@.drop_last() =~= old(sstack)@.take(n - 2));
        assert(rest =~= old(sstack)@.take(n - 2));
        assert(old(sstack)@ =~= rest.push(first).push(pop1));
        lemma_joined_push(rest, first);
        lemma_joined_push(rest.push(first), pop1);
        lemma_joined_push(rest, pop2);
        lemma_reverse_last(old(cstack)@);
        assert(joined(sstack@) + cstack@.reverse() =~= joined(old(sstack)@) + old(
            cstack,
        )@.reverse());
    }
}

/// Applies all the operators of `cstack`, the topmost first. One operand
/// is left: the operands in their order, followed by the operators from
/// the topmost down.
fn apply_all(sstack: &mut Vec<String>, cstack: &mut Vec<char>)
    requires
        old(sstack)@.len() == old(cstack)@.len() + 1,
    ensures
        final(cstack)@.len() == 0,
        final(sstack)@.len() == 1,
        final(sstack)@[0]@ == joined(old(sstack)@) + old(cstack)@.reverse(),
{
    while !cstack.is_empty()
        invariant
            sstack@.len() == cstack@.len() + 1,
            joined(sstack@) + cstack@.reverse() == joined(old(sstack)@) + old(
                cstack,
            )@.reverse(),
        decreases cstack@.len(),
    {
        apply_top(sstack, cstack);
    }
    proof {
        assert(cstack@.reverse() =~= Seq::<char>::empty());
        assert(sstack@.drop_last() =~= Seq::<String>::empty());
        assert(joined(sstack@) =~= sstack@[0]@) by {
            reveal_with_fuel(joined, 2);
        }
    }
}

/// The operators that wait on the operator stack when `r` is what has been
/// read: `|` below, `.` above it.
pub open spec fn waiting(r: Reading) -> Seq<char> {
    (if r.alternative {
        seq!['|']
    } else {
        Seq::empty()
    }) + (if r.operands >= 2 {
        seq!['.']
    } else {
        Seq::empty()
    })
}

/// The two stacks hold what `r` says: the operands hold, one after the
/// other, what has been written, the operators are those that wait, and
/// there is one operand more than operators while an alternative holds an
/// operand.
pub open spec fn holds(sstack: Seq<String>, cstack: Seq<char>, r: Reading) -> bool {
    &&& joined(sstack) == r.out
    &&& forall|i: int| 0 <= i < sstack.len() ==> (#[trigger] sstack[i])@.len() > 0
    &&& cstack == waiting(r)
    &&& sstack.len() == cstack.len() + if r.operands >= 1 {
        1nat
    } else {
        0nat
    }
}

/// Reads a symbol: the operators that bind more than the concatenation
/// with what came before are applied, `.` is put on the operator stack if
/// the alternative already holds an operand, and the symbol becomes a new
/// operand.
fn read_symbol(
    operand_stack: &mut Vec<String>,
    operator_stack: &mut Vec<char>,
    c: char,
    Ghost(r): Ghost<Reading>,
)
    requires
        holds(old(operand_stack)@, old(operator_stack)@, r),
        !spec_is_op(c),
    ensures
        r.read(c) is Some,
        holds(final(operand_stack)@, final(operator_stack)@, r.read(c)->0),
{
    let ghost below: Seq<char> = if r.alternative {
        seq!['|']
    } else {
        Seq::empty()
    };
    let ghost written = r.out + (if r.operands >= 2 {
        seq!['.']
    } else {
        Seq::<char>::empty()
    });
    // an operand is open: the symbol is concatenated to it
    if operand_stack.len() > operator_stack.len() {
        proof {
            assert(operator_stack@.reverse() =~= (if r.operands >= 2 {
                seq!['.']
            } else {
                Seq::<char>::empty()
            }) + below.reverse());
            assert(joined(operand_stack@) + operator_stack@.reverse() =~= written
                + below.reverse());
        }
        while operator_stack.len() > 0 && operator_stack[operator_stack.len() - 1] != '|'
            invariant
                operand_stack@.len() == operator_stack@.len() + 1,
                forall|i: int|
                    0 <= i < operand_stack@.len() ==> (#[trigger] operand_stack@[i])@.len() > 0,
                operator_stack@ == below || operator_stack@ == below.push('.'),
                below.len() <= 1,
                below.len() == 1 ==> below[0] == '|',
                joined(operand_stack@) + operator_stack@.reverse() == written + below.reverse(),
            decreases operator_stack@.len(),
        {
            let ghost before = operand_stack@;
            apply_top(operand_stack, operator_stack);
            proof {
                assert(operator_stack@ =~= below);
                assert forall|i: int| 0 <= i < operand_stack@.len() implies (
                #[trigger] operand_stack@[i])@.len() > 0 by {
                    if i < operand_stack@.len() - 1 {
                        assert(operand_stack@[i] == operand_stack@.drop_last()[i]);
                        assert(operand_stack@[i] == before[i]);
                    }
                }
            }
        }
        proof {
            assert(operator_stack@ =~= below);
            lemma_same_front(joined(operand_stack@), written, below.reverse());
        }
        operator_stack.push('.');
    }
    let mut operand = String::new();
    operand.push(c);
    proof {
        lemma_joined_push(operand_stack@, operand);
    }
    operand_stack.push(operand);
    proof {
        let next = r.read(c)->0;
        assert(operator_stack@ =~= waiting(next));
        assert(joined(operand_stack@) =~= next.out);
    }
}

/// Reads a postfix operator: it is appended to the operand on top of the
/// stack. Tells whether there was one.
fn read_postfix_operator(
    operand_stack: &mut Vec<String>,
    operator_stack: &Vec<char>,
    c: char,
    Ghost(r): Ghost<Reading>,
) -> (ok: bool)
    requires
        holds(old(operand_stack)@, operator_stack@, r),
        spec_is_op(c),
        c != '|',
    ensures
        ok == (r.read(c) is Some),
        ok ==> holds(final(operand_stack)@, operator_stack@, r.read(c)->0),
{
    let ghost before = operand_stack@;
    match operand_stack.pop() {
        Some(mut operand) => {
            proof {
                assert(operand_stack@.push(operand) =~= before);
                lemma_joined_nonempty(before);
                lemma_joined_push(operand_stack@, operand);
            }
            operand.push(c);
            proof {
                lemma_joined_push(operand_stack@, operand);
            }
            operand_stack.push(operand);
            proof {
                assert(joined(operand_stack@) =~= r.read(c)->0.out);
            }
            true
        },
        None => false,
    }
}

/// Reads `|`: the alternative that it ends becomes one operand, and `|`
/// waits on the operator stack for the next. Tells whether the alternative
/// held an operand.
fn read_alternation(
    operand_stack: &mut Vec<String>,
    operator_stack: &mut Vec<char>,
    Ghost(r): Ghost<Reading>,
) -> (ok: bool)
    requires
        holds(old(operand_stack)@, old(operator_stack)@, r),
    ensures
        ok == (r.read('|') is Some),
        ok ==> holds(final(operand_stack)@, final(operator_stack)@, r.read('|')->0),
{
    if operand_stack.len() == operator_stack.len() {
        return false;
    }
    proof {
        assert(operator_stack@.reverse() =~= r.closing());
    }
    apply_all(operand_stack, operator_stack);
    operator_stack.push('|');
    proof {
        let next = r.read('|')->0;
        assert(operator_stack@ =~= waiting(next));
        assert(operand_stack@.drop_last() =~= Seq::<String>::empty());
        assert(joined(operand_stack@) =~= next.out) by {
            reveal_with_fuel(joined, 2);
        }
    }
    true
}

/// Rewrites an infix expression, in which operands that stand side by
/// side are concatenated, into postfix form, in which `.` stands for
/// concatenation.
///
/// The postfix operators bind most, then concatenation, then `|`. An
/// expression in which an operator has nothing to apply to is malformed.
pub fn re2post(s: &String) -> (result: Result<String, CompileError>)
    ensures
        match result {
            Ok(post) => postfix(s@) == Ok::<Seq<char>, CompileError>(post@),
            Err(e) => postfix(s@) == Err::<Seq<char>, CompileError>(e),
        },
{
    let mut operator_stack: Vec<char> = Vec::new();
    let mut operand_stack: Vec<String> = Vec::new();
    let ghost mut r = Reading::start();
    for c in it: s.as_str().chars()
        invariant
            it.seq() == s@,
            reading(s@.take(it.index() as int)) == Some(r),
            holds(operand_stack@, operator_stack@, r),
    {
        proof {
            let taken = s@.take(it.index() + 1);
            assert(taken.drop_last() =~= s@.take(it.index() as int));
            assert(taken.last() == c);
            assert(reading(taken) == r.read(c));
        }
        let ok = if !is_op(c) {
            read_symbol(&mut operand_stack, &mut operator_stack, c, Ghost(r));
            true
        } else if c != '|' {
            read_postfix_operator(&mut operand_stack, &operator_stack, c, Ghost(r))
        } else {
            read_alternation(&mut operand_stack, &mut operator_stack, Ghost(r))
        };
        if !ok {
            proof {
                lemma_malformed_stays(s@, it.index() + 1);
            }
            return Err(CompileError::MalformedExpression);
        }
        proof {
            r = r.read(c)->0;
        }
    }
    assert(s@.take(s@.len() as int) =~= s@);
    if operand_stack.len() == operator_stack.len() {
        return Err(CompileError::MalformedExpression);
    }
    proof {
        assert(operator_stack@.reverse() =~= r.closing());
    }
    apply_all(&mut operand_stack, &mut operator_stack);
    Ok(operand_stack.pop().unwrap())
}

} // verus!

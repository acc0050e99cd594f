//! What the fragments that the operations build accept.
//!
//! A fragment accepts an input when a walk leads from its entry to `Exit`
//! and consumes that input. Each operation builds a fragment that accepts
//! what the operation stands for, made of what its operands accept.

use vstd::prelude::*;
use crate::fragment::{
    lemma_redirect_table, lemma_shift_table, redirect_table, shift_table, Fragment, TableModel,
};
use crate::partial_nfa::PNFATarget;
use crate::table::{Key, Label};
use crate::walk::{
    edge, is_fresh, is_part, lemma_part_walk, lemma_walk_edge, lemma_walk_first,
    lemma_walk_from_exit, lemma_walk_join, lemma_walk_leaves, lemma_walk_redirected,
    lemma_walk_shifted, lemma_walk_stays_below, lemma_walk_unredirected, lemma_walk_unshifted,
    unredirected, unshifted, walk,
};

verus! {

/// The states from `lo` up to, and without, `hi`.
pub open spec fn between(lo: nat, hi: nat) -> Set<PNFATarget> {
    Set::new(|t: PNFATarget| t matches PNFATarget::State(s) && lo <= s < hi)
}

/// Renumbering by nothing changes nothing.
pub proof fn lemma_shift_by_zero(table: TableModel)
    ensures
        shift_table(table, 0) == table,
{
    let same = shift_table(table, 0);
    assert forall|key: Key| #[trigger] same.contains_key(key) <==> table.contains_key(key) by {
        assert(((key.0 - 0) as usize, key.1) == key);
    }
    assert forall|key: Key| #[trigger] same.contains_key(key) implies same[key] == table[key] by {
        assert(((key.0 - 0) as usize, key.1) == key);
        assert forall|t: PNFATarget| same[key].contains(t) <==> table[key].contains(t) by {
            match t {
                PNFATarget::State(s) => {
                    assert((s - 0) as usize == s);
                },
                PNFATarget::Exit => {},
            }
        }
        assert(same[key] =~= table[key]);
    }
    assert(same =~= table);
}

/// The fragment for one symbol accepts that symbol, and nothing else.
pub proof fn lemma_single_symbol_accepts(c: char, input: Seq<char>)
    ensures
        Fragment::single_symbol(c).accepts(input) <==> input == seq![c],
{
    let f = Fragment::single_symbol(c);
    let entry = PNFATarget::State(0);
    if input == seq![c] {
        assert(edge(f.table, entry, Some(c), PNFATarget::Exit));
        lemma_walk_edge(f.table, entry, Some(c), PNFATarget::Exit);
    }
    if f.accepts(input) {
        let n = choose|n: nat| walk(f.table, n, entry, input, PNFATarget::Exit);
        let first = lemma_walk_first(f.table, n, entry, input, PNFATarget::Exit);
        assert(f.table.contains_key((0usize, first.0)));
        lemma_walk_from_exit(f.table, (n - 1) as nat, first.2, PNFATarget::Exit);
        assert(input =~= seq![c]);
    }
}

/// A walk of a whole that has the renumbered table of a fragment as a part,
/// from the renumbered entry to `Exit`, consumes what the fragment accepts.
proof fn lemma_through_shifted_part(
    whole: TableModel,
    f: Fragment,
    k: nat,
    n: nat,
    input: Seq<char>,
)
    requires
        f.well_numbered(),
        f.num_states + k <= usize::MAX,
        is_part(whole, shift_table(f.table, k), between(k, k + f.num_states)),
        walk(whole, n, PNFATarget::State(k as usize), input, PNFATarget::Exit),
    ensures
        f.accepts(input),
{
    let part = shift_table(f.table, k);
    let inside = between(k, k + f.num_states);
    let from = PNFATarget::State(k as usize);
    let l = lemma_walk_leaves(whole, part, inside, n, from, input, PNFATarget::Exit);
    lemma_walk_unshifted(f.table, k, l.k, from, l.first, l.at);
    lemma_walk_stays_below(
        f.table,
        f.num_states as int,
        l.k,
        PNFATarget::State(0),
        l.first,
        unshifted(l.at, k),
    );
    assert(l.at == PNFATarget::Exit);
    lemma_walk_from_exit(whole, (n - l.k) as nat, l.rest, PNFATarget::Exit);
    assert(input =~= l.first);
    assert(walk(f.table, l.k, PNFATarget::State(0), input, PNFATarget::Exit));
}

/// What a fragment accepts is consumed, in a whole that has the renumbered
/// table of the fragment as a part, by a walk from the renumbered entry to
/// `Exit`.
proof fn lemma_into_shifted_part(
    whole: TableModel,
    f: Fragment,
    k: nat,
    input: Seq<char>,
) -> (n: nat)
    requires
        f.well_numbered(),
        f.num_states + k <= usize::MAX,
        is_part(whole, shift_table(f.table, k), between(k, k + f.num_states)),
        f.accepts(input),
    ensures
        walk(whole, n, PNFATarget::State(k as usize), input, PNFATarget::Exit),
{
    let part = shift_table(f.table, k);
    let n = choose|n: nat| walk(f.table, n, PNFATarget::State(0), input, PNFATarget::Exit);
    lemma_walk_shifted(f.table, k, f.num_states, n, PNFATarget::State(0), input, PNFATarget::Exit);
    lemma_part_walk(
        whole,
        part,
        between(k, k + f.num_states),
        n,
        PNFATarget::State(k as usize),
        input,
        PNFATarget::Exit,
    );
    n
}

/// The renumbered table of a fragment has no transition from or to a state
/// outside the renumbered states.
proof fn lemma_fresh_outside(f: Fragment, k: nat, r: usize)
    requires
        f.well_numbered(),
        f.num_states + k <= usize::MAX,
        r < k || r >= k + f.num_states,
    ensures
        is_fresh(shift_table(f.table, k), r),
{
    lemma_shift_table(f.table, k, f.num_states);
    let moved = shift_table(f.table, k);
    assert forall|key: Key| #[trigger] moved.contains_key(key) implies key.0 != r
        && !moved[key].contains(PNFATarget::State(r)) by {
        if moved[key].contains(PNFATarget::State(r)) {
            assert(r < k + f.num_states);
        }
    }
}

/// Where a walk through a part whose exits lead to the state `r` comes to
/// `r`: after `k` transitions, which consume `first`; `rest` is left.
pub struct Arrival {
    /// The number of transitions up to `r`.
    pub k: nat,
    /// What the walk consumes up to `r`.
    pub first: Seq<char>,
    /// What the walk consumes from `r` on.
    pub rest: Seq<char>,
}

/// A walk of a whole from the renumbered entry of a fragment to `Exit`,
/// where the whole has as a part the renumbered table of the fragment with
/// its exits led to the state `r`, first consumes what the fragment accepts
/// and comes to `r`.
proof fn lemma_through_redirected_part(
    whole: TableModel,
    f: Fragment,
    k: nat,
    r: usize,
    n: nat,
    input: Seq<char>,
) -> (a: Arrival)
    requires
        f.well_numbered(),
        f.num_states + k <= usize::MAX,
        r < k || r >= k + f.num_states,
        is_part(
            whole,
            redirect_table(shift_table(f.table, k), r),
            between(k, k + f.num_states),
        ),
        walk(whole, n, PNFATarget::State(k as usize), input, PNFATarget::Exit),
    ensures
        1 <= a.k <= n,
        input == a.first + a.rest,
        f.accepts(a.first),
        walk(whole, (n - a.k) as nat, PNFATarget::State(r), a.rest, PNFATarget::Exit),
{
    let moved = shift_table(f.table, k);
    let part = redirect_table(moved, r);
    let inside = between(k, k + f.num_states);
    let from = PNFATarget::State(k as usize);
    lemma_fresh_outside(f, k, r);
    let l = lemma_walk_leaves(whole, part, inside, n, from, input, PNFATarget::Exit);
    lemma_walk_unredirected(moved, r, l.k, from, l.first, l.at);
    let back = unredirected(l.at, r);
    lemma_walk_unshifted(f.table, k, l.k, from, l.first, back);
    lemma_walk_stays_below(
        f.table,
        f.num_states as int,
        l.k,
        PNFATarget::State(0),
        l.first,
        unshifted(back, k),
    );
    assert(l.at == PNFATarget::State(r));
    assert(walk(f.table, l.k, PNFATarget::State(0), l.first, PNFATarget::Exit));
    Arrival { k: l.k, first: l.first, rest: l.rest }
}

/// What a fragment accepts is consumed, in a whole that has as a part the
/// renumbered table of the fragment with its exits led to the state `r`,
/// by a walk from the renumbered entry to `r`.
proof fn lemma_into_redirected_part(
    whole: TableModel,
    f: Fragment,
    k: nat,
    r: usize,
    input: Seq<char>,
) -> (n: nat)
    requires
        f.well_numbered(),
        f.num_states + k <= usize::MAX,
        r < k || r >= k + f.num_states,
        is_part(
            whole,
            redirect_table(shift_table(f.table, k), r),
            between(k, k + f.num_states),
        ),
        f.accepts(input),
    ensures
        walk(whole, n, PNFATarget::State(k as usize), input, PNFATarget::State(r)),
{
    let moved = shift_table(f.table, k);
    let part = redirect_table(moved, r);
    let from = PNFATarget::State(k as usize);
    lemma_fresh_outside(f, k, r);
    let n = choose|n: nat| walk(f.table, n, PNFATarget::State(0), input, PNFATarget::Exit);
    lemma_walk_shifted(f.table, k, f.num_states, n, PNFATarget::State(0), input, PNFATarget::Exit);
    lemma_walk_redirected(moved, r, n, from, input, PNFATarget::Exit);
    lemma_part_walk(
        whole,
        part,
        between(k, k + f.num_states),
        n,
        from,
        input,
        PNFATarget::State(r),
    );
    n
}

impl Fragment {
    /// A fragment made optional accepts the empty input and what the
    /// fragment accepts.
    pub proof fn lemma_optional_accepts(self, input: Seq<char>)
        requires
            self.well_numbered(),
            1 + self.num_states <= usize::MAX,
        ensures
            self.optional().accepts(input) <==> input.len() == 0 || self.accepts(input),
    {
        let whole = self.optional().table;
        let part = shift_table(self.table, 1);
        let entry = PNFATarget::State(0);
        let body = PNFATarget::State(1);
        let hub: Key = (0, None);
        lemma_shift_table(self.table, 1, self.num_states);
        assert(is_part(whole, part, between(1, 1 + self.num_states)));
        assert(whole.contains_key(hub));
        assert(edge(whole, entry, None, body));
        assert(edge(whole, entry, None, PNFATarget::Exit));
        if self.optional().accepts(input) {
            let n = choose|n: nat| walk(whole, n, entry, input, PNFATarget::Exit);
            let first = lemma_walk_first(whole, n, entry, input, PNFATarget::Exit);
            assert(whole.contains_key((0usize, first.0)));
            assert(!part.contains_key((0usize, first.0)));
            assert(first.0 == None::<char>);
            if first.1 == PNFATarget::Exit {
                lemma_walk_from_exit(whole, (n - 1) as nat, first.2, PNFATarget::Exit);
            } else {
                assert(first.1 == body);
                lemma_through_shifted_part(whole, self, 1, (n - 1) as nat, input);
            }
        }
        if input.len() == 0 {
            lemma_walk_edge(whole, entry, None, PNFATarget::Exit);
            assert(input =~= Seq::<char>::empty());
        }
        if self.accepts(input) {
            let n = lemma_into_shifted_part(whole, self, 1, input);
            lemma_walk_edge(whole, entry, None, body);
            lemma_walk_join(whole, 1, entry, Seq::empty(), body, n, input, PNFATarget::Exit);
            assert(Seq::<char>::empty() + input =~= input);
        }
    }

    /// The alternation of two fragments accepts what one of them accepts.
    pub proof fn lemma_alternate_accepts(self, other: Fragment, input: Seq<char>)
        requires
            self.well_numbered(),
            other.well_numbered(),
            1 + self.num_states + other.num_states <= usize::MAX,
        ensures
            self.alternate(other).accepts(input) <==> self.accepts(input) || other.accepts(
                input,
            ),
    {
        let m = self.num_states;
        let whole = self.alternate(other).table;
        let left = shift_table(self.table, 1);
        let right = shift_table(other.table, m + 1);
        let entry = PNFATarget::State(0);
        let first_entry = PNFATarget::State(1);
        let second_entry = PNFATarget::State((m + 1) as usize);
        let hub: Key = (0, None);
        lemma_shift_table(self.table, 1, m);
        lemma_shift_table(other.table, m + 1, other.num_states);
        assert(is_part(whole, left, between(1, 1 + m))) by {
            assert forall|q: usize, label: Label, to: PNFATarget|
                between(1, 1 + m).contains(PNFATarget::State(q)) implies (#[trigger] edge(
                whole,
                PNFATarget::State(q),
                label,
                to,
            ) <==> edge(left, PNFATarget::State(q), label, to)) by {
                if right.contains_key((q, label)) {
                    assert(q >= m + 1);
                }
            }
        }
        assert(is_part(whole, right, between(m + 1, m + 1 + other.num_states))) by {
            assert forall|q: usize, label: Label, to: PNFATarget|
                between(m + 1, m + 1 + other.num_states).contains(
                    PNFATarget::State(q),
                ) implies (#[trigger] edge(whole, PNFATarget::State(q), label, to) <==> edge(
                right,
                PNFATarget::State(q),
                label,
                to,
            )) by {
                if left.contains_key((q, label)) {
                    assert(q < 1 + m);
                }
            }
        }
        assert(whole.contains_key(hub));
        assert(edge(whole, entry, None, first_entry));
        assert(edge(whole, entry, None, second_entry));
        if self.alternate(other).accepts(input) {
            let n = choose|n: nat| walk(whole, n, entry, input, PNFATarget::Exit);
            let first = lemma_walk_first(whole, n, entry, input, PNFATarget::Exit);
            assert(whole.contains_key((0usize, first.0)));
            assert(!left.contains_key((0usize, first.0)));
            assert(!right.contains_key((0usize, first.0)));
            assert(first.0 == None::<char>);
            if first.1 == first_entry {
                lemma_through_shifted_part(whole, self, 1, (n - 1) as nat, input);
            } else {
                assert(first.1 == second_entry);
                lemma_through_shifted_part(whole, other, m + 1, (n - 1) as nat, input);
            }
        }
        if self.accepts(input) {
            let n = lemma_into_shifted_part(whole, self, 1, input);
            lemma_walk_edge(whole, entry, None, first_entry);
            lemma_walk_join(whole, 1, entry, Seq::empty(), first_entry, n, input, PNFATarget::Exit);
            assert(Seq::<char>::empty() + input =~= input);
        }
        if other.accepts(input) {
            let n = lemma_into_shifted_part(whole, other, m + 1, input);
            lemma_walk_edge(whole, entry, None, second_entry);
            lemma_walk_join(
                whole,
                1,
                entry,
                Seq::empty(),
                second_entry,
                n,
                input,
                PNFATarget::Exit,
            );
            assert(Seq::<char>::empty() + input =~= input);
        }
    }

    /// The concatenation of two fragments accepts an input that is in two
    /// parts, of which the first fragment accepts the first and the second
    /// fragment the second.
    pub proof fn lemma_concatenate_accepts(self, other: Fragment, input: Seq<char>)
        requires
            self.well_numbered(),
            other.well_numbered(),
            self.num_states + other.num_states <= usize::MAX,
        ensures
            self.concatenate(other).accepts(input) <==> exists|i: int|
                0 <= i <= input.len() && self.accepts(#[trigger] input.take(i)) && other.accepts(
                    input.skip(i),
                ),
    {
        let m = self.num_states;
        let whole = self.concatenate(other).table;
        let left = redirect_table(self.table, m as usize);
        let right = shift_table(other.table, m);
        let entry = PNFATarget::State(0);
        let middle = PNFATarget::State(m as usize);
        lemma_shift_by_zero(self.table);
        lemma_redirect_table(self.table, m as usize, m + other.num_states);
        lemma_shift_table(other.table, m, other.num_states);
        assert(is_part(whole, left, between(0, m))) by {
            assert forall|q: usize, label: Label, to: PNFATarget|
                between(0, m).contains(PNFATarget::State(q)) implies (#[trigger] edge(
                whole,
                PNFATarget::State(q),
                label,
                to,
            ) <==> edge(left, PNFATarget::State(q), label, to)) by {
                if right.contains_key((q, label)) {
                    assert(q >= m);
                }
            }
            assert forall|key: Key| #[trigger] left.contains_key(key) implies between(
                0,
                m,
            ).contains(PNFATarget::State(key.0)) by {
                assert(self.table.contains_key(key));
            }
        }
        assert(is_part(whole, right, between(m, m + other.num_states))) by {
            assert forall|q: usize, label: Label, to: PNFATarget|
                between(m, m + other.num_states).contains(PNFATarget::State(q)) implies (
            #[trigger] edge(whole, PNFATarget::State(q), label, to) <==> edge(
                right,
                PNFATarget::State(q),
                label,
                to,
            )) by {
                if left.contains_key((q, label)) {
                    assert(self.table.contains_key((q, label)));
                }
            }
        }
        if self.concatenate(other).accepts(input) {
            let n = choose|n: nat| walk(whole, n, entry, input, PNFATarget::Exit);
            let a = lemma_through_redirected_part(whole, self, 0, m as usize, n, input);
            lemma_through_shifted_part(whole, other, m, (n - a.k) as nat, a.rest);
            let i = a.first.len() as int;
            assert(input.take(i) =~= a.first);
            assert(input.skip(i) =~= a.rest);
        }
        if exists|i: int|
            0 <= i <= input.len() && self.accepts(#[trigger] input.take(i)) && other.accepts(
                input.skip(i),
            ) {
            let i = choose|i: int|
                0 <= i <= input.len() && self.accepts(#[trigger] input.take(i)) && other.accepts(
                    input.skip(i),
                );
            let n1 = lemma_into_redirected_part(whole, self, 0, m as usize, input.take(i));
            let n2 = lemma_into_shifted_part(whole, other, m, input.skip(i));
            lemma_walk_join(
                whole,
                n1,
                entry,
                input.take(i),
                middle,
                n2,
                input.skip(i),
                PNFATarget::Exit,
            );
            assert(input.take(i) + input.skip(i) =~= input);
        }
    }

    /// The table of `self.star()` has the renumbered table of `self`, with
    /// its exits led to state 0, as its part from state 1 on, and two
    /// transitions from state 0.
    proof fn lemma_star_table(self)
        requires
            self.well_numbered(),
            1 + self.num_states <= usize::MAX,
        ensures
            is_part(
                self.star().table,
                redirect_table(shift_table(self.table, 1), 0),
                between(1, 1 + self.num_states),
            ),
            forall|label: Label, to: PNFATarget| #[trigger]
                edge(self.star().table, PNFATarget::State(0), label, to) <==> label
                    == None::<char> && (to == PNFATarget::State(1) || to == PNFATarget::Exit),
    {
        let whole = self.star().table;
        let moved = shift_table(self.table, 1);
        let part = redirect_table(moved, 0);
        let hub: Key = (0, None);
        lemma_shift_table(self.table, 1, self.num_states);
        lemma_redirect_table(moved, 0, 1 + self.num_states);
        assert(whole.contains_key(hub));
        assert forall|key: Key| #[trigger] part.contains_key(key) implies between(
            1,
            1 + self.num_states,
        ).contains(PNFATarget::State(key.0)) by {
            assert(moved.contains_key(key));
        }
        assert forall|label: Label, to: PNFATarget| #[trigger]
            edge(whole, PNFATarget::State(0), label, to) <==> label == None::<char> && (to
                == PNFATarget::State(1) || to == PNFATarget::Exit) by {
            if part.contains_key((0usize, label)) {
                assert(moved.contains_key((0usize, label)));
            }
        }
    }

    /// What a walk of `self.star()` from its entry to `Exit` consumes is
    /// made of pieces that `self` accepts.
    proof fn lemma_star_forward(self, n: nat, input: Seq<char>) -> (pieces: Seq<Seq<char>>)
        requires
            self.well_numbered(),
            1 + self.num_states <= usize::MAX,
            walk(self.star().table, n, PNFATarget::State(0), input, PNFATarget::Exit),
        ensures
            pieces.flatten() == input,
            forall|j: int| 0 <= j < pieces.len() ==> self.accepts(#[trigger] pieces[j]),
        decreases n,
    {
        let whole = self.star().table;
        let entry = PNFATarget::State(0);
        self.lemma_star_table();
        let first = lemma_walk_first(whole, n, entry, input, PNFATarget::Exit);
        if first.1 == PNFATarget::Exit {
            lemma_walk_from_exit(whole, (n - 1) as nat, first.2, PNFATarget::Exit);
            assert(input =~= Seq::<char>::empty());
            Seq::empty()
        } else {
            let a = lemma_through_redirected_part(whole, self, 1, 0, (n - 1) as nat, input);
            let more = self.lemma_star_forward((n - 1 - a.k) as nat, a.rest);
            let pieces = seq![a.first] + more;
            assert(pieces.drop_first() =~= more);
            assert(pieces.first() == a.first);
            assert forall|j: int| 0 <= j < pieces.len() implies self.accepts(
                #[trigger] pieces[j],
            ) by {
                if j > 0 {
                    assert(pieces[j] == more[j - 1]);
                }
            }
            pieces
        }
    }

    /// Pieces that `self` accepts are consumed, one after the other, by a
    /// walk of `self.star()` from its entry to `Exit`.
    proof fn lemma_star_backward(self, pieces: Seq<Seq<char>>) -> (n: nat)
        requires
            self.well_numbered(),
            1 + self.num_states <= usize::MAX,
            forall|j: int| 0 <= j < pieces.len() ==> self.accepts(#[trigger] pieces[j]),
        ensures
            walk(self.star().table, n, PNFATarget::State(0), pieces.flatten(), PNFATarget::Exit),
        decreases pieces.len(),
    {
        let whole = self.star().table;
        let entry = PNFATarget::State(0);
        let body = PNFATarget::State(1);
        self.lemma_star_table();
        if pieces.len() == 0 {
            assert(edge(whole, entry, None, PNFATarget::Exit));
            lemma_walk_edge(whole, entry, None, PNFATarget::Exit);
            1
        } else {
            let more = pieces.drop_first();
            assert forall|j: int| 0 <= j < more.len() implies self.accepts(#[trigger] more[j]) by {
                assert(more[j] == pieces[j + 1]);
            }
            let n2 = self.lemma_star_backward(more);
            assert(self.accepts(pieces[0]));
            let n1 = lemma_into_redirected_part(whole, self, 1, 0, pieces.first());
            assert(edge(whole, entry, None, body));
            lemma_walk_edge(whole, entry, None, body);
            lemma_walk_join(whole, 1, entry, Seq::empty(), body, n1, pieces.first(), entry);
            assert(Seq::<char>::empty() + pieces.first() =~= pieces.first());
            lemma_walk_join(
                whole,
                1 + n1,
                entry,
                pieces.first(),
                entry,
                n2,
                more.flatten(),
                PNFATarget::Exit,
            );
            1 + n1 + n2
        }
    }

    /// A fragment repeated any number of times accepts the inputs that
    /// are made of pieces, none or more, that the fragment accepts.
    pub proof fn lemma_star_accepts(self, input: Seq<char>)
        requires
            self.well_numbered(),
            1 + self.num_states <= usize::MAX,
        ensures
            self.star().accepts(input) <==> exists|pieces: Seq<Seq<char>>|
                #[trigger] pieces.flatten() == input && forall|j: int|
                    0 <= j < pieces.len() ==> self.accepts(#[trigger] pieces[j]),
    {
        if self.star().accepts(input) {
            let n = choose|n: nat|
                walk(self.star().table, n, PNFATarget::State(0), input, PNFATarget::Exit);
            let pieces = self.lemma_star_forward(n, input);
            assert(pieces.flatten() == input);
        }
        if exists|pieces: Seq<Seq<char>>|
            #[trigger] pieces.flatten() == input && forall|j: int|
                0 <= j < pieces.len() ==> self.accepts(#[trigger] pieces[j]) {
            let pieces = choose|pieces: Seq<Seq<char>>|
                #[trigger] pieces.flatten() == input && forall|j: int|
                    0 <= j < pieces.len() ==> self.accepts(#[trigger] pieces[j]);
            let n = self.lemma_star_backward(pieces);
        }
    }

    /// The table of `self.plus()` has the table of `self`, with its exits
    /// led to a new last state, as its part up to that state, and two
    /// transitions from that state.
    proof fn lemma_plus_table(self)
        requires
            self.well_numbered(),
            1 + self.num_states <= usize::MAX,
        ensures
            is_part(
                self.plus().table,
                redirect_table(shift_table(self.table, 0), self.num_states as usize),
                between(0, self.num_states),
            ),
            forall|label: Label, to: PNFATarget| #[trigger]
                edge(self.plus().table, PNFATarget::State(self.num_states as usize), label, to)
                    <==> label == None::<char> && (to == PNFATarget::State(0) || to
                    == PNFATarget::Exit),
    {
        let m = self.num_states;
        let whole = self.plus().table;
        let part = redirect_table(self.table, m as usize);
        let hub: Key = (m as usize, None);
        lemma_shift_by_zero(self.table);
        lemma_redirect_table(self.table, m as usize, 1 + m);
        assert(whole.contains_key(hub));
        assert forall|key: Key| #[trigger] part.contains_key(key) implies between(0, m).contains(
            PNFATarget::State(key.0),
        ) by {
            assert(self.table.contains_key(key));
        }
        assert forall|label: Label, to: PNFATarget| #[trigger]
            edge(whole, PNFATarget::State(m as usize), label, to) <==> label == None::<char> && (
            to == PNFATarget::State(0) || to == PNFATarget::Exit) by {
            if part.contains_key((m as usize, label)) {
                assert(self.table.contains_key((m as usize, label)));
            }
        }
    }

    /// What a walk of `self.plus()` from its entry to `Exit` consumes is
    /// made of pieces, one or more, that `self` accepts.
    proof fn lemma_plus_forward(self, n: nat, input: Seq<char>) -> (pieces: Seq<Seq<char>>)
        requires
            self.well_numbered(),
            1 + self.num_states <= usize::MAX,
            walk(self.plus().table, n, PNFATarget::State(0), input, PNFATarget::Exit),
        ensures
            pieces.len() >= 1,
            pieces.flatten() == input,
            forall|j: int| 0 <= j < pieces.len() ==> self.accepts(#[trigger] pieces[j]),
        decreases n,
    {
        let m = self.num_states;
        let whole = self.plus().table;
        let last = PNFATarget::State(m as usize);
        self.lemma_plus_table();
        let a = lemma_through_redirected_part(whole, self, 0, m as usize, n, input);
        let first = lemma_walk_first(whole, (n - a.k) as nat, last, a.rest, PNFATarget::Exit);
        if first.1 == PNFATarget::Exit {
            lemma_walk_from_exit(whole, (n - a.k - 1) as nat, first.2, PNFATarget::Exit);
            let pieces = seq![a.first];
            pieces.lemma_flatten_one_element();
            assert(input =~= a.first);
            pieces
        } else {
            let more = self.lemma_plus_forward((n - a.k - 1) as nat, a.rest);
            let pieces = seq![a.first] + more;
            assert(pieces.drop_first() =~= more);
            assert(pieces.first() == a.first);
            assert forall|j: int| 0 <= j < pieces.len() implies self.accepts(
                #[trigger] pieces[j],
            ) by {
                if j > 0 {
                    assert(pieces[j] == more[j - 1]);
                }
            }
            pieces
        }
    }

    /// Pieces, one or more, that `self` accepts are consumed, one after
    /// the other, by a walk of `self.plus()` from its entry to `Exit`.
    proof fn lemma_plus_backward(self, pieces: Seq<Seq<char>>) -> (n: nat)
        requires
            self.well_numbered(),
            1 + self.num_states <= usize::MAX,
            pieces.len() >= 1,
            forall|j: int| 0 <= j < pieces.len() ==> self.accepts(#[trigger] pieces[j]),
        ensures
            walk(self.plus().table, n, PNFATarget::State(0), pieces.flatten(), PNFATarget::Exit),
        decreases pieces.len(),
    {
        let m = self.num_states;
        let whole = self.plus().table;
        let entry = PNFATarget::State(0);
        let last = PNFATarget::State(m as usize);
        self.lemma_plus_table();
        assert(self.accepts(pieces[0]));
        let n1 = lemma_into_redirected_part(whole, self, 0, m as usize, pieces.first());
        let more = pieces.drop_first();
        if more.len() == 0 {
            assert(edge(whole, last, None, PNFATarget::Exit));
            lemma_walk_edge(whole, last, None, PNFATarget::Exit);
            lemma_walk_join(
                whole,
                n1,
                entry,
                pieces.first(),
                last,
                1,
                Seq::empty(),
                PNFATarget::Exit,
            );
            pieces.lemma_flatten_one_element();
            assert(pieces.first() + Seq::<char>::empty() =~= pieces.first());
            n1 + 1
        } else {
            assert forall|j: int| 0 <= j < more.len() implies self.accepts(#[trigger] more[j]) by {
                assert(more[j] == pieces[j + 1]);
            }
            let n2 = self.lemma_plus_backward(more);
            assert(edge(whole, last, None, entry));
            lemma_walk_edge(whole, last, None, entry);
            lemma_walk_join(whole, n1, entry, pieces.first(), last, 1, Seq::empty(), entry);
            assert(pieces.first() + Seq::<char>::empty() =~= pieces.first());
            lemma_walk_join(
                whole,
                n1 + 1,
                entry,
                pieces.first(),
                entry,
                n2,
                more.flatten(),
                PNFATarget::Exit,
            );
            n1 + 1 + n2
        }
    }

    /// A fragment repeated once or more accepts the inputs that are made
    /// of pieces, one or more, that the fragment accepts.
    pub proof fn lemma_plus_accepts(self, input: Seq<char>)
        requires
            self.well_numbered(),
            1 + self.num_states <= usize::MAX,
        ensures
            self.plus().accepts(input) <==> exists|pieces: Seq<Seq<char>>|
                pieces.len() >= 1 && #[trigger] pieces.flatten() == input && forall|j: int|
                    0 <= j < pieces.len() ==> self.accepts(#[trigger] pieces[j]),
    {
        if self.plus().accepts(input) {
            let n = choose|n: nat|
                walk(self.plus().table, n, PNFATarget::State(0), input, PNFATarget::Exit);
            let pieces = self.lemma_plus_forward(n, input);
            assert(pieces.flatten() == input);
        }
        if exists|pieces: Seq<Seq<char>>|
            pieces.len() >= 1 && #[trigger] pieces.flatten() == input && forall|j: int|
                0 <= j < pieces.len() ==> self.accepts(#[trigger] pieces[j]) {
            let pieces = choose|pieces: Seq<Seq<char>>|
                pieces.len() >= 1 && #[trigger] pieces.flatten() == input && forall|j: int|
                    0 <= j < pieces.len() ==> self.accepts(#[trigger] pieces[j]);
            let n = self.lemma_plus_backward(pieces);
        }
    }
}

impl Fragment {
    /// The fragment for one symbol is well-formed.
    pub proof fn lemma_single_symbol_wf(c: char)
        ensures
            Fragment::single_symbol(c).wf(),
    {
        Fragment::lemma_single_symbol_well_numbered(c);
        lemma_single_symbol_accepts(c, seq![c]);
    }

    /// Concatenation keeps fragments well-formed.
    pub proof fn lemma_concatenate_wf(self, other: Fragment)
        requires
            self.wf(),
            other.wf(),
            self.num_states + other.num_states <= usize::MAX,
        ensures
            self.concatenate(other).wf(),
    {
        self.lemma_concatenate_well_numbered(other);
        let first = choose|input: Seq<char>| self.accepts(input);
        let second = choose|input: Seq<char>| other.accepts(input);
        let input = first + second;
        let i = first.len() as int;
        assert(input.take(i) =~= first);
        assert(input.skip(i) =~= second);
        self.lemma_concatenate_accepts(other, input);
    }

    /// Alternation keeps fragments well-formed.
    pub proof fn lemma_alternate_wf(self, other: Fragment)
        requires
            self.wf(),
            other.wf(),
            1 + self.num_states + other.num_states <= usize::MAX,
        ensures
            self.alternate(other).wf(),
    {
        self.lemma_alternate_well_numbered(other);
        let first = choose|input: Seq<char>| self.accepts(input);
        self.lemma_alternate_accepts(other, first);
    }

    /// Making a fragment optional keeps it well-formed.
    pub proof fn lemma_optional_wf(self)
        requires
            self.wf(),
            1 + self.num_states <= usize::MAX,
        ensures
            self.optional().wf(),
    {
        self.lemma_optional_well_numbered();
        self.lemma_optional_accepts(Seq::empty());
    }

    /// Repeating a fragment any number of times keeps it well-formed.
    pub proof fn lemma_star_wf(self)
        requires
            self.wf(),
            1 + self.num_states <= usize::MAX,
        ensures
            self.star().wf(),
    {
        self.lemma_star_well_numbered();
        let pieces = Seq::<Seq<char>>::empty();
        self.lemma_star_accepts(pieces.flatten());
    }

    /// Repeating a fragment once or more keeps it well-formed.
    pub proof fn lemma_plus_wf(self)
        requires
            self.wf(),
            1 + self.num_states <= usize::MAX,
        ensures
            self.plus().wf(),
    {
        self.lemma_plus_well_numbered();
        let first = choose|input: Seq<char>| self.accepts(input);
        let pieces = seq![first];
        self.lemma_plus_accepts(pieces.flatten());
    }
}

} // verus!

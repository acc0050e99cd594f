//! Walks through a transition table, and what becomes of them when tables
//! are renumbered, have their exits led elsewhere, or are put together.
//!
//! A walk goes from target to target along transitions; the symbols of the
//! transitions it takes, in their order, are the input that it consumes.

use vstd::prelude::*;
use crate::fragment::{redirect_table, redirect_targets, shift_table, states_below, TableModel};
use crate::partial_nfa::PNFATarget;
use crate::table::{Key, Label};

verus! {

/// `table` has a transition from `from` to `to` under `label`.
pub open spec fn edge(table: TableModel, from: PNFATarget, label: Label, to: PNFATarget) -> bool {
    match from {
        PNFATarget::State(q) => table.contains_key((q, label)) && table[(q, label)].contains(to),
        PNFATarget::Exit => false,
    }
}

/// The input `input` can end with a transition under `label`.
pub open spec fn ends_with(input: Seq<char>, label: Label) -> bool {
    match label {
        Some(c) => input.len() > 0 && input.last() == c,
        None => true,
    }
}

/// What of `input` comes before a last transition under `label`.
pub open spec fn before(input: Seq<char>, label: Label) -> Seq<char> {
    match label {
        Some(c) => input.drop_last(),
        None => input,
    }
}

/// There is a walk of `n` transitions of `table` from `from` to `to` that
/// consumes `input`.
pub open spec fn walk(
    table: TableModel,
    n: nat,
    from: PNFATarget,
    input: Seq<char>,
    to: PNFATarget,
) -> bool
    decreases n,
{
    if n == 0 {
        from == to && input.len() == 0
    } else {
        exists|mid: PNFATarget, label: Label|
            ends_with(input, label) && walk(
                table,
                (n - 1) as nat,
                from,
                before(input, label),
                mid,
            ) && #[trigger] edge(table, mid, label, to)
    }
}

/// There is a walk of `table` from `from` to `to` that consumes `input`.
pub open spec fn reaches(
    table: TableModel,
    from: PNFATarget,
    input: Seq<char>,
    to: PNFATarget,
) -> bool {
    exists|n: nat| walk(table, n, from, input, to)
}

/// A walk goes on by one transition.
pub proof fn lemma_walk_step(
    table: TableModel,
    n: nat,
    from: PNFATarget,
    input: Seq<char>,
    mid: PNFATarget,
    label: Label,
    to: PNFATarget,
)
    requires
        walk(table, n, from, input, mid),
        edge(table, mid, label, to),
    ensures
        walk(
            table,
            n + 1,
            from,
            match label {
                Some(c) => input.push(c),
                None => input,
            },
            to,
        ),
{
    let longer = match label {
        Some(c) => input.push(c),
        None => input,
    };
    assert(before(longer, label) =~= input);
    assert(ends_with(longer, label));
    assert(walk(table, ((n + 1) - 1) as nat, from, before(longer, label), mid));
}

/// Two walks, the second from where the first ends, make one walk.
pub proof fn lemma_walk_join(
    table: TableModel,
    n1: nat,
    from: PNFATarget,
    input1: Seq<char>,
    mid: PNFATarget,
    n2: nat,
    input2: Seq<char>,
    to: PNFATarget,
)
    requires
        walk(table, n1, from, input1, mid),
        walk(table, n2, mid, input2, to),
    ensures
        walk(table, n1 + n2, from, input1 + input2, to),
    decreases n2,
{
    if n2 == 0 {
        assert(input1 + input2 =~= input1);
    } else {
        let (last, label) = choose|last: PNFATarget, label: Label|
            ends_with(input2, label) && walk(
                table,
                (n2 - 1) as nat,
                mid,
                before(input2, label),
                last,
            ) && #[trigger] edge(table, last, label, to);
        lemma_walk_join(table, n1, from, input1, mid, (n2 - 1) as nat, before(input2, label), last);
        lemma_walk_step(
            table,
            (n1 + n2 - 1) as nat,
            from,
            input1 + before(input2, label),
            last,
            label,
            to,
        );
        match label {
            Some(c) => {
                assert((input1 + before(input2, label)).push(c) =~= input1 + input2);
            },
            None => {},
        }
    }
}

/// One transition is a walk.
pub proof fn lemma_walk_edge(table: TableModel, from: PNFATarget, label: Label, to: PNFATarget)
    requires
        edge(table, from, label, to),
    ensures
        walk(
            table,
            1,
            from,
            match label {
                Some(c) => seq![c],
                None => Seq::empty(),
            },
            to,
        ),
{
    assert(walk(table, 0, from, Seq::empty(), from));
    lemma_walk_step(table, 0, from, Seq::empty(), from, label, to);
    match label {
        Some(c) => {
            assert(Seq::<char>::empty().push(c) =~= seq![c]);
        },
        None => {},
    }
}

/// No walk leaves `Exit`.
pub proof fn lemma_walk_from_exit(table: TableModel, n: nat, input: Seq<char>, to: PNFATarget)
    requires
        walk(table, n, PNFATarget::Exit, input, to),
    ensures
        n == 0,
        to == PNFATarget::Exit,
        input.len() == 0,
    decreases n,
{
    if n > 0 {
        let (mid, label) = choose|mid: PNFATarget, label: Label|
            ends_with(input, label) && walk(
                table,
                (n - 1) as nat,
                PNFATarget::Exit,
                before(input, label),
                mid,
            ) && #[trigger] edge(table, mid, label, to);
        lemma_walk_from_exit(table, (n - 1) as nat, before(input, label), mid);
    }
}

/// A walk of one transition or more begins with a transition.
pub proof fn lemma_walk_first(
    table: TableModel,
    n: nat,
    from: PNFATarget,
    input: Seq<char>,
    to: PNFATarget,
) -> (first: (Label, PNFATarget, Seq<char>))
    requires
        n >= 1,
        walk(table, n, from, input, to),
    ensures
        edge(table, from, first.0, first.1),
        walk(table, (n - 1) as nat, first.1, first.2, to),
        input == match first.0 {
            Some(c) => seq![c] + first.2,
            None => first.2,
        },
    decreases n,
{
    let (mid, label) = choose|mid: PNFATarget, label: Label|
        ends_with(input, label) && walk(
            table,
            (n - 1) as nat,
            from,
            before(input, label),
            mid,
        ) && #[trigger] edge(table, mid, label, to);
    if n == 1 {
        assert(walk(table, 0, to, Seq::empty(), to));
        match label {
            Some(c) => {
                assert(input =~= seq![c] + Seq::<char>::empty());
            },
            None => {},
        }
        (label, to, Seq::empty())
    } else {
        let first = lemma_walk_first(table, (n - 1) as nat, from, before(input, label), mid);
        lemma_walk_step(table, (n - 2) as nat, first.1, first.2, mid, label, to);
        let rest = match label {
            Some(c) => first.2.push(c),
            None => first.2,
        };
        match label {
            Some(c) => {
                assert(input =~= before(input, label).push(c));
                match first.0 {
                    Some(d) => {
                        assert((seq![d] + first.2).push(c) =~= seq![d] + first.2.push(c));
                    },
                    None => {},
                }
            },
            None => {},
        }
        (first.0, first.1, rest)
    }
}

/// A walk that begins at a state below `bound`, in a table whose states are
/// all below `bound`, ends at a state below `bound` or at `Exit`.
pub proof fn lemma_walk_stays_below(
    table: TableModel,
    bound: int,
    n: nat,
    from: PNFATarget,
    input: Seq<char>,
    to: PNFATarget,
)
    requires
        states_below(table, bound),
        walk(table, n, from, input, to),
        from matches PNFATarget::State(q) ==> q < bound,
    ensures
        to matches PNFATarget::State(q) ==> q < bound,
    decreases n,
{
    if n > 0 {
        let (mid, label) = choose|mid: PNFATarget, label: Label|
            ends_with(input, label) && walk(
                table,
                (n - 1) as nat,
                from,
                before(input, label),
                mid,
            ) && #[trigger] edge(table, mid, label, to);
        let key = (mid->State_0, label);
        assert(table.contains_key(key));
        match to {
            PNFATarget::State(q) => {
                assert(table[key].contains(PNFATarget::State(q)));
            },
            PNFATarget::Exit => {},
        }
    }
}

/// `part` is the part of `whole` that lies inside `inside`: the states
/// inside have the same transitions in both, and `part` has no others.
pub open spec fn is_part(whole: TableModel, part: TableModel, inside: Set<PNFATarget>) -> bool {
    &&& forall|q: usize, label: Label, to: PNFATarget|
        inside.contains(PNFATarget::State(q)) ==> (#[trigger] edge(
            whole,
            PNFATarget::State(q),
            label,
            to,
        ) <==> edge(part, PNFATarget::State(q), label, to))
    &&& forall|key: Key| #[trigger]
        part.contains_key(key) ==> inside.contains(PNFATarget::State(key.0))
}

/// A walk of a part is a walk of the whole.
pub proof fn lemma_part_walk(
    whole: TableModel,
    part: TableModel,
    inside: Set<PNFATarget>,
    n: nat,
    from: PNFATarget,
    input: Seq<char>,
    to: PNFATarget,
)
    requires
        is_part(whole, part, inside),
        walk(part, n, from, input, to),
    ensures
        walk(whole, n, from, input, to),
    decreases n,
{
    if n > 0 {
        let (mid, label) = choose|mid: PNFATarget, label: Label|
            ends_with(input, label) && walk(part, (n - 1) as nat, from, before(input, label), mid)
                && #[trigger] edge(part, mid, label, to);
        lemma_part_walk(whole, part, inside, (n - 1) as nat, from, before(input, label), mid);
        let q = mid->State_0;
        assert(part.contains_key((q, label)));
        assert(edge(whole, PNFATarget::State(q), label, to));
    }
}

/// Where a walk of the whole leaves a part. The walk is a walk of `k`
/// transitions of the part, to a target `at`, and a walk of the whole from
/// there; and either the walk of the part is all of it, or `at` is outside.
pub struct Leaving {
    /// The number of transitions of the walk of the part.
    pub k: nat,
    /// Where the walk of the part ends.
    pub at: PNFATarget,
    /// What the walk of the part consumes.
    pub first: Seq<char>,
    /// What the walk from there on consumes.
    pub rest: Seq<char>,
}

/// A walk of the whole that begins inside a part is a walk of the part up
/// to the first target outside, if it comes to one.
pub proof fn lemma_walk_leaves(
    whole: TableModel,
    part: TableModel,
    inside: Set<PNFATarget>,
    n: nat,
    from: PNFATarget,
    input: Seq<char>,
    to: PNFATarget,
) -> (l: Leaving)
    requires
        is_part(whole, part, inside),
        walk(whole, n, from, input, to),
    ensures
        l.k <= n,
        input == l.first + l.rest,
        walk(part, l.k, from, l.first, l.at),
        walk(whole, (n - l.k) as nat, l.at, l.rest, to),
        l.k == n || !inside.contains(l.at),
        l.k == 0 ==> n == 0 || !inside.contains(from),
    decreases n,
{
    if n == 0 {
        assert(input =~= input + Seq::<char>::empty());
        Leaving { k: 0, at: from, first: input, rest: Seq::empty() }
    } else {
        let (mid, label) = choose|mid: PNFATarget, label: Label|
            ends_with(input, label) && walk(whole, (n - 1) as nat, from, before(input, label), mid)
                && #[trigger] edge(whole, mid, label, to);
        let l = lemma_walk_leaves(
            whole,
            part,
            inside,
            (n - 1) as nat,
            from,
            before(input, label),
            mid,
        );
        if inside.contains(l.at) {
            // the walk so far is all in the part, and so is the last transition
            assert(l.at == mid && l.rest.len() == 0);
            assert(l.first =~= before(input, label));
            let q = mid->State_0;
            assert(edge(part, PNFATarget::State(q), label, to));
            lemma_walk_step(part, l.k, from, l.first, mid, label, to);
            assert(walk(whole, 0, to, Seq::empty(), to));
            match label {
                Some(c) => {
                    assert(input =~= before(input, label).push(c));
                },
                None => {},
            }
            assert(input =~= input + Seq::<char>::empty());
            Leaving { k: n, at: to, first: input, rest: Seq::empty() }
        } else {
            lemma_walk_step(whole, (n - 1 - l.k) as nat, l.at, l.rest, mid, label, to);
            let rest = match label {
                Some(c) => l.rest.push(c),
                None => l.rest,
            };
            match label {
                Some(c) => {
                    assert(input =~= before(input, label).push(c));
                    assert((l.first + l.rest).push(c) =~= l.first + l.rest.push(c));
                },
                None => {},
            }
            Leaving { k: l.k, at: l.at, first: l.first, rest }
        }
    }
}

/// The target `t` with its state, if it is one, renumbered from `s` to
/// `s + k`.
pub open spec fn shifted(t: PNFATarget, k: nat) -> PNFATarget {
    match t {
        PNFATarget::State(s) => PNFATarget::State((s + k) as usize),
        PNFATarget::Exit => PNFATarget::Exit,
    }
}

/// The target `t` with its state, if it is one, renumbered from `s` to
/// `s - k`.
pub open spec fn unshifted(t: PNFATarget, k: nat) -> PNFATarget {
    match t {
        PNFATarget::State(s) => PNFATarget::State((s - k) as usize),
        PNFATarget::Exit => PNFATarget::Exit,
    }
}

/// `t` is `Exit` or a state that is at least `k`.
pub open spec fn at_least(t: PNFATarget, k: nat) -> bool {
    t matches PNFATarget::State(s) ==> s >= k
}

/// A walk of a table is, with its states renumbered, a walk of the
/// renumbered table.
pub proof fn lemma_walk_shifted(
    table: TableModel,
    k: nat,
    bound: nat,
    n: nat,
    from: PNFATarget,
    input: Seq<char>,
    to: PNFATarget,
)
    requires
        states_below(table, bound as int),
        bound + k <= usize::MAX + 1,
        walk(table, n, from, input, to),
        from matches PNFATarget::State(q) ==> q < bound,
    ensures
        walk(shift_table(table, k), n, shifted(from, k), input, shifted(to, k)),
    decreases n,
{
    if n > 0 {
        let (mid, label) = choose|mid: PNFATarget, label: Label|
            ends_with(input, label) && walk(table, (n - 1) as nat, from, before(input, label), mid)
                && #[trigger] edge(table, mid, label, to);
        lemma_walk_shifted(table, k, bound, (n - 1) as nat, from, before(input, label), mid);
        lemma_walk_stays_below(
            table,
            bound as int,
            (n - 1) as nat,
            from,
            before(input, label),
            mid,
        );
        lemma_walk_stays_below(table, bound as int, n, from, input, to);
        let q = mid->State_0;
        let key: Key = ((q + k) as usize, label);
        assert(table.contains_key((q, label)));
        assert(((key.0 - k) as usize, key.1) == (q, label));
        assert(shift_table(table, k).contains_key(key));
        match to {
            PNFATarget::State(s) => {
                assert((((s + k) as usize) - k) as usize == s);
            },
            PNFATarget::Exit => {},
        }
        assert(edge(shift_table(table, k), shifted(mid, k), label, shifted(to, k)));
    }
}

/// A walk of a renumbered table is, with the renumbering undone, a walk of
/// the table.
pub proof fn lemma_walk_unshifted(
    table: TableModel,
    k: nat,
    n: nat,
    from: PNFATarget,
    input: Seq<char>,
    to: PNFATarget,
)
    requires
        walk(shift_table(table, k), n, from, input, to),
        at_least(from, k),
    ensures
        at_least(to, k),
        walk(table, n, unshifted(from, k), input, unshifted(to, k)),
    decreases n,
{
    if n > 0 {
        let moved = shift_table(table, k);
        let (mid, label) = choose|mid: PNFATarget, label: Label|
            ends_with(input, label) && walk(moved, (n - 1) as nat, from, before(input, label), mid)
                && #[trigger] edge(moved, mid, label, to);
        lemma_walk_unshifted(table, k, (n - 1) as nat, from, before(input, label), mid);
        let q = mid->State_0;
        assert(moved.contains_key((q, label)));
        assert(edge(table, unshifted(mid, k), label, unshifted(to, k)));
    }
}

/// No transition of `table` leaves the state `r` or leads to it.
pub open spec fn is_fresh(table: TableModel, r: usize) -> bool {
    forall|key: Key| #[trigger]
        table.contains_key(key) ==> key.0 != r && !table[key].contains(PNFATarget::State(r))
}

/// The target `t`, with the state `r` in place of `Exit`.
pub open spec fn redirected(t: PNFATarget, r: usize) -> PNFATarget {
    match t {
        PNFATarget::State(s) => t,
        PNFATarget::Exit => PNFATarget::State(r),
    }
}

/// The target `t`, with `Exit` in place of the state `r`.
pub open spec fn unredirected(t: PNFATarget, r: usize) -> PNFATarget {
    if t == PNFATarget::State(r) {
        PNFATarget::Exit
    } else {
        t
    }
}

/// A walk of a table is, with a new state in place of `Exit`, a walk of the
/// table whose exits lead to that state.
pub proof fn lemma_walk_redirected(
    table: TableModel,
    r: usize,
    n: nat,
    from: PNFATarget,
    input: Seq<char>,
    to: PNFATarget,
)
    requires
        is_fresh(table, r),
        walk(table, n, from, input, to),
        from != PNFATarget::State(r),
    ensures
        walk(redirect_table(table, r), n, redirected(from, r), input, redirected(to, r)),
    decreases n,
{
    if n > 0 {
        let (mid, label) = choose|mid: PNFATarget, label: Label|
            ends_with(input, label) && walk(table, (n - 1) as nat, from, before(input, label), mid)
                && #[trigger] edge(table, mid, label, to);
        lemma_walk_redirected(table, r, (n - 1) as nat, from, before(input, label), mid);
        let q = mid->State_0;
        assert(table.contains_key((q, label)));
        assert(redirect_table(table, r).contains_key((q, label)));
        assert(edge(redirect_table(table, r), mid, label, redirected(to, r)));
    }
}

/// A walk of a table whose exits lead to a new state is, with `Exit` in
/// place of that state, a walk of the table as it was. It does not end at
/// `Exit`.
pub proof fn lemma_walk_unredirected(
    table: TableModel,
    r: usize,
    n: nat,
    from: PNFATarget,
    input: Seq<char>,
    to: PNFATarget,
)
    requires
        is_fresh(table, r),
        walk(redirect_table(table, r), n, from, input, to),
        from != PNFATarget::Exit,
    ensures
        to != PNFATarget::Exit,
        walk(table, n, unredirected(from, r), input, unredirected(to, r)),
    decreases n,
{
    if n > 0 {
        let led = redirect_table(table, r);
        let (mid, label) = choose|mid: PNFATarget, label: Label|
            ends_with(input, label) && walk(led, (n - 1) as nat, from, before(input, label), mid)
                && #[trigger] edge(led, mid, label, to);
        lemma_walk_unredirected(table, r, (n - 1) as nat, from, before(input, label), mid);
        let q = mid->State_0;
        assert(led.contains_key((q, label)));
        assert(table.contains_key((q, label)));
        assert(led[(q, label)] == redirect_targets(table[(q, label)], r));
        assert(edge(table, mid, label, unredirected(to, r)));
    }
}

} // verus!

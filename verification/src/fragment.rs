//! The mathematical form of fragments: tables as maps, what renumbering
//! and leading the exits elsewhere do to a table, and what each operation
//! makes of the fragments that it is given.

use vstd::prelude::*;
use crate::partial_nfa::PNFATarget;
use crate::table::Key;
use crate::walk::reaches;

verus! {

/// The mathematical form of a fragment's transition table.
pub type TableModel = Map<Key, Set<PNFATarget>>;

/// Every state that `table` mentions, as the source of a transition or as
/// its target, is less than `bound`.
pub open spec fn states_below(table: TableModel, bound: int) -> bool {
    forall|key: Key| #[trigger]
        table.contains_key(key) ==> key.0 < bound && forall|s: usize| #[trigger]
            table[key].contains(PNFATarget::State(s)) ==> s < bound
}

/// The targets `targets` with each state renumbered from `s` to `s + k`.
/// `Exit` stays `Exit`.
pub open spec fn shift_targets(targets: Set<PNFATarget>, k: nat) -> Set<PNFATarget> {
    Set::new(
        |target: PNFATarget|
            match target {
                PNFATarget::State(s) => s >= k && targets.contains(
                    PNFATarget::State((s - k) as usize),
                ),
                PNFATarget::Exit => targets.contains(PNFATarget::Exit),
            },
    )
}

/// The table `table` with each state renumbered from `s` to `s + k`, in the
/// keys and in the targets.
pub open spec fn shift_table(table: TableModel, k: nat) -> TableModel {
    Map::new(
        |key: Key| key.0 >= k && table.contains_key(((key.0 - k) as usize, key.1)),
        |key: Key| shift_targets(table[((key.0 - k) as usize, key.1)], k),
    )
}

/// The targets `targets` with `Exit`, if it is among them, replaced by the
/// state `n`.
pub open spec fn redirect_targets(targets: Set<PNFATarget>, n: usize) -> Set<PNFATarget> {
    if targets.contains(PNFATarget::Exit) {
        targets.remove(PNFATarget::Exit).insert(PNFATarget::State(n))
    } else {
        targets
    }
}

/// The table `table` with every `Exit` replaced by the state `n`.
pub open spec fn redirect_table(table: TableModel, n: usize) -> TableModel {
    table.map_values(|targets: Set<PNFATarget>| redirect_targets(targets, n))
}

/// `count` is the number of states that the keys of `table` use, counted as
/// the largest state among the keys plus one, and as 1 for a table without
/// keys.
pub open spec fn is_state_count(table: TableModel, count: nat) -> bool {
    &&& count >= 1
    &&& forall|key: Key| #[trigger] table.contains_key(key) ==> key.0 < count
    &&& count == 1 || exists|key: Key| #[trigger] table.contains_key(key) && key.0 + 1 == count
}

/// The mathematical form of a fragment.
#[verifier::ext_equal]
pub struct Fragment {
    /// The targets of each state under each label.
    pub table: TableModel,
    /// The state in which the fragment is entered.
    pub entry: nat,
    /// The number of states.
    pub num_states: nat,
}

impl Fragment {
    /// The states are numbered as the operations number them: the
    /// fragment is entered in state 0, its states are the numbers below
    /// `num_states`, its last state has a transition, and no transition
    /// leads to a state that it does not have.
    pub open spec fn well_numbered(self) -> bool {
        &&& self.entry == 0
        &&& states_below(self.table, self.num_states as int)
        &&& exists|key: Key| #[trigger] self.table.contains_key(key) && key.0 + 1 == self.num_states
    }

    /// The fragment accepts `input`: a walk from its entry to `Exit`
    /// consumes `input`.
    pub open spec fn accepts(self, input: Seq<char>) -> bool {
        reaches(self.table, PNFATarget::State(self.entry as usize), input, PNFATarget::Exit)
    }

    /// What holds of every fragment that the operations build: its states
    /// are numbered as the operations number them, and a walk leads from
    /// its entry to `Exit`.
    pub open spec fn wf(self) -> bool {
        &&& self.well_numbered()
        &&& exists|input: Seq<char>| self.accepts(input)
    }

    /// One state, with one transition: under `c`, to `Exit`.
    pub open spec fn single_symbol(c: char) -> Fragment {
        Fragment {
            table: Map::<Key, Set<PNFATarget>>::empty().insert(
                (0, Some(c)),
                set![PNFATarget::Exit],
            ),
            entry: 0,
            num_states: 1,
        }
    }

    /// `self`, then `other`: the states of `other` follow those of `self`,
    /// and the exits of `self` lead to the entry of `other`.
    pub open spec fn concatenate(self, other: Fragment) -> Fragment {
        let m = self.num_states;
        Fragment {
            table: redirect_table(self.table, (other.entry + m) as usize).union_prefer_right(
                shift_table(other.table, m),
            ),
            entry: self.entry,
            num_states: m + other.num_states,
        }
    }

    /// `self` or `other`: a new state 0 leads, without a symbol, to the
    /// entries of both; the states of `self` follow it, then those of
    /// `other`. The exits of both stay exits.
    pub open spec fn alternate(self, other: Fragment) -> Fragment {
        let m = self.num_states;
        Fragment {
            table: shift_table(self.table, 1).union_prefer_right(
                shift_table(other.table, m + 1),
            ).insert(
                (0, None),
                set![
                    PNFATarget::State((self.entry + 1) as usize),
                    PNFATarget::State((other.entry + m + 1) as usize)
                ],
            ),
            entry: 0,
            num_states: 1 + m + other.num_states,
        }
    }

    /// `self` or nothing: a new state 0 leads, without a symbol, to the
    /// entry of `self` and to `Exit`. The exits of `self` stay exits.
    pub open spec fn optional(self) -> Fragment {
        Fragment {
            table: shift_table(self.table, 1).insert(
                (0, None),
                set![PNFATarget::State((self.entry + 1) as usize), PNFATarget::Exit],
            ),
            entry: 0,
            num_states: 1 + self.num_states,
        }
    }

    /// `self` any number of times: a new state 0 leads, without a symbol,
    /// to the entry of `self` and to `Exit`; the exits of `self` lead back
    /// to state 0.
    pub open spec fn star(self) -> Fragment {
        Fragment {
            table: redirect_table(shift_table(self.table, 1), 0).insert(
                (0, None),
                set![PNFATarget::State((self.entry + 1) as usize), PNFATarget::Exit],
            ),
            entry: 0,
            num_states: 1 + self.num_states,
        }
    }

    /// `self` once or more: the exits of `self` lead to a new last state,
    /// which leads, without a symbol, back to the entry of `self` and to
    /// `Exit`.
    pub open spec fn plus(self) -> Fragment {
        let m = self.num_states;
        Fragment {
            table: redirect_table(self.table, m as usize).insert(
                (m as usize, None),
                set![PNFATarget::State(self.entry as usize), PNFATarget::Exit],
            ),
            entry: self.entry,
            num_states: m + 1,
        }
    }
}

/// A table has one number of states.
pub proof fn lemma_state_count_unique(table: TableModel, a: nat, b: nat)
    requires
        is_state_count(table, a),
        is_state_count(table, b),
    ensures
        a == b,
{
    if a != 1 {
        let key = choose|key: Key| #[trigger] table.contains_key(key) && key.0 + 1 == a;
        assert(table.contains_key(key));
    }
    if b != 1 {
        let key = choose|key: Key| #[trigger] table.contains_key(key) && key.0 + 1 == b;
        assert(table.contains_key(key));
    }
}

/// Renumbering by `k` moves every state up by `k`, and keeps every key.
pub proof fn lemma_shift_table(table: TableModel, k: nat, bound: nat)
    requires
        states_below(table, bound as int),
        bound + k <= usize::MAX + 1,
    ensures
        states_below(shift_table(table, k), (bound + k) as int),
        forall|key: Key| #[trigger]
            table.contains_key(key) ==> shift_table(table, k).contains_key(
                ((key.0 + k) as usize, key.1),
            ),
        forall|key: Key| #[trigger] shift_table(table, k).contains_key(key) ==> key.0 >= k,
{
    let shifted = shift_table(table, k);
    assert forall|key: Key| #[trigger] shifted.contains_key(key) implies key.0 < bound + k
        && forall|s: usize| #[trigger]
        shifted[key].contains(PNFATarget::State(s)) ==> s < bound + k by {
        let source = ((key.0 - k) as usize, key.1);
        assert(table.contains_key(source));
        assert forall|s: usize| #[trigger]
            shifted[key].contains(PNFATarget::State(s)) implies s < bound + k by {
            assert(table[source].contains(PNFATarget::State((s - k) as usize)));
        }
    }
    assert forall|key: Key| #[trigger] table.contains_key(key) implies shifted.contains_key(
        ((key.0 + k) as usize, key.1),
    ) by {
        let image = ((key.0 + k) as usize, key.1);
        assert(((image.0 - k) as usize, image.1) == key);
    }
}

/// Replacing `Exit` by a state keeps the keys, and keeps the states below
/// a bound that the new state is below too.
pub proof fn lemma_redirect_table(table: TableModel, n: usize, bound: nat)
    requires
        states_below(table, bound as int),
        n < bound,
    ensures
        states_below(redirect_table(table, n), bound as int),
        redirect_table(table, n).dom() == table.dom(),
        forall|key: Key| #[trigger]
            table.contains_key(key) ==> !redirect_table(table, n)[key].contains(
                PNFATarget::Exit,
            ),
{
    let redirected = redirect_table(table, n);
    assert(redirected.dom() =~= table.dom());
    assert forall|key: Key| #[trigger] redirected.contains_key(key) implies key.0 < bound
        && forall|s: usize| #[trigger]
        redirected[key].contains(PNFATarget::State(s)) ==> s < bound by {
        assert(table.contains_key(key));
        assert forall|s: usize| #[trigger]
            redirected[key].contains(PNFATarget::State(s)) implies s < bound by {
            if s != n {
                assert(table[key].contains(PNFATarget::State(s)));
            }
        }
    }
}

impl Fragment {
    /// A well-numbered fragment has as many states as its table's keys use.
    pub proof fn lemma_state_count(self)
        requires
            self.well_numbered(),
        ensures
            is_state_count(self.table, self.num_states),
    {
        let key = choose|key: Key| #[trigger]
            self.table.contains_key(key) && key.0 + 1 == self.num_states;
        assert(self.table.contains_key(key));
    }

    /// The fragment for one symbol is well-numbered.
    pub proof fn lemma_single_symbol_well_numbered(c: char)
        ensures
            Fragment::single_symbol(c).well_numbered(),
    {
        let f = Fragment::single_symbol(c);
        assert(f.table.contains_key((0usize, Some(c))));
    }

    /// Concatenation keeps fragments well-numbered.
    pub proof fn lemma_concatenate_well_numbered(self, other: Fragment)
        requires
            self.well_numbered(),
            other.well_numbered(),
            self.num_states + other.num_states <= usize::MAX,
        ensures
            self.concatenate(other).well_numbered(),
    {
        let m = self.num_states;
        let total = m + other.num_states;
        let f = self.concatenate(other);
        let left = redirect_table(self.table, m as usize);
        let right = shift_table(other.table, m);
        lemma_redirect_table(self.table, m as usize, total);
        lemma_shift_table(other.table, m, other.num_states);
        assert forall|key: Key| #[trigger] f.table.contains_key(key) implies key.0 < total
            && forall|s: usize| #[trigger]
            f.table[key].contains(PNFATarget::State(s)) ==> s < total by {
            if right.contains_key(key) {
            } else {
                assert(left.contains_key(key));
            }
        }
        let last = choose|key: Key| #[trigger]
            other.table.contains_key(key) && key.0 + 1 == other.num_states;
        assert(other.table.contains_key(last));
        assert(f.table.contains_key(((last.0 + m) as usize, last.1)));
    }

    /// Alternation keeps fragments well-numbered.
    pub proof fn lemma_alternate_well_numbered(self, other: Fragment)
        requires
            self.well_numbered(),
            other.well_numbered(),
            1 + self.num_states + other.num_states <= usize::MAX,
        ensures
            self.alternate(other).well_numbered(),
    {
        let m = self.num_states;
        let total = 1 + m + other.num_states;
        let f = self.alternate(other);
        let left = shift_table(self.table, 1);
        let right = shift_table(other.table, m + 1);
        lemma_shift_table(self.table, 1, m);
        lemma_shift_table(other.table, m + 1, other.num_states);
        assert forall|key: Key| #[trigger] f.table.contains_key(key) implies key.0 < total
            && forall|s: usize| #[trigger]
            f.table[key].contains(PNFATarget::State(s)) ==> s < total by {
            if key == (0usize, None::<char>) {
            } else if right.contains_key(key) {
            } else {
                assert(left.contains_key(key));
            }
        }
        let last = choose|key: Key| #[trigger]
            other.table.contains_key(key) && key.0 + 1 == other.num_states;
        assert(other.table.contains_key(last));
        assert(right.contains_key(((last.0 + m + 1) as usize, last.1)));
        assert(f.table.contains_key(((last.0 + m + 1) as usize, last.1)));
    }

    /// Making a fragment optional keeps it well-numbered.
    pub proof fn lemma_optional_well_numbered(self)
        requires
            self.well_numbered(),
            1 + self.num_states <= usize::MAX,
        ensures
            self.optional().well_numbered(),
    {
        let total = 1 + self.num_states;
        let f = self.optional();
        let body = shift_table(self.table, 1);
        lemma_shift_table(self.table, 1, self.num_states);
        assert forall|key: Key| #[trigger] f.table.contains_key(key) implies key.0 < total
            && forall|s: usize| #[trigger]
            f.table[key].contains(PNFATarget::State(s)) ==> s < total by {
            if key == (0usize, None::<char>) {
            } else {
                assert(body.contains_key(key));
            }
        }
        let last = choose|key: Key| #[trigger]
            self.table.contains_key(key) && key.0 + 1 == self.num_states;
        assert(self.table.contains_key(last));
        assert(body.contains_key(((last.0 + 1) as usize, last.1)));
        assert(f.table.contains_key(((last.0 + 1) as usize, last.1)));
    }

    /// Repeating a fragment any number of times keeps it well-numbered.
    pub proof fn lemma_star_well_numbered(self)
        requires
            self.well_numbered(),
            1 + self.num_states <= usize::MAX,
        ensures
            self.star().well_numbered(),
    {
        let total = 1 + self.num_states;
        let f = self.star();
        let shifted = shift_table(self.table, 1);
        let body = redirect_table(shifted, 0);
        lemma_shift_table(self.table, 1, self.num_states);
        lemma_redirect_table(shifted, 0, total);
        assert forall|key: Key| #[trigger] f.table.contains_key(key) implies key.0 < total
            && forall|s: usize| #[trigger]
            f.table[key].contains(PNFATarget::State(s)) ==> s < total by {
            if key == (0usize, None::<char>) {
            } else {
                assert(body.contains_key(key));
            }
        }
        let last = choose|key: Key| #[trigger]
            self.table.contains_key(key) && key.0 + 1 == self.num_states;
        assert(self.table.contains_key(last));
        assert(shifted.contains_key(((last.0 + 1) as usize, last.1)));
        assert(body.contains_key(((last.0 + 1) as usize, last.1)));
        assert(f.table.contains_key(((last.0 + 1) as usize, last.1)));
    }

    /// Repeating a fragment once or more keeps it well-numbered.
    pub proof fn lemma_plus_well_numbered(self)
        requires
            self.well_numbered(),
            1 + self.num_states <= usize::MAX,
        ensures
            self.plus().well_numbered(),
    {
        let m = self.num_states;
        let total = 1 + m;
        let f = self.plus();
        let body = redirect_table(self.table, m as usize);
        lemma_redirect_table(self.table, m as usize, total);
        assert forall|key: Key| #[trigger] f.table.contains_key(key) implies key.0 < total
            && forall|s: usize| #[trigger]
            f.table[key].contains(PNFATarget::State(s)) ==> s < total by {
            if key == (m as usize, None::<char>) {
            } else {
                assert(body.contains_key(key));
            }
        }
        assert(f.table.contains_key((m as usize, None::<char>)));
    }
}

} // verus!

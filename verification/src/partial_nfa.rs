//! Automaton fragments and the operations that combine them.
//!
//! A fragment is a piece of an automaton whose transitions may lead to
//! `Exit`, a placeholder for "out of this fragment". Its states are numbered
//! from 0. Combining two fragments renumbers the states of one of them and
//! says where the exits of the parts lead.

use vstd::prelude::*;
use crate::state_set::StateSet;
use crate::table::{Key, Table};
use crate::fragment::{
    is_state_count, lemma_state_count_unique, redirect_table, redirect_targets, shift_table,
    shift_targets, states_below, Fragment,
};

verus! {

/// Where a transition of a fragment leads: to a state of the fragment, or
/// out of it.
#[derive(PartialEq, Eq, Structural, Clone, Copy, Debug, Hash)]
pub enum PNFATarget {
    State(usize),
    Exit,
}

/// A finite set of targets.
///
/// The view is the mathematical set of the members.
#[derive(Debug)]
pub struct PNFATargetSet {
    states: StateSet,
    exit: bool,
}

impl View for PNFATargetSet {
    type V = Set<PNFATarget>;

    closed spec fn view(&self) -> Set<PNFATarget> {
        Set::new(
            |target: PNFATarget|
                match target {
                    PNFATarget::State(s) => self.states@.contains(s),
                    PNFATarget::Exit => self.exit,
                },
        )
    }
}

impl PNFATargetSet {
    /// The empty set.
    pub fn new() -> (set: PNFATargetSet)
        ensures
            set@ == Set::<PNFATarget>::empty(),
    {
        let set = PNFATargetSet { states: StateSet::new(), exit: false };
        assert(set@ =~= Set::<PNFATarget>::empty());
        set
    }

    /// The states among the members.
    pub fn states(&self) -> (states: &StateSet)
        ensures
            forall|s: usize| states@.contains(s) <==> self@.contains(PNFATarget::State(s)),
    {
        &self.states
    }

    /// Tells whether `target` is a member.
    pub fn contains(&self, target: PNFATarget) -> (b: bool)
        ensures
            b == self@.contains(target),
    {
        match target {
            PNFATarget::State(s) => self.states.contains(s),
            PNFATarget::Exit => self.exit,
        }
    }

    /// Adds `target`, and tells whether it was new.
    pub fn insert(&mut self, target: PNFATarget) -> (fresh: bool)
        ensures
            fresh == !old(self)@.contains(target),
            final(self)@ == old(self)@.insert(target),
    {
        let fresh = match target {
            PNFATarget::State(s) => self.states.insert(s),
            PNFATarget::Exit => {
                let fresh = !self.exit;
                self.exit = true;
                fresh
            },
        };
        proof {
            assert forall|t: PNFATarget| self@.contains(t) <==> old(self)@.insert(
                target,
            ).contains(t) by {
                match t {
                    PNFATarget::State(s) => {},
                    PNFATarget::Exit => {},
                }
            }
            assert(self@ =~= old(self)@.insert(target));
        }
        fresh
    }

    /// Removes `target`, and tells whether it was a member.
    pub fn remove(&mut self, target: PNFATarget) -> (found: bool)
        ensures
            found == old(self)@.contains(target),
            final(self)@ == old(self)@.remove(target),
    {
        let found = match target {
            PNFATarget::State(s) => self.states.remove(s),
            PNFATarget::Exit => {
                let found = self.exit;
                self.exit = false;
                found
            },
        };
        proof {
            assert forall|t: PNFATarget| self@.contains(t) <==> old(self)@.remove(
                target,
            ).contains(t) by {
                match t {
                    PNFATarget::State(s) => {},
                    PNFATarget::Exit => {},
                }
            }
            assert(self@ =~= old(self)@.remove(target));
        }
        found
    }
}

impl PartialEq for PNFATargetSet {
    /// Two sets are equal when they have the same members.
    fn eq(&self, other: &PNFATargetSet) -> (same: bool) {
        let same = self.exit == other.exit && self.states == other.states;
        proof {
            if same {
                assert(self@ =~= other@);
            } else if self.exit != other.exit {
                assert(self@.contains(PNFATarget::Exit) != other@.contains(PNFATarget::Exit));
            } else {
                assert(!(self.states@ =~= other.states@));
                let s = choose|s: usize| self.states@.contains(s) != other.states@.contains(s);
                assert(self@.contains(PNFATarget::State(s)) != other@.contains(
                    PNFATarget::State(s),
                ));
            }
        }
        same
    }
}

impl vstd::std_specs::cmp::PartialEqSpecImpl for PNFATargetSet {
    open spec fn obeys_eq_spec() -> bool {
        true
    }

    open spec fn eq_spec(&self, other: &PNFATargetSet) -> bool {
        self@ == other@
    }
}

impl Clone for PNFATargetSet {
    fn clone(&self) -> (copy: PNFATargetSet)
        ensures
            copy@ == self@,
    {
        PNFATargetSet { states: self.states.clone(), exit: self.exit }
    }
}

/// The transition table of a fragment: the targets of each state under each
/// label.
pub type TransitionTable = Table<PNFATargetSet>;

/// The key `key` with its state renumbered from `s` to `s + k`.
fn shift_key(key: Key, k: usize) -> (shifted: Key)
    requires
        key.0 + k <= usize::MAX,
    ensures
        shifted == ((key.0 + k) as usize, key.1),
{
    (key.0 + k, key.1)
}

/// The targets `targets` with each state renumbered from `s` to `s + k`.
fn shift_val(targets: &PNFATargetSet, k: usize) -> (shifted: PNFATargetSet)
    requires
        forall|s: usize| targets@.contains(PNFATarget::State(s)) ==> s + k <= usize::MAX,
    ensures
        shifted@ == shift_targets(targets@, k as nat),
{
    let mut new_set = PNFATargetSet::new();
    let states = targets.states();
    let mut i: usize = 0;
    while i < states.len()
        invariant
            i <= states.order().len(),
            forall|s: usize| states@.contains(s) <==> targets@.contains(PNFATarget::State(s)),
            forall|s: usize| targets@.contains(PNFATarget::State(s)) ==> s + k <= usize::MAX,
            !new_set@.contains(PNFATarget::Exit),
            forall|s: usize|
                new_set@.contains(PNFATarget::State(s)) <==> s >= k && exists|j: int|
                    0 <= j < i && states.order()[j] == s - k,
        decreases states.order().len() - i,
    {
        let s = states.get(i);
        let ghost before = new_set@;
        new_set.insert(PNFATarget::State(s + k));
        i += 1;
        assert forall|t: usize|
            new_set@.contains(PNFATarget::State(t)) <==> t >= k && exists|j: int|
                0 <= j < i && states.order()[j] == t - k by {
            if t == s + k {
                assert(states.order()[i - 1] == t - k);
            } else if before.contains(PNFATarget::State(t)) {
            }
        }
    }
    let ghost renumbered = new_set@;
    if targets.contains(PNFATarget::Exit) {
        new_set.insert(PNFATarget::Exit);
    }
    proof {
        assert forall|t: PNFATarget| new_set@.contains(t) <==> shift_targets(
            targets@,
            k as nat,
        ).contains(t) by {
            match t {
                PNFATarget::State(s) => {
                    assert(new_set@.contains(t) <==> renumbered.contains(t));
                    if s >= k {
                        let source = (s - k) as usize;
                        if targets@.contains(PNFATarget::State(source)) {
                            assert(states@.contains(source));
                            assert(states.order().contains(source));
                            let j = states.order().index_of(source);
                            assert(states.order()[j] == s - k);
                        }
                        if renumbered.contains(t) {
                            let j = choose|j: int|
                                0 <= j < states.order().len() && states.order()[j] == s - k;
                            assert(states.order().contains(states.order()[j]));
                            assert(states@.contains(source));
                        }
                    }
                },
                PNFATarget::Exit => {},
            }
        }
        assert(new_set@ =~= shift_targets(targets@, k as nat));
    }
    new_set
}

/// Renumbers the states of a table: each state `s`, in a key or in a
/// target, becomes `s + n`.
pub fn create_shifted_table(table: &TransitionTable, n: usize) -> (shifted: TransitionTable)
    requires
        states_below(table@, usize::MAX + 1 - n),
    ensures
        shifted@ == shift_table(table@, n as nat),
{
    let mut new: TransitionTable = Table::new();
    let len = table.len();
    let ghost keys = table.keys();
    let mut i: usize = 0;
    while i < len
        invariant
            i <= len,
            len == keys.len(),
            keys == table.keys(),
            keys.no_duplicates(),
            states_below(table@, usize::MAX + 1 - n),
            forall|key: Key| #[trigger]
                new@.contains_key(key) <==> key.0 >= n && exists|j: int|
                    0 <= j < i && keys[j] == ((key.0 - n) as usize, key.1),
            forall|key: Key| #[trigger]
                new@.contains_key(key) ==> new@[key] == shift_targets(
                    table@[((key.0 - n) as usize, key.1)],
                    n as nat,
                ),
        decreases len - i,
    {
        let key = table.key_at(i);
        let value = table.value_at(i);
        let ghost before = new@;
        let ghost new_key = ((key.0 + n) as usize, key.1);
        new.insert(shift_key(key, n), shift_val(value, n));
        i += 1;
        assert forall|k: Key| #[trigger]
            new@.contains_key(k) <==> k.0 >= n && exists|j: int|
                0 <= j < i && keys[j] == ((k.0 - n) as usize, k.1) by {
            if k == new_key {
                assert(keys[i - 1] == ((k.0 - n) as usize, k.1));
            } else if before.contains_key(k) {
            }
        }
    }
    proof {
        assert forall|key: Key| #[trigger]
            new@.contains_key(key) <==> shift_table(table@, n as nat).contains_key(key) by {
            let source = ((key.0 - n) as usize, key.1);
            if key.0 >= n && table@.contains_key(source) {
                let j = keys.index_of(source);
                assert(keys[j] == source);
            }
        }
        assert(new@ =~= shift_table(table@, n as nat));
    }
    new
}

/// Replaces every `Exit` in a table by the state `n`.
pub fn redirect_exit_targets(table: &mut TransitionTable, n: usize)
    ensures
        final(table)@ == redirect_table(old(table)@, n),
{
    let len = table.len();
    let ghost keys = table.keys();
    let mut i: usize = 0;
    while i < len
        invariant
            i <= len,
            len == keys.len(),
            keys == table.keys(),
            keys == old(table).keys(),
            keys.no_duplicates(),
            forall|j: int|
                0 <= j < i ==> table@[#[trigger] keys[j]] == redirect_targets(
                    old(table)@[keys[j]],
                    n,
                ),
            forall|j: int| i <= j < len ==> table@[#[trigger] keys[j]] == old(table)@[keys[j]],
        decreases len - i,
    {
        let key = table.key_at(i);
        let value = table.value_at(i);
        if value.contains(PNFATarget::Exit) {
            let mut redirected = value.clone();
            redirected.remove(PNFATarget::Exit);
            redirected.insert(PNFATarget::State(n));
            table.insert(key, redirected);
        }
        i += 1;
    }
    proof {
        assert forall|key: Key| #[trigger] table@.contains_key(key) implies table@[key]
            == redirect_targets(old(table)@[key], n) by {
            let j = keys.index_of(key);
            assert(keys[j] == key);
        }
        assert(table@ =~= redirect_table(old(table)@, n));
    }
}

/// Moves the contents of `table2` into `table1`. Where both have a key,
/// the value of `table2` replaces that of `table1`.
pub fn add_table(table1: &mut TransitionTable, table2: TransitionTable)
    ensures
        final(table1)@ == old(table1)@.union_prefer_right(table2@),
{
    let mut rest = table2;
    loop
        invariant
            forall|key: Key|
                table2@.contains_key(key) && !rest@.contains_key(key) ==> #[trigger]
                table1@.contains_key(key) && table1@[key] == table2@[key],
            forall|key: Key| #[trigger]
                rest@.contains_key(key) ==> table2@.contains_key(key) && rest@[key]
                    == table2@[key],
            forall|key: Key|
                !table2@.contains_key(key) || rest@.contains_key(key) ==> (
                #[trigger] table1@.contains_key(key) <==> old(table1)@.contains_key(key)),
            forall|key: Key|
                (!table2@.contains_key(key) || rest@.contains_key(key)) && #[trigger]
                table1@.contains_key(key) ==> table1@[key] == old(table1)@[key],
        ensures
            rest.keys().len() == 0,
        decreases rest.keys().len(),
    {
        match rest.pop() {
            Some((key, value)) => {
                table1.insert(key, value);
            },
            None => {
                break ;
            },
        }
    }
    proof {
        assert forall|key: Key| !rest@.contains_key(key) by {
            if rest.keys().contains(key) {
                let j = rest.keys().index_of(key);
            }
        }
        assert(table1@ =~= old(table1)@.union_prefer_right(table2@));
    }
}

/// A fragment of an automaton: a transition table whose targets may be
/// `Exit`, the state in which it is entered, and the number of its states.
#[derive(Debug)]
pub struct PNFA {
    pub table: TransitionTable,
    pub entry: usize,
    pub num_states: usize,
}

impl View for PNFA {
    type V = Fragment;

    open spec fn view(&self) -> Fragment {
        Fragment {
            table: self.table@,
            entry: self.entry as nat,
            num_states: self.num_states as nat,
        }
    }
}

impl Clone for PNFA {
    fn clone(&self) -> (copy: PNFA)
        ensures
            copy@ == self@,
    {
        let table = self.table.clone();
        proof {
            assert forall|key: Key| #[trigger] table@.contains_key(key) implies table@[key]
                == self.table@[key] by {
                let i = table.keys().index_of(key);
                assert(table.keys()[i] == key);
                table.lemma_view_at(i);
                self.table.lemma_view_at(i);
            }
            assert(table@ =~= self.table@);
        }
        PNFA { table, entry: self.entry, num_states: self.num_states }
    }
}

/// Tells whether each key of `first` is a key of `second`, with the same
/// targets.
fn is_within(first: &TransitionTable, second: &TransitionTable) -> (within: bool)
    ensures
        within == first@.submap_of(second@),
{
    let len = first.len();
    let mut i: usize = 0;
    while i < len
        invariant
            i <= len,
            len == first.keys().len(),
            forall|j: int|
                0 <= j < i ==> second@.contains_key(#[trigger] first.keys()[j])
                    && second@[first.keys()[j]] == first@[first.keys()[j]],
        decreases len - i,
    {
        let key = first.key_at(i);
        let same = match second.find(&key) {
            Some(targets) => *targets == *first.value_at(i),
            None => false,
        };
        if !same {
            return false;
        }
        i += 1;
    }
    proof {
        assert forall|key: Key| #[trigger] first@.contains_key(key) implies second@.contains_key(
            key,
        ) && second@[key] == first@[key] by {
            let j = first.keys().index_of(key);
            assert(first.keys()[j] == key);
        }
    }
    true
}

impl PartialEq for PNFA {
    /// Two fragments are equal when they have the same transitions, the
    /// same entry and the same number of states.
    fn eq(&self, other: &PNFA) -> (same: bool) {
        let same = self.entry == other.entry && self.num_states == other.num_states && is_within(
            &self.table,
            &other.table,
        ) && is_within(&other.table, &self.table);
        proof {
            if same {
                let (a, b) = (self.table@, other.table@);
                assert forall|key: Key| a.contains_key(key) <==> b.contains_key(key) by {
                    assert(a.dom().contains(key) ==> b.dom().contains(key));
                    assert(b.dom().contains(key) ==> a.dom().contains(key));
                }
                assert forall|key: Key| a.contains_key(key) implies a[key] == b[key] by {
                    assert(a.dom().contains(key));
                }
                assert(a =~= b);
            }
        }
        same
    }
}

impl vstd::std_specs::cmp::PartialEqSpecImpl for PNFA {
    open spec fn obeys_eq_spec() -> bool {
        true
    }

    open spec fn eq_spec(&self, other: &PNFA) -> bool {
        self@ == other@
    }
}

impl Eq for PNFA {

}

impl Eq for PNFATargetSet {

}

/// The set of two targets.
fn pair(first: PNFATarget, second: PNFATarget) -> (set: PNFATargetSet)
    ensures
        set@ == set![first, second],
{
    let mut set = PNFATargetSet::new();
    set.insert(first);
    set.insert(second);
    assert(set@ =~= set![first, second]);
    set
}

impl PNFA {
    /// The fragment with the given table and entry. Its number of states
    /// is counted from the keys of the table.
    pub fn new(table: TransitionTable, entry: usize) -> (pnfa: PNFA)
        requires
            forall|key: Key| #[trigger] table@.contains_key(key) ==> key.0 < usize::MAX,
        ensures
            pnfa.table@ == table@,
            pnfa.entry == entry,
            is_state_count(table@, pnfa.num_states as nat),
    {
        let mut max: usize = 0;
        let len = table.len();
        let mut i: usize = 0;
        while i < len
            invariant
                i <= len,
                len == table.keys().len(),
                forall|j: int| 0 <= j < i ==> (#[trigger] table.keys()[j]).0 <= max,
                max == 0 || exists|j: int| 0 <= j < i && (#[trigger] table.keys()[j]).0 == max,
            decreases len - i,
        {
            let (state, _) = table.key_at(i);
            if state > max {
                max = state;
            }
            i += 1;
        }
        proof {
            assert forall|key: Key| #[trigger] table@.contains_key(key) implies key.0 <= max by {
                let j = table.keys().index_of(key);
                assert(table.keys()[j] == key);
            }
            if max != 0 {
                let j = choose|j: int| 0 <= j < len && (#[trigger] table.keys()[j]).0 == max;
                assert(table.keys().contains(table.keys()[j]));
                assert(table@.contains_key(table.keys()[j]));
            }
        }
        PNFA { table, entry, num_states: max + 1 }
    }

    /// The fragment that takes the one symbol `s`.
    pub fn single_symbol(s: char) -> (pnfa: PNFA)
        ensures
            pnfa@ == Fragment::single_symbol(s),
            pnfa@.wf(),
    {
        let mut t: TransitionTable = Table::new();
        let mut set = PNFATargetSet::new();
        set.insert(PNFATarget::Exit);
        t.insert((0, Some(s)), set);
        let pnfa = PNFA::new(t, 0);
        proof {
            let f = Fragment::single_symbol(s);
            assert(pnfa.table@ =~= f.table);
            Fragment::lemma_single_symbol_wf(s);
            f.lemma_state_count();
            lemma_state_count_unique(f.table, f.num_states, pnfa.num_states as nat);
        }
        pnfa
    }

    /// The fragment that takes what `n1` takes and then what `n2` takes.
    pub fn concatenate(n1: PNFA, n2: PNFA) -> (pnfa: PNFA)
        requires
            n1@.wf(),
            n2@.wf(),
            n1@.num_states + n2@.num_states <= usize::MAX,
        ensures
            pnfa@ == n1@.concatenate(n2@),
            pnfa@.wf(),
    {
        let mut pnfa = n1;
        let m = pnfa.num_states;
        let new_n2_table = create_shifted_table(&n2.table, m);
        redirect_exit_targets(&mut pnfa.table, n2.entry + m);
        add_table(&mut pnfa.table, new_n2_table);
        pnfa.num_states += n2.num_states;
        proof {
            n1@.lemma_concatenate_wf(n2@);
        }
        pnfa
    }

    /// The fragment that takes what `n1` takes or what `n2` takes.
    pub fn alternate(n1: PNFA, n2: PNFA) -> (pnfa: PNFA)
        requires
            n1@.wf(),
            n2@.wf(),
            1 + n1@.num_states + n2@.num_states <= usize::MAX,
        ensures
            pnfa@ == n1@.alternate(n2@),
            pnfa@.wf(),
    {
        let mut table: TransitionTable = Table::new();
        let m = n1.num_states;
        add_table(&mut table, create_shifted_table(&n1.table, 1));
        add_table(&mut table, create_shifted_table(&n2.table, m + 1));
        let set = pair(
            PNFATarget::State(n1.entry + 1),
            PNFATarget::State(n2.entry + m + 1),
        );
        table.insert((0, None), set);
        proof {
            let f = n1@.alternate(n2@);
            assert(table@ =~= f.table);
            n1@.lemma_alternate_wf(n2@);
            f.lemma_state_count();
        }
        let pnfa = PNFA::new(table, 0);
        proof {
            let f = n1@.alternate(n2@);
            lemma_state_count_unique(f.table, f.num_states, pnfa.num_states as nat);
        }
        pnfa
    }

    /// The fragment that takes what `n` takes, or nothing.
    pub fn optional(n: PNFA) -> (pnfa: PNFA)
        requires
            n@.wf(),
            1 + n@.num_states <= usize::MAX,
        ensures
            pnfa@ == n@.optional(),
            pnfa@.wf(),
    {
        let mut table: TransitionTable = Table::new();
        add_table(&mut table, create_shifted_table(&n.table, 1));
        let set = pair(PNFATarget::State(n.entry + 1), PNFATarget::Exit);
        table.insert((0, None), set);
        proof {
            let f = n@.optional();
            assert(table@ =~= f.table);
            n@.lemma_optional_wf();
            f.lemma_state_count();
        }
        let pnfa = PNFA::new(table, 0);
        proof {
            let f = n@.optional();
            lemma_state_count_unique(f.table, f.num_states, pnfa.num_states as nat);
        }
        pnfa
    }

    /// The fragment that takes what `n` takes, any number of times.
    pub fn star(n: PNFA) -> (pnfa: PNFA)
        requires
            n@.wf(),
            1 + n@.num_states <= usize::MAX,
        ensures
            pnfa@ == n@.star(),
            pnfa@.wf(),
    {
        let mut table: TransitionTable = Table::new();
        add_table(&mut table, create_shifted_table(&n.table, 1));
        redirect_exit_targets(&mut table, 0);
        let set = pair(PNFATarget::State(n.entry + 1), PNFATarget::Exit);
        table.insert((0, None), set);
        proof {
            let f = n@.star();
            assert(table@ =~= f.table);
            n@.lemma_star_wf();
            f.lemma_state_count();
        }
        let pnfa = PNFA::new(table, 0);
        proof {
            let f = n@.star();
            lemma_state_count_unique(f.table, f.num_states, pnfa.num_states as nat);
        }
        pnfa
    }

    /// The fragment that takes what `n` takes, once or more.
    pub fn plus(n: PNFA) -> (pnfa: PNFA)
        requires
            n@.wf(),
            1 + n@.num_states <= usize::MAX,
        ensures
            pnfa@ == n@.plus(),
            pnfa@.wf(),
    {
        let mut pnfa = n;
        let m = pnfa.num_states;
        redirect_exit_targets(&mut pnfa.table, m);
        let set = pair(PNFATarget::State(pnfa.entry), PNFATarget::Exit);
        pnfa.table.insert((m, None), set);
        pnfa.num_states = m + 1;
        proof {
            n@.lemma_plus_wf();
        }
        pnfa
    }
}

} // verus!

//! What an automaton accepts, said with walks: the run of an automaton on
//! an input, state set by state set, comes to the states to which a walk
//! from the initial state leads that consumes the input.

use vstd::prelude::*;
use crate::nfa::{resolve_targets, Automaton, NFAState};
use crate::fragment::{redirect_table, redirect_targets, Fragment, TableModel};
use crate::partial_nfa::PNFATarget;
use crate::table::{Key, Label};
use crate::walk::{
    before, edge, ends_with, is_fresh, lemma_walk_redirected, lemma_walk_step,
    lemma_walk_unredirected, reaches, walk,
};

verus! {

/// The states of `states`, as targets.
pub open spec fn as_targets(states: Set<NFAState>) -> Set<PNFATarget> {
    Set::new(|t: PNFATarget| t matches PNFATarget::State(q) && states.contains(q))
}

impl Automaton {
    /// The table of the automaton as a table of targets, none of which is
    /// `Exit`.
    pub open spec fn walks(self) -> TableModel {
        self.table.map_values(|states: Set<NFAState>| as_targets(states))
    }

    /// The states to which a walk from the initial state leads that
    /// consumes `input`.
    pub open spec fn reached(self, input: Seq<char>) -> Set<NFAState> {
        Set::new(
            |t: NFAState|
                reaches(
                    self.walks(),
                    PNFATarget::State(self.initial),
                    input,
                    PNFATarget::State(t),
                ),
        )
    }

    /// A transition of the table of targets is a transition of the
    /// automaton.
    pub proof fn lemma_walks_edge(self, q: NFAState, label: Label, t: NFAState)
        ensures
            edge(self.walks(), PNFATarget::State(q), label, PNFATarget::State(t))
                <==> self.successors(q, label).contains(t),
    {
    }

    /// The end of a walk from the initial state is among the states that
    /// the run on the consumed input comes to.
    proof fn lemma_walk_in_run(self, n: nat, input: Seq<char>, t: NFAState)
        requires
            walk(self.walks(), n, PNFATarget::State(self.initial), input, PNFATarget::State(t)),
        ensures
            self.closure(self.run(input)).contains(t),
        decreases n,
    {
        if n == 0 {
            self.lemma_closure_holds_start(self.run(input), t);
        } else {
            let (mid, label) = choose|mid: PNFATarget, label: Label|
                ends_with(input, label) && walk(
                    self.walks(),
                    (n - 1) as nat,
                    PNFATarget::State(self.initial),
                    before(input, label),
                    mid,
                ) && #[trigger] edge(self.walks(), mid, label, PNFATarget::State(t));
            let q = mid->State_0;
            self.lemma_walk_in_run((n - 1) as nat, before(input, label), q);
            self.lemma_walks_edge(q, label, t);
            match label {
                Some(c) => {
                    assert(self.run(input).contains(t));
                    self.lemma_closure_holds_start(self.run(input), t);
                },
                None => {
                    self.lemma_closure_holds_successor(self.run(input), q, t);
                },
            }
        }
    }

    /// The states that the run on an input makes active are ends of walks
    /// from the initial state that consume the input.
    proof fn lemma_run_in_reached(self, input: Seq<char>)
        ensures
            self.run(input).subset_of(self.reached(input)),
            self.closure(self.run(input)).subset_of(self.reached(input)),
        decreases input.len(),
    {
        let start = PNFATarget::State(self.initial);
        assert forall|t: NFAState| self.run(input).contains(t) implies self.reached(
            input,
        ).contains(t) by {
            if input.len() == 0 {
                assert(walk(self.walks(), 0, start, input, PNFATarget::State(t)));
            } else {
                let earlier = input.drop_last();
                let c = input.last();
                self.lemma_run_in_reached(earlier);
                let q = choose|q: NFAState|
                    self.closure(self.run(earlier)).contains(q) && #[trigger] self.successors(
                        q,
                        Some(c),
                    ).contains(t);
                assert(self.reached(earlier).contains(q));
                let n = choose|n: nat|
                    walk(self.walks(), n, start, earlier, PNFATarget::State(q));
                self.lemma_walks_edge(q, Some(c), t);
                lemma_walk_step(
                    self.walks(),
                    n,
                    start,
                    earlier,
                    PNFATarget::State(q),
                    Some(c),
                    PNFATarget::State(t),
                );
                assert(earlier.push(c) =~= input);
            }
        }
        assert(self.closed(self.reached(input))) by {
            assert forall|q: NFAState, t: NFAState|
                self.reached(input).contains(q) && #[trigger] self.successors(q, None).contains(
                    t,
                ) implies self.reached(input).contains(t) by {
                let n = choose|n: nat| walk(self.walks(), n, start, input, PNFATarget::State(q));
                self.lemma_walks_edge(q, None, t);
                lemma_walk_step(
                    self.walks(),
                    n,
                    start,
                    input,
                    PNFATarget::State(q),
                    None,
                    PNFATarget::State(t),
                );
            }
        }
        self.lemma_closure_least(self.run(input), self.reached(input));
    }

    /// After the symbols of an input, the states that the active states
    /// reach without consuming anything are the states to which a walk
    /// from the initial state leads that consumes the input.
    pub proof fn lemma_run_is_reached(self, input: Seq<char>)
        ensures
            self.closure(self.run(input)) == self.reached(input),
    {
        self.lemma_run_in_reached(input);
        assert forall|t: NFAState| self.reached(input).contains(t) implies self.closure(
            self.run(input),
        ).contains(t) by {
            let n = choose|n: nat|
                walk(
                    self.walks(),
                    n,
                    PNFATarget::State(self.initial),
                    input,
                    PNFATarget::State(t),
                );
            self.lemma_walk_in_run(n, input, t);
        }
        assert(self.closure(self.run(input)) =~= self.reached(input));
    }

    /// The automaton accepts an input when a walk leads from the initial
    /// state to an accepting state and consumes it.
    pub proof fn lemma_accepts_by_walk(self, input: Seq<char>)
        ensures
            self.accepts(input) <==> exists|t: NFAState|
                self.accept.contains(t) && #[trigger] reaches(
                    self.walks(),
                    PNFATarget::State(self.initial),
                    input,
                    PNFATarget::State(t),
                ),
    {
        self.lemma_run_is_reached(input);
        if self.accepts(input) {
            let t = choose|t: NFAState|
                self.closure(self.run(input)).contains(t) && self.accept.contains(t);
            assert(self.reached(input).contains(t));
        }
        if exists|t: NFAState|
            self.accept.contains(t) && #[trigger] reaches(
                self.walks(),
                PNFATarget::State(self.initial),
                input,
                PNFATarget::State(t),
            ) {
            let t = choose|t: NFAState|
                self.accept.contains(t) && #[trigger] reaches(
                    self.walks(),
                    PNFATarget::State(self.initial),
                    input,
                    PNFATarget::State(t),
                );
            assert(self.reached(input).contains(t));
        }
    }
}

impl Fragment {
    /// The automaton that a fragment becomes accepts what the fragment
    /// accepts.
    pub proof fn lemma_finalize_accepts(self, input: Seq<char>)
        requires
            self.well_numbered(),
            self.num_states <= usize::MAX,
        ensures
            self.finalize().accepts(input) <==> self.accepts(input),
    {
        let a = self.finalize();
        let m = self.num_states as usize;
        let led = redirect_table(self.table, m);
        let entry = PNFATarget::State(0);
        assert(a.walks() =~= led) by {
            assert forall|key: Key| #[trigger] led.contains_key(key) implies a.walks()[key]
                =~= led[key] by {
                assert(self.table.contains_key(key));
                let targets = self.table[key];
                assert(a.table[key] == resolve_targets(targets, m));
                assert forall|t: PNFATarget|
                    a.walks()[key].contains(t) <==> redirect_targets(targets, m).contains(t) by {
                    match t {
                        PNFATarget::State(q) => {},
                        PNFATarget::Exit => {},
                    }
                }
            }
        }
        assert(is_fresh(self.table, m)) by {
            assert forall|key: Key| #[trigger] self.table.contains_key(key) implies key.0 != m
                && !self.table[key].contains(PNFATarget::State(m)) by {}
        }
        a.lemma_accepts_by_walk(input);
        if a.accepts(input) {
            let t = choose|t: NFAState|
                a.accept.contains(t) && #[trigger] reaches(
                    a.walks(),
                    PNFATarget::State(a.initial),
                    input,
                    PNFATarget::State(t),
                );
            let n = choose|n: nat| walk(led, n, entry, input, PNFATarget::State(m));
            lemma_walk_unredirected(self.table, m, n, entry, input, PNFATarget::State(m));
        }
        if self.accepts(input) {
            let n = choose|n: nat| walk(self.table, n, entry, input, PNFATarget::Exit);
            lemma_walk_redirected(self.table, m, n, entry, input, PNFATarget::Exit);
            assert(reaches(led, PNFATarget::State(a.initial), input, PNFATarget::State(m)));
            assert(a.accept.contains(m));
        }
    }
}

} // verus!

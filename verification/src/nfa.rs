//! Nondeterministic finite automata: how a fragment becomes one, and how
//! one is run on an input.

use vstd::prelude::*;
use crate::error::CompileError;
use crate::parse::{is_op, spec_is_op};
use crate::fragment::Fragment;
use crate::partial_nfa::{PNFA, PNFATarget};
use crate::state_set::StateSet;
use crate::table::{InputSymbol, Key, Label, Table};

verus! {

/// A state of an automaton.
pub type NFAState = usize;

/// A finite set of states of an automaton.
pub type NFAStates = StateSet;

/// The transition table of an automaton: the states that follow each state
/// under each label.
pub type TransitionTable = Table<NFAStates>;

/// The mathematical form of an automaton.
#[verifier::ext_equal]
pub struct Automaton {
    /// The states that follow each state under each label.
    pub table: Map<Key, Set<NFAState>>,
    /// The state in which a run starts.
    pub initial: NFAState,
    /// The states in which a run may end for the input to be accepted.
    pub accept: Set<NFAState>,
}

impl Automaton {
    /// The states that follow `q` under `label`.
    pub open spec fn successors(self, q: NFAState, label: Label) -> Set<NFAState> {
        if self.table.contains_key((q, label)) {
            self.table[(q, label)]
        } else {
            Set::empty()
        }
    }

    /// `path` is a walk along transitions that consume nothing.
    pub open spec fn unlabeled_path(self, path: Seq<NFAState>) -> bool {
        &&& path.len() >= 1
        &&& forall|i: int|
            0 <= i < path.len() - 1 ==> self.successors(#[trigger] path[i], None).contains(
                path[i + 1],
            )
    }

    /// The states that can be reached from a state of `active` along
    /// transitions that consume nothing, in any number of steps.
    pub open spec fn closure(self, active: Set<NFAState>) -> Set<NFAState> {
        Set::new(
            |q: NFAState|
                exists|path: Seq<NFAState>|
                    self.unlabeled_path(path) && active.contains(#[trigger] path.first())
                        && path.last() == q,
        )
    }

    /// The states that follow a state of `active` under the symbol `sym`.
    pub open spec fn targets(self, active: Set<NFAState>, sym: InputSymbol) -> Set<NFAState> {
        Set::new(
            |t: NFAState|
                exists|q: NFAState|
                    active.contains(q) && #[trigger] self.successors(q, Some(sym)).contains(t),
        )
    }

    /// The active states after the symbol `sym`, when `active` were the
    /// active states before it: what follows, under `sym`, the states that
    /// `active` reaches without consuming anything.
    pub open spec fn step(self, active: Set<NFAState>, sym: InputSymbol) -> Set<NFAState> {
        self.targets(self.closure(active), sym)
    }

    /// The active states after the symbols of `input`, starting from the
    /// initial state alone.
    pub open spec fn run(self, input: Seq<InputSymbol>) -> Set<NFAState>
        decreases input.len(),
    {
        if input.len() == 0 {
            set![self.initial]
        } else {
            self.step(self.run(input.drop_last()), input.last())
        }
    }

    /// Some state of `active` is an accepting state.
    pub open spec fn accepting(self, active: Set<NFAState>) -> bool {
        exists|q: NFAState| active.contains(q) && self.accept.contains(q)
    }

    /// The automaton accepts `input`: after the symbols of `input`, the
    /// active states reach an accepting state without consuming anything.
    pub open spec fn accepts(self, input: Seq<InputSymbol>) -> bool {
        self.accepting(self.closure(self.run(input)))
    }

    /// `states` holds every state that follows one of its own without
    /// consuming anything.
    pub open spec fn closed(self, states: Set<NFAState>) -> bool {
        forall|q: NFAState, t: NFAState|
            states.contains(q) && #[trigger] self.successors(q, None).contains(t)
                ==> states.contains(t)
    }

    /// The closure of a set holds the set.
    pub proof fn lemma_closure_holds_start(self, active: Set<NFAState>, q: NFAState)
        requires
            active.contains(q),
        ensures
            self.closure(active).contains(q),
    {
        let path = seq![q];
        assert(self.unlabeled_path(path));
        assert(active.contains(path.first()));
    }

    /// The closure of a set holds what follows its members without
    /// consuming anything.
    pub proof fn lemma_closure_holds_successor(
        self,
        active: Set<NFAState>,
        q: NFAState,
        t: NFAState,
    )
        requires
            self.closure(active).contains(q),
            self.successors(q, None).contains(t),
        ensures
            self.closure(active).contains(t),
    {
        let path = choose|path: Seq<NFAState>|
            self.unlabeled_path(path) && active.contains(#[trigger] path.first()) && path.last()
                == q;
        let longer = path.push(t);
        assert forall|i: int| 0 <= i < longer.len() - 1 implies self.successors(
            #[trigger] longer[i],
            None,
        ).contains(longer[i + 1]) by {
            if i < path.len() - 1 {
                assert(longer[i] == path[i]);
                assert(longer[i + 1] == path[i + 1]);
            }
        }
        assert(self.unlabeled_path(longer));
        assert(active.contains(longer.first()));
    }

    /// A walk that starts in a closed set stays in it.
    proof fn lemma_path_stays(self, states: Set<NFAState>, path: Seq<NFAState>)
        requires
            self.closed(states),
            self.unlabeled_path(path),
            states.contains(path.first()),
        ensures
            states.contains(path.last()),
        decreases path.len(),
    {
        if path.len() > 1 {
            let shorter = path.drop_last();
            assert forall|i: int| 0 <= i < shorter.len() - 1 implies self.successors(
                #[trigger] shorter[i],
                None,
            ).contains(shorter[i + 1]) by {
                assert(shorter[i] == path[i]);
                assert(shorter[i + 1] == path[i + 1]);
            }
            self.lemma_path_stays(states, shorter);
            let i = path.len() - 2;
            assert(shorter.last() == path[i]);
            assert(self.successors(path[i], None).contains(path[i + 1]));
        }
    }

    /// The closure of a set is the least closed set that holds it: a
    /// closed set that holds `active` holds the closure of `active`.
    pub proof fn lemma_closure_least(self, active: Set<NFAState>, states: Set<NFAState>)
        requires
            active.subset_of(states),
            self.closed(states),
        ensures
            self.closure(active).subset_of(states),
    {
        assert forall|q: NFAState| self.closure(active).contains(q) implies states.contains(
            q,
        ) by {
            let path = choose|path: Seq<NFAState>|
                self.unlabeled_path(path) && active.contains(#[trigger] path.first())
                    && path.last() == q;
            self.lemma_path_stays(states, path);
        }
    }

    /// The empty input is accepted when the initial state reaches an
    /// accepting state without consuming anything.
    pub proof fn lemma_empty_input(self)
        ensures
            self.accepts(Seq::empty()) <==> self.accepting(self.closure(set![self.initial])),
    {
    }

    /// No state is reached from no state.
    pub proof fn lemma_closure_of_nothing(self)
        ensures
            self.closure(Set::empty()) == Set::<NFAState>::empty(),
    {
        assert(self.closure(Set::empty()) =~= Set::<NFAState>::empty());
    }

    /// No state follows no state.
    pub proof fn lemma_step_from_nothing(self, sym: InputSymbol)
        ensures
            self.step(Set::empty(), sym) == Set::<NFAState>::empty(),
    {
        self.lemma_closure_of_nothing();
        assert(self.targets(Set::empty(), sym) =~= Set::<NFAState>::empty());
    }

    /// Once no state is active, none becomes active again: an input is
    /// rejected if, after some of its symbols, no state is active.
    pub proof fn lemma_dead_run(self, input: Seq<InputSymbol>, n: int)
        requires
            0 <= n <= input.len(),
            self.run(input.take(n)) == Set::<NFAState>::empty(),
        ensures
            self.run(input) == Set::<NFAState>::empty(),
            !self.accepts(input),
        decreases input.len(),
    {
        if n < input.len() {
            assert(input.drop_last().take(n) =~= input.take(n));
            self.lemma_dead_run(input.drop_last(), n);
            self.lemma_step_from_nothing(input.last());
        } else {
            assert(input.take(n) =~= input);
        }
        self.lemma_closure_of_nothing();
    }

    /// The closure of a set is closed.
    pub proof fn lemma_closure_closed(self, active: Set<NFAState>)
        ensures
            self.closed(self.closure(active)),
            active.subset_of(self.closure(active)),
    {
        assert forall|q: NFAState, t: NFAState|
            self.closure(active).contains(q) && #[trigger] self.successors(q, None).contains(
                t,
            ) implies self.closure(active).contains(t) by {
            self.lemma_closure_holds_successor(active, q, t);
        }
        assert forall|q: NFAState| active.contains(q) implies self.closure(active).contains(
            q,
        ) by {
            self.lemma_closure_holds_start(active, q);
        }
    }
}

/// The states that the targets `targets` stand for once `Exit` means the
/// state `m`.
pub open spec fn resolve_targets(targets: Set<PNFATarget>, m: NFAState) -> Set<NFAState> {
    Set::new(
        |q: NFAState|
            targets.contains(PNFATarget::State(q)) || (q == m && targets.contains(
                PNFATarget::Exit,
            )),
    )
}

impl Fragment {
    /// The automaton that a finished fragment becomes: every `Exit` leads
    /// to one new state, which is the one accepting state.
    pub open spec fn finalize(self) -> Automaton {
        let m = self.num_states as NFAState;
        Automaton {
            table: self.table.map_values(|targets: Set<PNFATarget>| resolve_targets(targets, m)),
            initial: self.entry as NFAState,
            accept: set![m],
        }
    }
}

/// The stack of fragments after the token `c`, when `stack` was the stack
/// before it. A symbol puts its fragment on the stack. An operator takes
/// its operands from the top of the stack, the right operand first, and
/// puts the combined fragment there; it fails when the stack holds too few.
pub open spec fn apply_token(stack: Seq<Fragment>, c: char) -> Result<
    Seq<Fragment>,
    CompileError,
> {
    let n = stack.len() as int;
    if !spec_is_op(c) {
        Ok(stack.push(Fragment::single_symbol(c)))
    } else if c == '.' || c == '|' {
        if n < 2 {
            Err(CompileError::InsufficientOperands(c))
        } else {
            let combined = if c == '.' {
                stack[n - 2].concatenate(stack[n - 1])
            } else {
                stack[n - 2].alternate(stack[n - 1])
            };
            Ok(stack.take(n - 2).push(combined))
        }
    } else {
        if n < 1 {
            Err(CompileError::InsufficientOperands(c))
        } else {
            let combined = if c == '?' {
                stack[n - 1].optional()
            } else if c == '*' {
                stack[n - 1].star()
            } else {
                stack[n - 1].plus()
            };
            Ok(stack.take(n - 1).push(combined))
        }
    }
}

/// The stack of fragments after the tokens of a postfix expression, or the
/// failure of the first operator that fails.
pub open spec fn fragments(postfix: Seq<char>) -> Result<Seq<Fragment>, CompileError>
    decreases postfix.len(),
{
    if postfix.len() == 0 {
        Ok(Seq::empty())
    } else {
        match fragments(postfix.drop_last()) {
            Ok(stack) => apply_token(stack, postfix.last()),
            Err(e) => Err(e),
        }
    }
}

/// The automaton of a postfix expression: that of the one fragment that
/// its tokens leave on the stack. An expression whose operator fails, or
/// that leaves no fragment or several, has none.
pub open spec fn compiled(postfix: Seq<char>) -> Result<Automaton, CompileError> {
    match fragments(postfix) {
        Ok(stack) => if stack.len() == 1 {
            Ok(stack[0].finalize())
        } else {
            Err(CompileError::EmptyOrAmbiguousResult)
        },
        Err(e) => Err(e),
    }
}

/// The number of states of the fragments of a stack, taken together.
pub open spec fn total_states(stack: Seq<Fragment>) -> nat
    decreases stack.len(),
{
    if stack.len() == 0 {
        0
    } else {
        total_states(stack.drop_last()) + stack.last().num_states
    }
}

/// A fragment put on a stack adds its states to those of the stack.
pub proof fn lemma_total_states_push(stack: Seq<Fragment>, top: Fragment)
    ensures
        total_states(stack.push(top)) == total_states(stack) + top.num_states,
{
    assert(stack.push(top).drop_last() =~= stack);
}

/// A failure stays: if the tokens up to some point fail, the whole
/// expression fails in the same way.
pub proof fn lemma_failure_stays(postfix: Seq<char>, n: int)
    requires
        0 <= n <= postfix.len(),
        fragments(postfix.take(n)) is Err,
    ensures
        fragments(postfix) == fragments(postfix.take(n)),
    decreases postfix.len(),
{
    if n < postfix.len() {
        assert(postfix.drop_last().take(n) =~= postfix.take(n));
        lemma_failure_stays(postfix.drop_last(), n);
    } else {
        assert(postfix.take(n) =~= postfix);
    }
}

/// An automaton, together with the states that are active in the run that
/// is under way.
#[derive(Debug)]
pub struct NFA {
    states: NFAStates,
    table: TransitionTable,
    initial: NFAState,
    accept: NFAStates,
}

impl View for NFA {
    type V = Automaton;

    closed spec fn view(&self) -> Automaton {
        Automaton { table: self.table@, initial: self.initial, accept: self.accept@ }
    }
}

impl NFA {
    /// The states that are active.
    pub closed spec fn active(&self) -> Set<NFAState> {
        self.states@
    }

    /// The automaton with the given table, initial state and accepting
    /// states. The initial state alone is active.
    pub fn new(table: TransitionTable, initial: NFAState, accept: NFAStates) -> (nfa: NFA)
        ensures
            nfa@ == (Automaton { table: table@, initial, accept: accept@ }),
            nfa.active() == set![initial],
    {
        let mut states = StateSet::new();
        states.insert(initial);
        NFA { states, table, initial, accept }
    }

    /// The automaton that a finished fragment becomes: every `Exit` of the
    /// fragment leads to one new state, the one accepting state, and a run
    /// starts in the fragment's entry.
    pub fn from_partial(pnfa: PNFA) -> (nfa: NFA)
        ensures
            nfa@ == pnfa@.finalize(),
            nfa.active() == set![pnfa.entry],
    {
        let m = pnfa.num_states;
        let mut table: TransitionTable = Table::new();
        let len = pnfa.table.len();
        let ghost keys = pnfa.table.keys();
        let mut i: usize = 0;
        while i < len
            invariant
                i <= len,
                len == keys.len(),
                keys == pnfa.table.keys(),
                keys.no_duplicates(),
                m == pnfa.num_states,
                forall|key: Key| #[trigger]
                    table@.contains_key(key) <==> exists|j: int| 0 <= j < i && keys[j] == key,
                forall|key: Key| #[trigger]
                    table@.contains_key(key) ==> table@[key] == resolve_targets(
                        pnfa.table@[key],
                        m,
                    ),
            decreases len - i,
        {
            let key = pnfa.table.key_at(i);
            let targets = pnfa.table.value_at(i);
            let mut states = targets.states().clone();
            if targets.contains(PNFATarget::Exit) {
                states.insert(m);
            }
            assert(states@ =~= resolve_targets(targets@, m));
            let ghost before = table@;
            table.insert(key, states);
            i += 1;
            assert forall|k: Key| #[trigger]
                table@.contains_key(k) <==> exists|j: int| 0 <= j < i && keys[j] == k by {
                if k == key {
                    assert(keys[i - 1] == k);
                } else if before.contains_key(k) {
                }
            }
        }
        proof {
            assert forall|key: Key| #[trigger]
                table@.contains_key(key) <==> pnfa.table@.contains_key(key) by {
                if pnfa.table@.contains_key(key) {
                    let j = keys.index_of(key);
                    assert(keys[j] == key);
                }
            }
            assert(table@ =~= pnfa@.finalize().table);
        }
        let mut accept = StateSet::new();
        accept.insert(m);
        assert(accept@ =~= set![m]);
        NFA::new(table, pnfa.entry, accept)
    }

    /// Turns a regular expression in postfix form into an automaton.
    ///
    /// The tokens are read from left to right, with a stack of fragments.
    /// A symbol puts the fragment for that symbol on the stack. `.` and `|`
    /// take two fragments from the stack and put back their concatenation
    /// or their alternation; the fragment taken first is the right operand.
    /// `?`, `*` and `+` take one fragment and put back the fragment for it
    /// made optional, repeated any number of times, or repeated once or
    /// more. An operator that finds too few fragments is an error, and so
    /// is an expression that leaves no fragment, or more than one.
    pub fn compile(s: String) -> (result: Result<NFA, CompileError>)
        ensures
            match result {
                Ok(nfa) => compiled(s@) == Ok::<Automaton, CompileError>(nfa@) && nfa.active()
                    == set![nfa@.initial],
                Err(e) => compiled(s@) == Err::<Automaton, CompileError>(e),
            },
    {
        // The fragments on the stack never have more states, taken together,
        // than tokens have been read, and the number of tokens is a `usize`:
        // the numbering of the states cannot overflow.
        let count = s.as_str().unicode_len();
        let mut stack: Vec<PNFA> = Vec::new();
        let ghost mut models: Seq<Fragment> = Seq::empty();
        for c in it: s.as_str().chars()
            invariant
                it.seq() == s@,
                s@.len() == count,
                fragments(s@.take(it.index() as int)) == Ok::<Seq<Fragment>, CompileError>(
                    models,
                ),
                models.len() == stack@.len(),
                forall|j: int| 0 <= j < stack@.len() ==> models[j] == (#[trigger] stack@[j])@,
                forall|j: int| 0 <= j < models.len() ==> (#[trigger] models[j]).wf(),
                total_states(models) <= it.index(),
        {
            let ghost taken = s@.take(it.index() + 1);
            let ghost n = models.len() as int;
            proof {
                assert(taken.drop_last() =~= s@.take(it.index() as int));
                assert(taken.last() == c);
                assert(fragments(taken) == apply_token(models, c));
                if n >= 1 {
                    lemma_total_states_push(models.drop_last(), models.last());
                    assert(models.drop_last().push(models.last()) =~= models);
                    assert(models.drop_last() =~= models.take(n - 1));
                }
                if n >= 2 {
                    lemma_total_states_push(models.take(n - 2), models[n - 2]);
                    assert(models.take(n - 2).push(models[n - 2]) =~= models.take(n - 1));
                }
            }
            if !is_op(c) {
                stack.push(PNFA::single_symbol(c));
                proof {
                    lemma_total_states_push(models, Fragment::single_symbol(c));
                    models = models.push(Fragment::single_symbol(c));
                }
            } else if c == '.' || c == '|' {
                let pop1 = stack.pop();
                let pop2 = stack.pop();
                match (pop2, pop1) {
                    (Some(left), Some(right)) => {
                        let combined = if c == '.' {
                            PNFA::concatenate(left, right)
                        } else {
                            PNFA::alternate(left, right)
                        };
                        proof {
                            lemma_total_states_push(models.take(n - 2), combined@);
                            models = models.take(n - 2).push(combined@);
                        }
                        stack.push(combined);
                    },
                    _ => {
                        proof {
                            lemma_failure_stays(s@, it.index() + 1);
                        }
                        return Err(CompileError::InsufficientOperands(c));
                    },
                }
            } else {
                match stack.pop() {
                    Some(top) => {
                        let combined = if c == '?' {
                            PNFA::optional(top)
                        } else if c == '*' {
                            PNFA::star(top)
                        } else {
                            PNFA::plus(top)
                        };
                        proof {
                            lemma_total_states_push(models.take(n - 1), combined@);
                            models = models.take(n - 1).push(combined@);
                        }
                        stack.push(combined);
                    },
                    None => {
                        proof {
                            lemma_failure_stays(s@, it.index() + 1);
                        }
                        return Err(CompileError::InsufficientOperands(c));
                    },
                }
            }
        }
        assert(s@.take(s@.len() as int) =~= s@);
        match stack.pop() {
            Some(fragment) => {
                if stack.len() == 0 {
                    Ok(NFA::from_partial(fragment))
                } else {
                    Err(CompileError::EmptyOrAmbiguousResult)
                }
            },
            None => Err(CompileError::EmptyOrAmbiguousResult),
        }
    }

    /// Starts a run anew: the initial state alone is active.
    pub fn reset(&mut self)
        ensures
            final(self)@ == old(self)@,
            final(self).active() == set![old(self)@.initial],
    {
        self.states.clear();
        self.states.insert(self.initial);
    }

    /// Tells whether one of the active states is an accepting state.
    pub fn is_accepted(&self) -> (accepted: bool)
        ensures
            accepted == self@.accepting(self.active()),
    {
        let mut i: usize = 0;
        while i < self.states.len()
            invariant
                i <= self.states.order().len(),
                forall|j: int| 0 <= j < i ==> !self.accept@.contains(self.states.order()[j]),
            decreases self.states.order().len() - i,
        {
            if self.accept.contains(self.states.get(i)) {
                return true;
            }
            i += 1;
        }
        proof {
            assert forall|q: NFAState| self.active().contains(q) implies !self@.accept.contains(
                q,
            ) by {
                let j = self.states.order().index_of(q);
                assert(self.states.order()[j] == q);
            }
        }
        false
    }

    /// Makes active every state that the active states reach along
    /// transitions that consume nothing, in any number of steps.
    pub fn take_unlabeled(&mut self)
        ensures
            final(self)@ == old(self)@,
            final(self).active() == old(self)@.closure(old(self).active()),
    {
        let ghost model = self@;
        let ghost start = self.active();
        proof {
            model.lemma_closure_closed(start);
        }
        let mut i: usize = 0;
        while i < self.states.len()
            invariant
                self@ == model,
                i <= self.states.order().len(),
                start.subset_of(self.states@),
                self.states@.subset_of(model.closure(start)),
                forall|j: int, t: NFAState|
                    0 <= j < i && #[trigger] model.successors(
                        self.states.order()[j],
                        None,
                    ).contains(t) ==> self.states@.contains(t),
            decreases usize::MAX - i,
        {
            let q = self.states.get(i);
            let ghost before = self.states.order();
            match self.table.find(&(q, None)) {
                Some(targets) => {
                    proof {
                        assert forall|t: NFAState| targets@.contains(t) implies model.closure(
                            start,
                        ).contains(t) by {
                            model.lemma_closure_holds_successor(start, q, t);
                        }
                    }
                    self.states.union_with(targets);
                },
                None => {},
            }
            proof {
                assert forall|j: int, t: NFAState|
                    0 <= j < i + 1 && #[trigger] model.successors(
                        self.states.order()[j],
                        None,
                    ).contains(t) implies self.states@.contains(t) by {
                    assert(self.states.order()[j] == before[j]);
                    if j < i {
                        assert(before.to_set().contains(t));
                    }
                }
            }
            i += 1;
        }
        proof {
            assert forall|q: NFAState, t: NFAState|
                self.states@.contains(q) && #[trigger] model.successors(q, None).contains(
                    t,
                ) implies self.states@.contains(t) by {
                let j = self.states.order().index_of(q);
                assert(self.states.order()[j] == q);
            }
            model.lemma_closure_least(start, self.states@);
            assert(self.states@ =~= model.closure(start));
        }
    }

    /// Takes one input symbol: the states that the active states reach
    /// without consuming anything are followed under `sym`, and what they
    /// lead to becomes the set of active states.
    pub fn transition(&mut self, sym: InputSymbol)
        ensures
            final(self)@ == old(self)@,
            final(self).active() == old(self)@.step(old(self).active(), sym),
    {
        let ghost model = self@;
        self.take_unlabeled();
        let ghost closure = self.active();
        let mut added = StateSet::new();
        let mut i: usize = 0;
        while i < self.states.len()
            invariant
                self@ == model,
                self.active() == closure,
                i <= self.states.order().len(),
                forall|t: NFAState|
                    added@.contains(t) <==> exists|j: int|
                        0 <= j < i && #[trigger] model.successors(
                            self.states.order()[j],
                            Some(sym),
                        ).contains(t),
            decreases self.states.order().len() - i,
        {
            let q = self.states.get(i);
            let ghost before = added@;
            match self.table.find(&(q, Some(sym))) {
                Some(targets) => {
                    added.union_with(targets);
                },
                None => {},
            }
            i += 1;
            proof {
                assert forall|t: NFAState|
                    added@.contains(t) <==> exists|j: int|
                        0 <= j < i && #[trigger] model.successors(
                            self.states.order()[j],
                            Some(sym),
                        ).contains(t) by {
                    if model.successors(q, Some(sym)).contains(t) {
                        assert(model.successors(self.states.order()[i - 1], Some(sym)).contains(
                            t,
                        ));
                    }
                    if before.contains(t) {
                    }
                }
            }
        }
        proof {
            assert forall|t: NFAState| added@.contains(t) <==> model.targets(
                closure,
                sym,
            ).contains(t) by {
                if added@.contains(t) {
                    let j = choose|j: int|
                        0 <= j < i && #[trigger] model.successors(
                            self.states.order()[j],
                            Some(sym),
                        ).contains(t);
                    assert(closure.contains(self.states.order()[j]));
                }
                if model.targets(closure, sym).contains(t) {
                    let q = choose|q: NFAState|
                        closure.contains(q) && #[trigger] model.successors(
                            q,
                            Some(sym),
                        ).contains(t);
                    let j = self.states.order().index_of(q);
                    assert(self.states.order()[j] == q);
                }
            }
            assert(added@ =~= model.targets(closure, sym));
        }
        self.states = added;
    }

    /// Runs the automaton on `s`, and tells whether it accepts `s`.
    pub fn run_string(&mut self, s: &String) -> (accepted: bool)
        ensures
            final(self)@ == old(self)@,
            final(self).active() == old(self)@.closure(old(self)@.run(s@)),
            accepted == old(self)@.accepts(s@),
    {
        let ghost model = self@;
        self.reset();
        for c in it: s.as_str().chars()
            invariant
                it.seq() == s@,
                self@ == model,
                self.active() == model.run(s@.take(it.index() as int)),
        {
            proof {
                let taken = s@.take(it.index() + 1);
                assert(taken.drop_last() =~= s@.take(it.index() as int));
                assert(taken.last() == c);
            }
            self.transition(c);
        }
        assert(s@.take(s@.len() as int) =~= s@);
        self.take_unlabeled();
        self.is_accepted()
    }
}

} // verus!

//! Finite sets of automaton states.

use vstd::prelude::*;

verus! {

/// A finite set of states, kept as a list without repetitions.
///
/// The view is the mathematical set of the members. `order` gives the
/// members in the order in which they were first inserted; it lets a caller
/// walk the set by index while it grows.
#[derive(Debug)]
pub struct StateSet {
    elems: Vec<usize>,
}

impl View for StateSet {
    type V = Set<usize>;

    open spec fn view(&self) -> Set<usize> {
        self.order().to_set()
    }
}

impl StateSet {
    #[verifier::type_invariant]
    spec fn distinct(&self) -> bool {
        self.elems@.no_duplicates()
    }

    /// The members, each once, in order of first insertion.
    pub closed spec fn order(&self) -> Seq<usize> {
        self.elems@
    }

    /// The empty set.
    pub fn new() -> (s: StateSet)
        ensures
            s.order() == Seq::<usize>::empty(),
            s@ == Set::<usize>::empty(),
    {
        let s = StateSet { elems: Vec::new() };
        assert(s@ =~= Set::<usize>::empty());
        s
    }

    /// The number of members.
    pub fn len(&self) -> (n: usize)
        ensures
            n == self.order().len(),
            self.order().no_duplicates(),
    {
        proof {
            use_type_invariant(self);
        }
        self.elems.len()
    }

    /// The member at position `i` of `order`.
    pub fn get(&self, i: usize) -> (s: usize)
        requires
            i < self.order().len(),
        ensures
            s == self.order()[i as int],
            self@.contains(s),
    {
        self.elems[i]
    }

    /// Tells whether `s` is a member.
    pub fn contains(&self, s: usize) -> (b: bool)
        ensures
            b == self@.contains(s),
    {
        let mut i: usize = 0;
        while i < self.elems.len()
            invariant
                i <= self.elems@.len(),
                forall|j: int| 0 <= j < i ==> self.elems@[j] != s,
            decreases self.elems@.len() - i,
        {
            if self.elems[i] == s {
                return true;
            }
            i += 1;
        }
        false
    }

    /// Adds `s`, and tells whether it was new. A new member goes to the end
    /// of `order`; the positions of the others do not change.
    pub fn insert(&mut self, s: usize) -> (fresh: bool)
        ensures
            fresh == !old(self)@.contains(s),
            final(self)@ == old(self)@.insert(s),
            final(self).order() == if fresh {
                old(self).order().push(s)
            } else {
                old(self).order()
            },
    {
        proof {
            use_type_invariant(&*self);
        }
        if self.contains(s) {
            assert(self@ =~= self@.insert(s));
            false
        } else {
            let mut elems: Vec<usize> = Vec::new();
            std::mem::swap(&mut elems, &mut self.elems);
            elems.push(s);
            self.elems = elems;
            assert(self@ =~= old(self)@.insert(s)) by {
                assert forall|x: usize| self@.contains(x) <==> old(self)@.insert(s).contains(
                    x,
                ) by {
                    if self@.contains(x) {
                        let j = choose|j: int| 0 <= j < self.elems@.len() && self.elems@[j] == x;
                        if j < old(self).elems@.len() {
                            assert(old(self).elems@[j] == x);
                        }
                    }
                    if old(self)@.contains(x) {
                        let j = choose|j: int|
                            0 <= j < old(self).elems@.len() && old(self).elems@[j] == x;
                        assert(self.elems@[j] == x);
                    }
                    if x == s {
                        assert(self.elems@[self.elems@.len() - 1] == s);
                    }
                }
            }
            true
        }
    }

    /// Removes every member.
    pub fn clear(&mut self)
        ensures
            final(self)@ == Set::<usize>::empty(),
            final(self).order() == Seq::<usize>::empty(),
    {
        self.elems = Vec::new();
        assert(self@ =~= Set::<usize>::empty());
    }

    /// Removes `s`, and tells whether it was a member.
    pub fn remove(&mut self, s: usize) -> (found: bool)
        ensures
            found == old(self)@.contains(s),
            final(self)@ == old(self)@.remove(s),
    {
        proof {
            use_type_invariant(&*self);
        }
        let mut kept: Vec<usize> = Vec::new();
        let mut found = false;
        let mut i: usize = 0;
        while i < self.elems.len()
            invariant
                i <= self.elems@.len(),
                self.elems@.no_duplicates(),
                kept@.no_duplicates(),
                forall|x: usize|
                    kept@.contains(x) <==> x != s && exists|j: int|
                        0 <= j < i && self.elems@[j] == x,
                found <==> exists|j: int| 0 <= j < i && self.elems@[j] == s,
            decreases self.elems@.len() - i,
        {
            let x = self.elems[i];
            let ghost before = kept@;
            if x == s {
                found = true;
            } else {
                assert(!before.contains(x)) by {
                    if before.contains(x) {
                        let j = choose|j: int| 0 <= j < i && self.elems@[j] == x;
                        assert(self.elems@[j] == self.elems@[i as int]);
                    }
                }
                kept.push(x);
                assert(kept@[kept@.len() - 1] == x);
                assert forall|a: int, b: int| 0 <= a < b < kept@.len() implies kept@[a]
                    != kept@[b] by {
                    if b == before.len() {
                        assert(before[a] == kept@[a]);
                    } else {
                        assert(before[a] != before[b]);
                    }
                }
            }
            i += 1;
            assert forall|y: usize|
                kept@.contains(y) <==> y != s && exists|j: int|
                    0 <= j < i && self.elems@[j] == y by {
                if before.contains(y) {
                    let k = choose|k: int| 0 <= k < before.len() && before[k] == y;
                    assert(kept@[k] == y);
                }
                if kept@.contains(y) && !before.contains(y) {
                    let k = choose|k: int| 0 <= k < kept@.len() && kept@[k] == y;
                    assert(k == before.len());
                    assert(self.elems@[i - 1] == y);
                }
            }
        }
        self.elems = kept;
        assert(self@ =~= old(self)@.remove(s));
        found
    }

    /// Adds every member of `other`. The members that were there keep their
    /// positions in `order`.
    pub fn union_with(&mut self, other: &StateSet)
        ensures
            final(self)@ == old(self)@.union(other@),
            old(self).order().is_prefix_of(final(self).order()),
    {
        let mut i: usize = 0;
        while i < other.elems.len()
            invariant
                i <= other.elems@.len(),
                old(self).order().is_prefix_of(self.order()),
                forall|x: usize|
                    self@.contains(x) <==> old(self)@.contains(x) || exists|j: int|
                        0 <= j < i && other.elems@[j] == x,
            decreases other.elems@.len() - i,
        {
            let ghost before = self@;
            self.insert(other.elems[i]);
            i += 1;
            assert forall|x: usize|
                self@.contains(x) <==> old(self)@.contains(x) || exists|j: int|
                    0 <= j < i && other.elems@[j] == x by {
                if x == other.elems@[i - 1] {
                } else if before.contains(x) {
                }
            }
        }
        assert(self@ =~= old(self)@.union(other@));
    }

    /// Tells whether every member of `self` is a member of `other`.
    pub fn is_subset_of(&self, other: &StateSet) -> (b: bool)
        ensures
            b == self@.subset_of(other@),
    {
        let mut i: usize = 0;
        while i < self.elems.len()
            invariant
                i <= self.elems@.len(),
                forall|j: int| 0 <= j < i ==> other@.contains(self.elems@[j]),
            decreases self.elems@.len() - i,
        {
            if !other.contains(self.elems[i]) {
                assert(self@.contains(self.elems@[i as int]));
                return false;
            }
            i += 1;
        }
        proof {
            assert forall|s: usize| self@.contains(s) implies other@.contains(s) by {
                let j = self.elems@.index_of(s);
                assert(self.elems@[j] == s);
            }
        }
        true
    }
}

impl PartialEq for StateSet {
    /// Two sets are equal when they have the same members.
    fn eq(&self, other: &StateSet) -> (same: bool) {
        let same = self.is_subset_of(other) && other.is_subset_of(self);
        proof {
            if same {
                assert(self@ =~= other@);
            }
        }
        same
    }
}

impl vstd::std_specs::cmp::PartialEqSpecImpl for StateSet {
    open spec fn obeys_eq_spec() -> bool {
        true
    }

    open spec fn eq_spec(&self, other: &StateSet) -> bool {
        self@ == other@
    }
}

impl Eq for StateSet {

}

impl Clone for StateSet {
    fn clone(&self) -> (copy: StateSet)
        ensures
            copy.order() == self.order(),
            copy@ == self@,
    {
        proof {
            use_type_invariant(self);
        }
        let elems = self.elems.clone();
        assert(elems@ =~= self.elems@);
        StateSet { elems }
    }
}

} // verus!

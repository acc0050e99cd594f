//! Transition tables: finite maps from a state and a label to a value.

use vstd::prelude::*;

verus! {

/// An input symbol.
pub type InputSymbol = char;

/// The label of a transition: a symbol that the transition consumes, or
/// `None` for a transition that consumes nothing.
pub type Label = Option<InputSymbol>;

/// The key of a transition table: the state a transition leaves and its label.
pub type Key = (usize, Label);

/// Tells whether two labels are the same.
pub fn same_label(a: Label, b: Label) -> (same: bool)
    ensures
        same == (a == b),
{
    match (a, b) {
        (None, None) => true,
        (Some(x), Some(y)) => x == y,
        _ => false,
    }
}

#[derive(Debug)]
struct Entry<V> {
    state: usize,
    label: Label,
    value: V,
}

/// A finite map from keys to values, kept as a list of entries with
/// distinct keys.
///
/// The view is the mathematical map from each key to the view of its value.
/// `keys` gives the keys in the order in which they were first inserted.
#[derive(Debug)]
pub struct Table<V> {
    entries: Vec<Entry<V>>,
}

impl<V> Table<V> {
    #[verifier::type_invariant]
    spec fn distinct(&self) -> bool {
        forall|i: int, j: int|
            0 <= i < j < self.entries@.len() ==> !(self.entries@[i].state
                == self.entries@[j].state && self.entries@[i].label == self.entries@[j].label)
    }

    /// The keys, each once, in order of first insertion.
    pub closed spec fn keys(&self) -> Seq<Key> {
        Seq::new(self.entries@.len(), |i: int| (self.entries@[i].state, self.entries@[i].label))
    }

    /// The value stored under the key at position `i` of `keys`.
    pub closed spec fn value(&self, i: int) -> V {
        self.entries@[i].value
    }

    /// The number of keys.
    pub fn len(&self) -> (n: usize)
        ensures
            n == self.keys().len(),
            self.keys().no_duplicates(),
    {
        proof {
            use_type_invariant(self);
        }
        self.entries.len()
    }

    /// The position of a key in `keys`, if it is there.
    fn position(&self, key: &Key) -> (at: Option<usize>)
        ensures
            match at {
                Some(i) => i < self.keys().len() && self.keys()[i as int] == *key,
                None => !self.keys().contains(*key),
            },
    {
        let mut i: usize = 0;
        while i < self.entries.len()
            invariant
                i <= self.entries@.len(),
                forall|j: int| 0 <= j < i ==> self.keys()[j] != *key,
            decreases self.entries@.len() - i,
        {
            if self.entries[i].state == key.0 && same_label(self.entries[i].label, key.1) {
                return Some(i);
            }
            i += 1;
        }
        None
    }
}

impl<V: Clone> Clone for Table<V> {
    /// A table with the same keys, in the same order, each with a clone of
    /// its value.
    fn clone(&self) -> (copy: Table<V>)
        ensures
            copy.keys() == self.keys(),
            copy.keys().no_duplicates(),
            forall|i: int|
                0 <= i < self.keys().len() ==> cloned::<V>(self.value(i), #[trigger] copy.value(i)),
    {
        proof {
            use_type_invariant(self);
        }
        let mut entries: Vec<Entry<V>> = Vec::new();
        let mut i: usize = 0;
        while i < self.entries.len()
            invariant
                i <= self.entries@.len(),
                entries@.len() == i,
                forall|j: int|
                    0 <= j < i ==> (#[trigger] entries@[j]).state == self.entries@[j].state
                        && entries@[j].label == self.entries@[j].label && cloned::<V>(
                        self.entries@[j].value,
                        entries@[j].value,
                    ),
            decreases self.entries@.len() - i,
        {
            let entry = &self.entries[i];
            let value = entry.value.clone();
            entries.push(Entry { state: entry.state, label: entry.label, value });
            i += 1;
        }
        let copy = Table { entries };
        assert(copy.keys() =~= self.keys());
        copy
    }
}

impl<V: View> View for Table<V> {
    type V = Map<Key, V::V>;

    open spec fn view(&self) -> Map<Key, V::V> {
        Map::new(
            |key: Key| self.keys().contains(key),
            |key: Key| self.value(self.keys().index_of(key))@,
        )
    }
}

impl<V: View> Table<V> {
    /// The empty table.
    pub fn new() -> (table: Table<V>)
        ensures
            table.keys() == Seq::<Key>::empty(),
            table@ == Map::<Key, V::V>::empty(),
    {
        let table = Table { entries: Vec::new() };
        assert(table.keys() =~= Seq::<Key>::empty());
        assert(table@ =~= Map::<Key, V::V>::empty());
        table
    }

    /// What the view holds under the key at position `i` of `keys`.
    pub proof fn lemma_view_at(&self, i: int)
        requires
            0 <= i < self.keys().len(),
            self.keys().no_duplicates(),
        ensures
            self@.contains_key(self.keys()[i]),
            self@[self.keys()[i]] == self.value(i)@,
    {
        let key = self.keys()[i];
        assert(self.keys().contains(key));
        let j = self.keys().index_of(key);
        assert(self.keys()[j] == key);
    }

    /// The key at position `i` of `keys`.
    pub fn key_at(&self, i: usize) -> (key: Key)
        requires
            i < self.keys().len(),
        ensures
            key == self.keys()[i as int],
            self@.contains_key(key),
    {
        proof {
            use_type_invariant(self);
            self.lemma_view_at(i as int);
        }
        (self.entries[i].state, self.entries[i].label)
    }

    /// The value stored under the key at position `i` of `keys`.
    pub fn value_at(&self, i: usize) -> (value: &V)
        requires
            i < self.keys().len(),
        ensures
            *value == self.value(i as int),
            value@ == self@[self.keys()[i as int]],
    {
        proof {
            use_type_invariant(self);
            self.lemma_view_at(i as int);
        }
        &self.entries[i].value
    }

    /// The value stored under a key, if the key is there.
    pub fn find(&self, key: &Key) -> (found: Option<&V>)
        ensures
            match found {
                Some(value) => self@.contains_key(*key) && value@ == self@[*key],
                None => !self@.contains_key(*key),
            },
    {
        proof {
            use_type_invariant(self);
        }
        match self.position(key) {
            Some(i) => {
                proof {
                    self.lemma_view_at(i as int);
                }
                Some(&self.entries[i].value)
            },
            None => None,
        }
    }

    /// Takes out the key that was inserted last, with its value.
    pub fn pop(&mut self) -> (last: Option<(Key, V)>)
        ensures
            match last {
                Some((key, value)) => {
                    &&& old(self).keys() == final(self).keys().push(key)
                    &&& old(self)@.contains_key(key)
                    &&& old(self)@[key] == value@
                    &&& final(self)@ == old(self)@.remove(key)
                },
                None => old(self).keys().len() == 0 && final(self).keys().len() == 0,
            },
    {
        proof {
            use_type_invariant(&*self);
        }
        let mut entries: Vec<Entry<V>> = Vec::new();
        std::mem::swap(&mut entries, &mut self.entries);
        let last = entries.pop();
        self.entries = entries;
        match last {
            Some(entry) => {
                proof {
                    let key = (entry.state, entry.label);
                    let n = self.keys().len() as int;
                    assert(old(self).keys() =~= self.keys().push(key));
                    assert(self.keys().no_duplicates());
                    old(self).lemma_view_at(n);
                    assert forall|k: Key| #[trigger]
                        self@.contains_key(k) <==> old(self)@.remove(key).contains_key(k) by {
                        if self.keys().contains(k) {
                            let j = self.keys().index_of(k);
                            assert(old(self).keys()[j] == k);
                        }
                        if old(self).keys().contains(k) && k != key {
                            let j = old(self).keys().index_of(k);
                            assert(self.keys()[j] == k);
                        }
                    }
                    assert forall|k: Key| #[trigger] self@.contains_key(k) implies self@[k]
                        == old(self)@.remove(key)[k] by {
                        let j = self.keys().index_of(k);
                        self.lemma_view_at(j);
                        assert(old(self).keys()[j] == k);
                        old(self).lemma_view_at(j);
                    }
                    assert(self@ =~= old(self)@.remove(key));
                }
                Some(((entry.state, entry.label), entry.value))
            },
            None => None,
        }
    }

    /// Stores `value` under a key, in place of what was stored under it. A
    /// new key goes to the end of `keys`; the others keep their positions.
    pub fn insert(&mut self, key: Key, value: V)
        ensures
            final(self)@ == old(self)@.insert(key, value@),
            final(self).keys() == if old(self)@.contains_key(key) {
                old(self).keys()
            } else {
                old(self).keys().push(key)
            },
    {
        proof {
            use_type_invariant(&*self);
        }
        let (state, label) = key;
        let at = self.position(&key);
        let mut entries: Vec<Entry<V>> = Vec::new();
        std::mem::swap(&mut entries, &mut self.entries);
        match at {
            Some(i) => {
                entries.set(i, Entry { state, label, value });
            },
            None => {
                entries.push(Entry { state, label, value });
            },
        }
        proof {
            let before = old(self).keys();
            assert forall|i: int, j: int| 0 <= i < j < entries@.len() implies !(entries@[i].state
                == entries@[j].state && entries@[i].label == entries@[j].label) by {
                if at is None && j == before.len() {
                    assert(before[i] != (state, label));
                } else if at is Some && (i == at->0 || j == at->0) {
                    let other = if i == at->0 {
                        j
                    } else {
                        i
                    };
                    assert(before[other] != before[at->0 as int]);
                } else {
                    assert(before[i] != before[j]);
                }
            }
        }
        self.entries = entries;
        proof {
            if at is Some {
                assert(self.keys() =~= old(self).keys());
            } else {
                assert(self.keys() =~= old(self).keys().push(key));
            }
            assert(self.keys().no_duplicates());
            assert forall|k: Key| #[trigger]
                self@.contains_key(k) <==> old(self)@.insert(key, value@).contains_key(k) by {
                if old(self).keys().contains(k) {
                    let j = old(self).keys().index_of(k);
                    assert(self.keys()[j] == k);
                }
                if k == key {
                    if at is Some {
                        assert(self.keys()[at->0 as int] == k);
                    } else {
                        assert(self.keys()[self.keys().len() - 1] == k);
                    }
                }
                if self.keys().contains(k) && k != key {
                    let j = self.keys().index_of(k);
                    assert(old(self).keys()[j] == k);
                }
            }
            assert forall|k: Key| #[trigger] self@.contains_key(k) implies self@[k] == old(
                self,
            )@.insert(key, value@)[k] by {
                let j = self.keys().index_of(k);
                self.lemma_view_at(j);
                if k == key {
                } else {
                    assert(old(self).keys()[j] == k);
                    old(self).lemma_view_at(j);
                }
            }
            assert(self@ =~= old(self)@.insert(key, value@));
        }
    }
}

} // verus!

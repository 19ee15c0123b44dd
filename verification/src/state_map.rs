//! Finite maps keyed by a state of an automaton and a symbol.

use vstd::prelude::*;
use crate::symbol::Symbol;

verus! {

/// A finite map from pairs of a state and a symbol to values.
#[derive(Debug, Clone)]
pub struct StateMap<V> {
    keys: Vec<(usize, Symbol)>,
    values: Vec<V>,
}

impl<V> View for StateMap<V> {
    type V = Map<(usize, Symbol), V>;

    closed spec fn view(&self) -> Map<(usize, Symbol), V> {
        Map::new(
            |key: (usize, Symbol)| self.keys@.contains(key),
            |key: (usize, Symbol)| self.values@[self.keys@.index_of(key)],
        )
    }
}

impl<V: Copy> StateMap<V> {
    /// Each key is stored once, with one value.
    pub closed spec fn wf(self) -> bool {
        &&& self.keys@.no_duplicates()
        &&& self.keys@.len() == self.values@.len()
    }

    /// An empty map.
    pub fn new() -> (m: StateMap<V>)
        ensures
            m.wf(),
            m@ == Map::<(usize, Symbol), V>::empty(),
    {
        let m = StateMap { keys: Vec::new(), values: Vec::new() };
        assert(m@ =~= Map::<(usize, Symbol), V>::empty());
        m
    }

    /// The position of `key` among the keys.
    fn position(&self, key: (usize, Symbol)) -> (r: Option<usize>)
        requires
            self.wf(),
        ensures
            match r {
                Some(i) => i < self.keys@.len() && self.keys@[i as int] == key && self.keys@.index_of(key)
                    == i && self@.contains_key(key),
                None => !self@.contains_key(key),
            },
    {
        let mut i: usize = 0;
        while i < self.keys.len()
            invariant
                self.wf(),
                i <= self.keys.len(),
                forall|j: int| 0 <= j < i ==> self.keys@[j] != key,
            decreases self.keys.len() - i,
        {
            if self.keys[i].0 == key.0 && self.keys[i].1 == key.1 {
                proof {
                    assert(self.keys@[i as int] == key);
                    assert(self.keys@.contains(key));
                    let j = self.keys@.index_of(key);
                    assert(self.keys@[j] == key);
                }
                return Some(i);
            }
            i += 1;
        }
        None
    }

    /// The value of `key`, if it has one.
    pub fn get(&self, key: (usize, Symbol)) -> (r: Option<V>)
        requires
            self.wf(),
        ensures
            r == if self@.contains_key(key) {
                Some(self@[key])
            } else {
                None
            },
    {
        match self.position(key) {
            Some(i) => Some(self.values[i]),
            None => None,
        }
    }

    /// The number of keys.
    pub fn len(&self) -> (n: usize)
        requires
            self.wf(),
        ensures
            n == self@.dom().len(),
            self@.dom().finite(),
    {
        proof {
            self.keys@.unique_seq_to_set();
            vstd::seq_lib::seq_to_set_is_finite(self.keys@);
            assert(self@.dom() =~= self.keys@.to_set());
        }
        self.keys.len()
    }

    /// The key at position `i` of the order in which the keys were first
    /// given a value, and its value.
    pub fn entry(&self, i: usize) -> (r: ((usize, Symbol), V))
        requires
            self.wf(),
            i < self@.dom().len(),
            self@.dom().finite(),
        ensures
            self@.contains_key(r.0),
            self@[r.0] == r.1,
            r.0 == self.keys_in_order()[i as int],
    {
        proof {
            self.keys@.unique_seq_to_set();
            assert(self@.dom() =~= self.keys@.to_set());
            assert(self.keys@.contains(self.keys@[i as int]));
            let j = self.keys@.index_of(self.keys@[i as int]);
            assert(self.keys@[j] == self.keys@[i as int]);
        }
        (self.keys[i], self.values[i])
    }

    /// The keys in the order in which they were first given a value.
    pub closed spec fn keys_in_order(self) -> Seq<(usize, Symbol)> {
        self.keys@
    }

    /// The keys in order are the keys, once each.
    pub proof fn lemma_keys_in_order(self)
        requires
            self.wf(),
        ensures
            self.keys_in_order().no_duplicates(),
            self.keys_in_order().to_set() == self@.dom(),
            self.keys_in_order().len() == self@.dom().len(),
            self@.dom().finite(),
    {
        self.keys@.unique_seq_to_set();
        vstd::seq_lib::seq_to_set_is_finite(self.keys@);
        assert(self@.dom() =~= self.keys@.to_set());
    }

    /// Gives `key` the value `value`, in place of the one it had, if any.
    pub fn insert(&mut self, key: (usize, Symbol), value: V)
        requires
            old(self).wf(),
        ensures
            final(self).wf(),
            final(self)@ == old(self)@.insert(key, value),
    {
        match self.position(key) {
            Some(i) => {
                self.values.set(i, value);
                assert(self@ =~= old(self)@.insert(key, value));
            },
            None => {
                self.keys.push(key);
                self.values.push(value);
                proof {
                    assert forall|k: (usize, Symbol)| old(self).keys@.contains(k) implies self.keys@.index_of(
                        k,
                    ) == old(self).keys@.index_of(k) && self.keys@.contains(k) by {
                        let j = old(self).keys@.index_of(k);
                        assert(self.keys@[j] == k);
                        let j2 = self.keys@.index_of(k);
                        assert(self.keys@[j2] == k);
                    }
                    assert(self.keys@[self.keys@.len() - 1] == key);
                    assert(self.keys@.contains(key));
                    assert(self.keys@.index_of(key) == self.keys@.len() - 1) by {
                        let j2 = self.keys@.index_of(key);
                        assert(self.keys@[j2] == key);
                    }
                    assert forall|k: (usize, Symbol)| self.keys@.contains(k) implies old(
                        self,
                    ).keys@.contains(k) || k == key by {
                        let j = self.keys@.index_of(k);
                        if j < old(self).keys@.len() {
                            assert(old(self).keys@[j] == k);
                        }
                    }
                    assert(self@ =~= old(self)@.insert(key, value));
                }
            },
        }
    }
}

} // verus!

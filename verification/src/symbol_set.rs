//! Finite sets of symbols, and maps from symbols to such sets.

use vstd::prelude::*;
use crate::symbol::Symbol;

verus! {

/// A finite set of symbols, kept in the order in which they were inserted.
#[derive(Debug)]
pub struct SymbolSet {
    items: Vec<Symbol>,
}

impl View for SymbolSet {
    type V = Set<Symbol>;

    closed spec fn view(&self) -> Set<Symbol> {
        self.items@.to_set()
    }
}

impl Clone for SymbolSet {
    /// A copy of the set, with the members in the same order.
    fn clone(&self) -> (s: SymbolSet)
        ensures
            s@ == self@,
            s.members() == self.members(),
            s.wf() == self.wf(),
    {
        SymbolSet { items: self.to_vec() }
    }
}

impl SymbolSet {
    /// No symbol is stored twice.
    pub closed spec fn wf(self) -> bool {
        self.items@.no_duplicates()
    }

    /// The members in insertion order.
    pub closed spec fn members(self) -> Seq<Symbol> {
        self.items@
    }

    /// The members are listed once each, and they are the set's view.
    pub proof fn lemma_members(self)
        requires
            self.wf(),
        ensures
            self.members().no_duplicates(),
            self.members().to_set() == self@,
            self.members().len() == self@.len(),
            self@.finite(),
            self.members().len() <= usize::MAX,
            forall|i: int| 0 <= i < self.members().len() ==> self@.contains(#[trigger] self.members()[i]),
    {
        self.items@.unique_seq_to_set();
        assert(self.items.len() == self.items@.len());
    }

    /// An empty set.
    pub fn new() -> (s: SymbolSet)
        ensures
            s.wf(),
            s@ == Set::<Symbol>::empty(),
            s.members().len() == 0,
    {
        let s = SymbolSet { items: Vec::new() };
        assert(s.items@.to_set() =~= Set::<Symbol>::empty());
        s
    }

    /// Whether `sym` is a member.
    pub fn contains(&self, sym: &Symbol) -> (b: bool)
        ensures
            b == self@.contains(*sym),
    {
        let mut i: usize = 0;
        while i < self.items.len()
            invariant
                i <= self.items.len(),
                forall|j: int| 0 <= j < i ==> self.items@[j] != *sym,
            decreases self.items.len() - i,
        {
            if self.items[i] == *sym {
                return true;
            }
            i += 1;
        }
        false
    }

    /// Adds `sym`; tells whether it was new.
    pub fn insert(&mut self, sym: Symbol) -> (added: bool)
        requires
            old(self).wf(),
        ensures
            final(self).wf(),
            final(self)@ == old(self)@.insert(sym),
            added == !old(self)@.contains(sym),
            added ==> final(self).members() == old(self).members().push(sym),
            !added ==> final(self).members() == old(self).members(),
    {
        if self.contains(&sym) {
            assert(self@.insert(sym) =~= self@);
            false
        } else {
            self.items.push(sym);
            proof {
                old(self).items@.lemma_push_to_set_commute(sym);
            }
            true
        }
    }

    /// The number of members.
    pub fn len(&self) -> (n: usize)
        requires
            self.wf(),
        ensures
            n == self@.len(),
            n == self.members().len(),
    {
        proof {
            self.items@.unique_seq_to_set();
        }
        self.items.len()
    }

    /// Whether the set has no member.
    pub fn is_empty(&self) -> (b: bool)
        requires
            self.wf(),
        ensures
            b == (self@ == Set::<Symbol>::empty()),
            b == (self.members().len() == 0),
    {
        let b = self.items.len() == 0;
        proof {
            if b {
                assert(self.items@.to_set() =~= Set::<Symbol>::empty());
            } else {
                assert(self.items@.to_set().contains(self.items@[0]));
            }
        }
        b
    }

    /// The member at position `i` of the insertion order.
    pub fn get(&self, i: usize) -> (sym: Symbol)
        requires
            i < self.members().len(),
        ensures
            sym == self.members()[i as int],
            self@.contains(sym),
    {
        self.items[i]
    }

    /// The members in insertion order.
    pub fn to_vec(&self) -> (v: Vec<Symbol>)
        ensures
            v@ == self.members(),
    {
        let mut v: Vec<Symbol> = Vec::new();
        let mut i: usize = 0;
        while i < self.items.len()
            invariant
                i <= self.items.len(),
                v@ == self.items@.take(i as int),
            decreases self.items.len() - i,
        {
            v.push(self.items[i]);
            assert(self.items@.take(i as int + 1) =~= self.items@.take(i as int).push(self.items@[i as int]));
            i += 1;
        }
        assert(self.items@.take(i as int) =~= self.items@);
        v
    }

    /// The set of `sym` alone.
    pub fn singleton(sym: Symbol) -> (s: SymbolSet)
        ensures
            s.wf(),
            s@ == set![sym],
            s.members() == seq![sym],
    {
        let mut s = SymbolSet::new();
        s.insert(sym);
        assert(s@ =~= set![sym]);
        assert(s.members() =~= seq![sym]);
        s
    }

    /// Adds the members of `other`, but for the empty string where
    /// `skip_epsilon` is set; tells whether the set grew.
    pub fn absorb(&mut self, other: &SymbolSet, skip_epsilon: bool) -> (grew: bool)
        requires
            old(self).wf(),
        ensures
            final(self).wf(),
            final(self)@ == old(self)@.union(
                if skip_epsilon {
                    other@.remove(Symbol::Epsilon)
                } else {
                    other@
                },
            ),
            grew == (final(self)@ != old(self)@),
            old(self).members().len() <= final(self).members().len(),
            grew ==> old(self).members().len() < final(self).members().len(),
            !grew ==> final(self).members() == old(self).members(),
    {
        let ghost added = if skip_epsilon {
            other@.remove(Symbol::Epsilon)
        } else {
            other@
        };
        let mut grew = false;
        let mut i: usize = 0;
        while i < other.items.len()
            invariant
                i <= other.items.len(),
                self.wf(),
                added == if skip_epsilon {
                    other@.remove(Symbol::Epsilon)
                } else {
                    other@
                },
                old(self)@.subset_of(self@),
                forall|s: Symbol| #[trigger] self@.contains(s) ==> old(self)@.contains(s) || added.contains(s),
                forall|j: int| 0 <= j < i && added.contains(other.items@[j]) ==> self@.contains(#[trigger] other.items@[j]),
                old(self).members().len() <= self.members().len(),
                grew ==> old(self).members().len() < self.members().len(),
                grew ==> self@ != old(self)@,
                !grew ==> self.members() == old(self).members(),
                !grew ==> self@ == old(self)@,
            decreases other.items.len() - i,
        {
            let sym = other.items[i];
            let ghost before = self@;
            if !(skip_epsilon && sym.is_epsilon()) {
                assert(other.items@.to_set().contains(other.items@[i as int]));
                let fresh = self.insert(sym);
                if fresh {
                    proof {
                        lemma_grown_set_differs(old(self)@, before, sym);
                    }
                    grew = true;
                }
            }
            i += 1;
        }
        proof {
            assert forall|s: Symbol| added.contains(s) implies self@.contains(s) by {
                let j = choose|j: int| 0 <= j < other.items@.len() && other.items@[j] == s;
                assert(self@.contains(other.items@[j]));
            }
            assert(self@ =~= old(self)@.union(added));
        }
        grew
    }
}

/// A set that holds `base` and a symbol that `mid`, a superset of `base`,
/// lacks is not `base`.
proof fn lemma_grown_set_differs(base: Set<Symbol>, mid: Set<Symbol>, sym: Symbol)
    requires
        base.subset_of(mid),
        !mid.contains(sym),
    ensures
        mid.insert(sym) != base,
{
    assert(mid.insert(sym).contains(sym));
    assert(!base.contains(sym));
}

/// A finite map from symbols to sets of symbols.
#[derive(Debug)]
pub struct SymbolMap {
    keys: Vec<Symbol>,
    sets: Vec<SymbolSet>,
}

/// The sizes of the sets of `sets`, added up.
pub open spec fn total_len(sets: Seq<SymbolSet>) -> nat
    decreases sets.len(),
{
    if sets.len() == 0 {
        0
    } else {
        total_len(sets.drop_last()) + sets.last().members().len()
    }
}

/// Replacing one set changes the total by the difference of the two sizes.
pub proof fn lemma_total_len_update(sets: Seq<SymbolSet>, i: int, set: SymbolSet)
    requires
        0 <= i < sets.len(),
    ensures
        total_len(sets.update(i, set)) == total_len(sets) - sets[i].members().len()
            + set.members().len(),
    decreases sets.len(),
{
    let updated = sets.update(i, set);
    if i == sets.len() - 1 {
        assert(updated.drop_last() =~= sets.drop_last());
    } else {
        lemma_total_len_update(sets.drop_last(), i, set);
        assert(updated.drop_last() =~= sets.drop_last().update(i, set));
    }
}

/// Lists of sets with the same members at each place have the same total.
proof fn lemma_total_len_same(a: Seq<SymbolSet>, b: Seq<SymbolSet>)
    requires
        a.len() == b.len(),
        forall|j: int| 0 <= j < a.len() ==> (#[trigger] a[j]).members() == b[j].members(),
    ensures
        total_len(a) == total_len(b),
    decreases a.len(),
{
    if a.len() > 0 {
        assert forall|j: int| 0 <= j < a.drop_last().len() implies (#[trigger] a.drop_last()[j]).members()
            == b.drop_last()[j].members() by {
            assert(a[j].members() == b[j].members());
        }
        lemma_total_len_same(a.drop_last(), b.drop_last());
        assert(a[a.len() - 1].members() == b[a.len() - 1].members());
    }
}

/// Appending a set adds its size to the total.
pub proof fn lemma_total_len_push(sets: Seq<SymbolSet>, set: SymbolSet)
    ensures
        total_len(sets.push(set)) == total_len(sets) + set.members().len(),
{
    assert(sets.push(set).drop_last() =~= sets);
}

/// The total is at most the number of sets times a bound on their sizes.
pub proof fn lemma_total_len_bound(sets: Seq<SymbolSet>, bound: nat)
    requires
        forall|i: int| 0 <= i < sets.len() ==> (#[trigger] sets[i]).members().len() <= bound,
    ensures
        total_len(sets) <= sets.len() * bound,
    decreases sets.len(),
{
    if sets.len() > 0 {
        lemma_total_len_bound(sets.drop_last(), bound);
        assert((sets.len() - 1) * bound + bound == sets.len() * bound) by (nonlinear_arith);
    }
}

/// The symbols that `m` holds in any of its sets.
pub open spec fn range_of(m: Map<Symbol, Set<Symbol>>) -> Set<Symbol> {
    Set::new(|t: Symbol| exists|k: Symbol| m.contains_key(k) && #[trigger] m[k].contains(t))
}

/// The symbols that the first `n` sets of `sets` hold.
spec fn members_upto(sets: Seq<SymbolSet>, n: int) -> Set<Symbol>
    decreases n,
{
    if n <= 0 {
        Set::empty()
    } else {
        members_upto(sets, n - 1).union(sets[n - 1]@)
    }
}

/// The symbols of finitely many sets are finitely many.
proof fn lemma_members_upto(sets: Seq<SymbolSet>, n: int)
    requires
        0 <= n <= sets.len(),
        forall|i: int| 0 <= i < sets.len() ==> (#[trigger] sets[i]).wf(),
    ensures
        members_upto(sets, n).finite(),
        forall|i: int, t: Symbol|
            0 <= i < n && #[trigger] sets[i]@.contains(t) ==> members_upto(sets, n).contains(t),
    decreases n,
{
    if n > 0 {
        lemma_members_upto(sets, n - 1);
        sets[n - 1].lemma_members();
    }
}

impl View for SymbolMap {
    type V = Map<Symbol, Set<Symbol>>;

    closed spec fn view(&self) -> Map<Symbol, Set<Symbol>> {
        Map::new(
            |k: Symbol| self.keys@.contains(k),
            |k: Symbol| self.sets@[self.keys@.index_of(k)]@,
        )
    }
}

/// The set that `m` gives for `sym`: empty where it gives none.
pub open spec fn lookup(m: Map<Symbol, Set<Symbol>>, sym: Symbol) -> Set<Symbol> {
    if m.contains_key(sym) {
        m[sym]
    } else {
        Set::empty()
    }
}

impl Clone for SymbolMap {
    /// A copy of the map.
    fn clone(&self) -> (m: SymbolMap)
        ensures
            self.wf() ==> m.wf() && m@ == self@ && m.size() == self.size(),
    {
        let mut keys: Vec<Symbol> = Vec::new();
        let mut i: usize = 0;
        while i < self.keys.len()
            invariant
                i <= self.keys.len(),
                keys@ == self.keys@.take(i as int),
            decreases self.keys.len() - i,
        {
            keys.push(self.keys[i]);
            proof {
                assert(self.keys@.take(i as int + 1) =~= self.keys@.take(i as int).push(self.keys@[i as int]));
            }
            i += 1;
        }
        let mut sets: Vec<SymbolSet> = Vec::new();
        let mut n: usize = 0;
        while n < self.sets.len()
            invariant
                n <= self.sets.len(),
                sets@.len() == n,
                forall|j: int| 0 <= j < n ==> (#[trigger] sets@[j]).members() == self.sets@[j].members(),
                forall|j: int| 0 <= j < n ==> (#[trigger] sets@[j])@ == self.sets@[j]@,
                forall|j: int| 0 <= j < n ==> (#[trigger] sets@[j]).wf() == self.sets@[j].wf(),
            decreases self.sets.len() - n,
        {
            sets.push(self.sets[n].clone());
            n += 1;
        }
        let m = SymbolMap { keys, sets };
        proof {
            assert(self.keys@.take(self.keys@.len() as int) =~= self.keys@);
            if self.wf() {
                lemma_total_len_same(m.sets@, self.sets@);
                assert forall|k: Symbol| self.keys@.contains(k) implies m.sets@[self.keys@.index_of(k)]@
                    == self.sets@[self.keys@.index_of(k)]@ by {
                    let j = self.keys@.index_of(k);
                    assert(self.keys@[j] == k);
                }
                assert(m@ =~= self@);
            }
        }
        m
    }
}

impl SymbolMap {
    /// Each key is stored once, with one set.
    pub closed spec fn wf(self) -> bool {
        &&& self.keys@.no_duplicates()
        &&& self.keys@.len() == self.sets@.len()
        &&& forall|i: int| 0 <= i < self.sets@.len() ==> (#[trigger] self.sets@[i]).wf()
    }

    /// The number of pairs of a key and a member of its set.
    pub closed spec fn size(self) -> nat {
        total_len(self.sets@)
    }

    /// The pairs are at most as many as the keys times a bound on the sizes
    /// of the sets.
    pub proof fn lemma_size_bound(self, bound: nat)
        requires
            self.wf(),
            forall|k: Symbol| #[trigger] self@.contains_key(k) ==> self@[k].len() <= bound,
        ensures
            self@.dom().finite(),
            self.size() <= self@.dom().len() * bound,
    {
        self.keys@.unique_seq_to_set();
        vstd::seq_lib::seq_to_set_is_finite(self.keys@);
        assert(self@.dom() =~= self.keys@.to_set());
        assert forall|i: int| 0 <= i < self.sets@.len() implies (#[trigger] self.sets@[i]).members().len()
            <= bound by {
            let k = self.keys@[i];
            assert(self.keys@.contains(k));
            assert(self.keys@[self.keys@.index_of(k)] == k);
            assert(self@.contains_key(k));
            self.sets@[i].lemma_members();
        }
        lemma_total_len_bound(self.sets@, bound);
    }

    /// The symbols that the map holds in any of its sets are finitely many.
    pub proof fn lemma_range_finite(self)
        requires
            self.wf(),
        ensures
            range_of(self@).finite(),
    {
        let all = members_upto(self.sets@, self.sets@.len() as int);
        lemma_members_upto(self.sets@, self.sets@.len() as int);
        assert forall|t: Symbol| range_of(self@).contains(t) implies all.contains(t) by {
            let k = choose|k: Symbol| self@.contains_key(k) && #[trigger] self@[k].contains(t);
            let i = self.keys@.index_of(k);
            assert(self.sets@[i]@.contains(t));
        }
        vstd::set_lib::lemma_set_subset_finite(all, range_of(self@));
    }

    /// An empty map.
    pub fn new() -> (m: SymbolMap)
        ensures
            m.wf(),
            m@ == Map::<Symbol, Set<Symbol>>::empty(),
            m.size() == 0,
    {
        let m = SymbolMap { keys: Vec::new(), sets: Vec::new() };
        assert(m@ =~= Map::<Symbol, Set<Symbol>>::empty());
        m
    }

    /// The position of `key` among the keys.
    fn position(&self, key: &Symbol) -> (r: Option<usize>)
        requires
            self.wf(),
        ensures
            match r {
                Some(i) => i < self.keys@.len() && self.keys@[i as int] == *key
                    && self.keys@.index_of(*key) == i && self@.contains_key(*key),
                None => !self.keys@.contains(*key) && !self@.contains_key(*key),
            },
    {
        let mut i: usize = 0;
        while i < self.keys.len()
            invariant
                self.wf(),
                i <= self.keys.len(),
                forall|j: int| 0 <= j < i ==> self.keys@[j] != *key,
            decreases self.keys.len() - i,
        {
            if self.keys[i] == *key {
                proof {
                    assert(self.keys@[i as int] == *key);
                    assert(self.keys@.contains(*key));
                    let j = self.keys@.index_of(*key);
                    assert(self.keys@[j] == *key);
                }
                return Some(i);
            }
            i += 1;
        }
        None
    }

    /// Whether the map has a set for `key`.
    pub fn contains_key(&self, key: &Symbol) -> (b: bool)
        requires
            self.wf(),
        ensures
            b == self@.contains_key(*key),
    {
        self.position(key).is_some()
    }

    /// The set for `key`, if the map has one.
    pub fn get(&self, key: &Symbol) -> (r: Option<&SymbolSet>)
        requires
            self.wf(),
        ensures
            match r {
                Some(set) => self@.contains_key(*key) && set@ == self@[*key] && set.wf(),
                None => !self@.contains_key(*key),
            },
    {
        match self.position(key) {
            Some(i) => Some(&self.sets[i]),
            None => None,
        }
    }

    /// Gives `key` the set `set`, in place of the one it had, if any.
    pub fn insert(&mut self, key: Symbol, set: SymbolSet)
        requires
            old(self).wf(),
            set.wf(),
        ensures
            final(self).wf(),
            final(self)@ == old(self)@.insert(key, set@),
    {
        match self.position(&key) {
            Some(i) => {
                self.sets.set(i, set);
                assert(self@ =~= old(self)@.insert(key, set@));
            },
            None => {
                self.keys.push(key);
                self.sets.push(set);
                proof {
                    assert forall|k: Symbol| old(self).keys@.contains(k) implies self.keys@.index_of(
                        k,
                    ) == old(self).keys@.index_of(k) by {
                        let j = old(self).keys@.index_of(k);
                        assert(self.keys@[j] == k);
                        self.keys@.index_of_first_ensures(k);
                    }
                    assert(self.keys@.index_of(key) == self.keys@.len() - 1) by {
                        assert(self.keys@[self.keys@.len() - 1] == key);
                    }
                    assert forall|k: Symbol| self.keys@.contains(k) <==> (old(self).keys@.contains(k)
                        || k == key) by {
                        if self.keys@.contains(k) {
                            let j = self.keys@.index_of(k);
                            if j < old(self).keys@.len() {
                                assert(old(self).keys@[j] == k);
                            }
                        }
                        if old(self).keys@.contains(k) {
                            let j = old(self).keys@.index_of(k);
                            assert(self.keys@[j] == k);
                        }
                        if k == key {
                            assert(self.keys@[self.keys@.len() - 1] == key);
                        }
                    }
                    assert(self@ =~= old(self)@.insert(key, set@));
                }
            },
        }
    }

    /// Gives each member of `keys` a set of its own: the member alone where
    /// `singletons` is set, the empty set where it is not.
    pub fn insert_all(&mut self, keys: &SymbolSet, singletons: bool)
        requires
            old(self).wf(),
            keys.wf(),
        ensures
            final(self).wf(),
            final(self)@.dom() == old(self)@.dom().union(keys@),
            forall|k: Symbol|
                keys@.contains(k) ==> #[trigger] final(self)@[k] == if singletons {
                    set![k]
                } else {
                    Set::<Symbol>::empty()
                },
            forall|k: Symbol|
                old(self)@.contains_key(k) && !keys@.contains(k) ==> #[trigger] final(self)@[k] == old(
                    self,
                )@[k],
    {
        let n = keys.len();
        let mut i: usize = 0;
        proof {
            keys.lemma_members();
        }
        while i < n
            invariant
                i <= n,
                n == keys.members().len(),
                keys.wf(),
                self.wf(),
                keys.members().to_set() == keys@,
                self@.dom() == old(self)@.dom().union(keys.members().take(i as int).to_set()),
                forall|k: Symbol|
                    keys.members().take(i as int).contains(k) ==> #[trigger] self@[k] == if singletons {
                        set![k]
                    } else {
                        Set::<Symbol>::empty()
                    },
                forall|k: Symbol|
                    old(self)@.contains_key(k) && !keys.members().take(i as int).contains(k)
                        ==> #[trigger] self@[k] == old(self)@[k],
            decreases n - i,
        {
            let key = keys.get(i);
            let set = if singletons {
                SymbolSet::singleton(key)
            } else {
                SymbolSet::new()
            };
            let ghost done = keys.members().take(i as int);
            let ghost next = keys.members().take(i as int + 1);
            self.insert(key, set);
            proof {
                assert(next =~= done.push(key));
                done.lemma_push_to_set_commute(key);
                assert(self@.dom() =~= old(self)@.dom().union(next.to_set()));
                assert forall|k: Symbol| next.contains(k) <==> done.contains(k) || k == key by {
                    assert(next.to_set().contains(k) <==> done.to_set().contains(k) || k == key);
                }
            }
            i += 1;
        }
        proof {
            assert(keys.members().take(n as int) =~= keys.members());
            assert forall|k: Symbol| keys@.contains(k) <==> keys.members().contains(k) by {
                assert(keys.members().to_set().contains(k) <==> keys.members().contains(k));
            }
        }
    }

    /// Adds to the set of `key` the members of `other`, but for the empty
    /// string where `skip_epsilon` is set; tells whether the set grew. A key
    /// that the map lacks is given the empty set first.
    pub fn absorb(&mut self, key: Symbol, other: &SymbolSet, skip_epsilon: bool) -> (grew: bool)
        requires
            old(self).wf(),
        ensures
            final(self).wf(),
            final(self)@ == old(self)@.insert(
                key,
                lookup(old(self)@, key).union(
                    if skip_epsilon {
                        other@.remove(Symbol::Epsilon)
                    } else {
                        other@
                    },
                ),
            ),
            grew == (lookup(final(self)@, key) != lookup(old(self)@, key)),
            old(self).size() <= final(self).size(),
            grew ==> old(self).size() < final(self).size(),
    {
        let at = match self.position(&key) {
            Some(i) => i,
            None => {
                self.keys.push(key);
                self.sets.push(SymbolSet::new());
                proof {
                    lemma_total_len_push(old(self).sets@, self.sets@.last());
                    assert(self.keys@[self.keys@.len() - 1] == key);
                    assert(self.keys@.contains(key));
                    self.keys@.index_of_first_ensures(key);
                }
                self.keys.len() - 1
            },
        };
        let ghost mid = *self;
        proof {
            assert(mid.wf());
            assert(mid.keys@.index_of(key) == at);
            assert(mid.sets@[at as int]@ == lookup(old(self)@, key));
            assert(mid.size() == old(self).size());
            assert forall|k: Symbol| old(self).keys@.contains(k) implies mid.keys@.contains(k)
                && mid.keys@.index_of(k) == old(self).keys@.index_of(k) by {
                let j = old(self).keys@.index_of(k);
                assert(mid.keys@[j] == k);
                mid.keys@.index_of_first_ensures(k);
            }
            assert forall|k: Symbol| mid.keys@.contains(k) implies old(self).keys@.contains(k) || k
                == key by {
                let j = mid.keys@.index_of(k);
                if j < old(self).keys@.len() {
                    assert(old(self).keys@[j] == k);
                }
            }
        }
        let grew = self.sets[at].absorb(other, skip_epsilon);
        proof {
            lemma_total_len_update(mid.sets@, at as int, self.sets@[at as int]);
            assert(self.sets@ =~= mid.sets@.update(at as int, self.sets@[at as int]));
            assert(self.keys@ == mid.keys@);
            assert(self@ =~= old(self)@.insert(key, self.sets@[at as int]@));
        }
        grew
    }
}

} // verus!

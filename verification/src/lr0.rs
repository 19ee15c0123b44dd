//! LR(0) items, their closure, and the canonical collection of item sets.

use vstd::prelude::*;
use crate::grammar::{rules_view, Production, ProductionSpec};
use crate::symbol::Symbol;
use crate::state_map::StateMap;
use crate::symbol_set::SymbolSet;

verus! {

/// An LR(0) item: a production, by its place in a list of productions, and
/// the place of the dot in its right-hand side.
#[derive(Debug, Clone, Copy, PartialEq, Eq, Hash, Structural)]
pub struct Item {
    /// The place of the production in the list.
    pub rule: usize,
    /// How many symbols of the right-hand side stand before the dot.
    pub dot: usize,
}

/// Whether `item` names a rule of `rules` and a place in its right-hand side.
pub open spec fn item_ok(rules: Seq<ProductionSpec>, item: Item) -> bool {
    item.rule < rules.len() && item.dot <= rules[item.rule as int].rhs.len() <= usize::MAX
}

/// Whether the dot of `item` stands at the end of the right-hand side, or
/// before the symbol for the empty string.
pub open spec fn is_reduce_item(rules: Seq<ProductionSpec>, item: Item) -> bool {
    let rhs = rules[item.rule as int].rhs;
    item.dot >= rhs.len() || rhs[item.dot as int] == Symbol::Epsilon
}

/// The symbol after the dot, where `item` has one.
pub open spec fn symbol_after_dot(rules: Seq<ProductionSpec>, item: Item) -> Option<Symbol> {
    if is_reduce_item(rules, item) {
        None
    } else {
        Some(rules[item.rule as int].rhs[item.dot as int])
    }
}

/// The item of rule `rule` with the dot at the start.
pub open spec fn initial_item(rule: usize) -> Item {
    Item { rule, dot: 0 }
}

/// Whether the dot of `item` stands before the nonterminal that `target`, an
/// item with the dot at the start, rewrites.
pub open spec fn expands_to(rules: Seq<ProductionSpec>, item: Item, target: Item) -> bool {
    &&& item_ok(rules, item)
    &&& target.rule < rules.len()
    &&& target.dot == 0
    &&& rules[target.rule as int].lhs is Nonterminal
    &&& symbol_after_dot(rules, item) == Some(rules[target.rule as int].lhs)
}

/// Whether `items` holds, with each item whose dot stands before a
/// nonterminal, the initial items of that nonterminal's rules.
pub open spec fn closed_items(rules: Seq<ProductionSpec>, items: Set<Item>) -> bool {
    forall|item: Item, target: Item|
        items.contains(item) && #[trigger] expands_to(rules, item, target) ==> items.contains(target)
}

/// Whether `items` is closed and holds `kernel`.
pub open spec fn is_closed_superset(rules: Seq<ProductionSpec>, kernel: Set<Item>, items: Set<Item>) -> bool {
    kernel.subset_of(items) && closed_items(rules, items)
}

/// The closure of `kernel`: the items of every closed set that holds it.
pub open spec fn closure_of(rules: Seq<ProductionSpec>, kernel: Set<Item>) -> Set<Item> {
    Set::new(
        |item: Item|
            forall|items: Set<Item>| #[trigger] is_closed_superset(rules, kernel, items) ==> items.contains(item),
    )
}

/// The item before `item`: its dot one symbol to the left.
pub open spec fn item_before(item: Item) -> Item {
    Item { rule: item.rule, dot: (item.dot - 1) as usize }
}

/// The items of `items` whose dot stands before `symbol`, with the dot moved
/// past it.
pub open spec fn advance_set(rules: Seq<ProductionSpec>, items: Set<Item>, symbol: Symbol) -> Set<Item> {
    Set::new(
        |item: Item|
            item.dot > 0 && items.contains(item_before(item)) && item_ok(rules, item_before(item))
                && symbol_after_dot(rules, item_before(item)) == Some(symbol),
    )
}

/// The set that follows `items` on `symbol`: the closure of its items with
/// the dot moved past `symbol`.
pub open spec fn goto_of(rules: Seq<ProductionSpec>, items: Set<Item>, symbol: Symbol) -> Set<Item> {
    closure_of(rules, advance_set(rules, items, symbol))
}

/// The closure of a set is the least closed set that holds it.
pub proof fn lemma_closure_is_least(rules: Seq<ProductionSpec>, kernel: Set<Item>)
    ensures
        is_closed_superset(rules, kernel, closure_of(rules, kernel)),
        forall|items: Set<Item>| #[trigger]
            is_closed_superset(rules, kernel, items) ==> closure_of(rules, kernel).subset_of(items),
{
    let c = closure_of(rules, kernel);
    assert forall|item: Item, target: Item| c.contains(item) && #[trigger] expands_to(
        rules,
        item,
        target,
    ) implies c.contains(target) by {
        assert forall|items: Set<Item>| #[trigger]
            is_closed_superset(rules, kernel, items) implies items.contains(target) by {
            assert(items.contains(item));
        }
    }
}

/// A closed set that holds the kernel, and is within every such set, is the
/// closure.
pub proof fn lemma_closure_unique(rules: Seq<ProductionSpec>, kernel: Set<Item>, items: Set<Item>)
    requires
        is_closed_superset(rules, kernel, items),
        forall|other: Set<Item>| #[trigger] is_closed_superset(rules, kernel, other) ==> items.subset_of(other),
    ensures
        items == closure_of(rules, kernel),
{
    lemma_closure_is_least(rules, kernel);
    let c = closure_of(rules, kernel);
    assert(items.subset_of(c));
    assert(c.subset_of(items));
    assert(items =~= c);
}

/// The closure of no item is no item.
pub proof fn lemma_closure_of_empty(rules: Seq<ProductionSpec>)
    ensures
        closure_of(rules, Set::empty()) == Set::<Item>::empty(),
{
    let none = Set::<Item>::empty();
    assert(is_closed_superset(rules, none, none));
    lemma_closure_is_least(rules, none);
    assert(closure_of(rules, none) =~= none);
}

/// Whether each item of `items` is listed once and names a place in a rule.
pub open spec fn items_ok(rules: Seq<ProductionSpec>, items: Seq<Item>) -> bool {
    &&& items.no_duplicates()
    &&& forall|n: int| 0 <= n < items.len() ==> item_ok(rules, #[trigger] items[n])
}

impl Item {
    /// The item of the production at place `rule` with `dot` symbols before
    /// the dot.
    pub fn new(rule: usize, dot: usize) -> (item: Item)
        ensures
            item == (Item { rule, dot }),
    {
        Item { rule, dot }
    }

    /// The symbol after the dot, where the item has one.
    pub fn symbol_after_dot(&self, rules: &[Production]) -> (r: Option<Symbol>)
        requires
            item_ok(rules_view(rules@), *self),
        ensures
            r == symbol_after_dot(rules_view(rules@), *self),
    {
        let production = &rules[self.rule];
        if self.dot >= production.rhs.len() {
            None
        } else {
            let symbol = production.rhs[self.dot];
            if symbol.is_epsilon() {
                None
            } else {
                Some(symbol)
            }
        }
    }

    /// Whether the dot stands at the end, or before the symbol for the
    /// empty string.
    pub fn is_reduce_item(&self, rules: &[Production]) -> (b: bool)
        requires
            item_ok(rules_view(rules@), *self),
        ensures
            b == is_reduce_item(rules_view(rules@), *self),
    {
        let production = &rules[self.rule];
        self.dot >= production.rhs.len() || production.rhs[self.dot].is_epsilon()
    }
}

/// The items of `rules`: every place of the dot in every rule.
pub open spec fn all_items(rules: Seq<ProductionSpec>) -> Set<Item> {
    Set::new(|item: Item| item_ok(rules, item))
}

/// The items of rule `rule` with fewer than `count` symbols before the dot.
spec fn items_of_rule(rule: usize, count: nat) -> Set<Item>
    decreases count,
{
    if count == 0 {
        Set::empty()
    } else {
        items_of_rule(rule, (count - 1) as nat).insert(Item { rule, dot: (count - 1) as usize })
    }
}

/// The items of the first `n` rules.
spec fn items_of_rules(rules: Seq<ProductionSpec>, n: nat) -> Set<Item>
    decreases n,
{
    if n == 0 {
        Set::empty()
    } else {
        items_of_rules(rules, (n - 1) as nat).union(
            items_of_rule((n - 1) as usize, rules[n - 1].rhs.len() + 1),
        )
    }
}

/// The items of a rule with fewer than `count` symbols before the dot are
/// finitely many, and each such item is among them.
proof fn lemma_items_of_rule(rule: usize, count: nat)
    ensures
        items_of_rule(rule, count).finite(),
        forall|dot: usize| dot < count ==> #[trigger] items_of_rule(rule, count).contains(Item { rule, dot }),
    decreases count,
{
    if count > 0 {
        lemma_items_of_rule(rule, (count - 1) as nat);
        assert forall|dot: usize| dot < count implies #[trigger] items_of_rule(rule, count).contains(
            Item { rule, dot },
        ) by {
            if dot < count - 1 {
                assert(items_of_rule(rule, (count - 1) as nat).contains(Item { rule, dot }));
            }
        }
    }
}

/// The items of the first `n` rules are finitely many, and each item of one
/// of these rules is among them.
proof fn lemma_items_of_rules(rules: Seq<ProductionSpec>, n: nat)
    requires
        n <= rules.len(),
    ensures
        items_of_rules(rules, n).finite(),
        forall|item: Item| item.rule < n && #[trigger] item_ok(rules, item) ==> items_of_rules(rules, n).contains(item),
    decreases n,
{
    if n > 0 {
        lemma_items_of_rules(rules, (n - 1) as nat);
        lemma_items_of_rule((n - 1) as usize, rules[n - 1].rhs.len() + 1);
        assert forall|item: Item| item.rule < n && #[trigger] item_ok(rules, item) implies items_of_rules(
            rules,
            n,
        ).contains(item) by {
            if item.rule == n - 1 {
                assert(items_of_rule((n - 1) as usize, rules[n - 1].rhs.len() + 1).contains(
                    Item { rule: item.rule, dot: item.dot },
                ));
            }
        }
    }
}

/// A list of rules has finitely many items, and a list of items without
/// repetition is at most as long.
pub proof fn lemma_items_bound(rules: Seq<ProductionSpec>, items: Seq<Item>)
    requires
        items_ok(rules, items),
    ensures
        all_items(rules).finite(),
        items.len() <= all_items(rules).len(),
{
    let all = items_of_rules(rules, rules.len());
    lemma_items_of_rules(rules, rules.len());
    vstd::set_lib::lemma_len_subset(all_items(rules), all);
    items.unique_seq_to_set();
    assert(items.to_set().subset_of(all_items(rules))) by {
        assert forall|item: Item| items.to_set().contains(item) implies all_items(rules).contains(item) by {
            let n = choose|n: int| 0 <= n < items.len() && items[n] == item;
            assert(item_ok(rules, items[n]));
        }
    }
    vstd::set_lib::lemma_len_subset(items.to_set(), all_items(rules));
}

/// The number of subsets of a set of `n` elements.
pub open spec fn subset_count(n: nat) -> nat
    decreases n,
{
    if n == 0 {
        1
    } else {
        2 * subset_count((n - 1) as nat)
    }
}

/// A family of subsets of a finite set has at most as many members as the
/// set has subsets.
proof fn lemma_subsets_bound(family: Set<Set<Item>>, universe: Set<Item>)
    requires
        universe.finite(),
        family.finite(),
        forall|s: Set<Item>| #[trigger] family.contains(s) ==> s.subset_of(universe),
    ensures
        family.len() <= subset_count(universe.len()),
    decreases universe.len(),
{
    if universe.len() == 0 {
        universe.lemma_len0_is_empty();
        let none = Set::<Item>::empty();
        assert forall|s: Set<Item>| family.contains(s) implies set![none].contains(s) by {
            assert(s.subset_of(universe));
            assert(s =~= none);
        }
        vstd::set_lib::lemma_len_subset(family, set![none]);
    } else {
        let x = universe.choose();
        let rest = universe.remove(x);
        let holds = |s: Set<Item>| s.contains(x);
        let lacks = |s: Set<Item>| !s.contains(x);
        let strip = |s: Set<Item>| s.remove(x);
        let with = family.filter(holds);
        let without = family.filter(lacks);
        let stripped = with.map(strip);
        vstd::set_lib::lemma_len_subset(with, family);
        vstd::set_lib::lemma_len_subset(without, family);
        assert(family =~= with.union(without));
        assert(with.disjoint(without));
        vstd::set_lib::lemma_set_disjoint_lens(with, without);
        assert(vstd::relations::injective_on(strip, with)) by {
            assert forall|a: Set<Item>, b: Set<Item>|
                with.contains(a) && with.contains(b) && #[trigger] strip(a) == #[trigger] strip(b) implies a
                == b by {
                assert forall|e: Item| a.contains(e) == b.contains(e) by {
                    if e != x {
                        assert(a.remove(x).contains(e) == a.contains(e));
                        assert(b.remove(x).contains(e) == b.contains(e));
                    }
                }
                assert(a =~= b);
            }
        }
        vstd::set_lib::lemma_map_size(with, stripped, strip);
        assert forall|s: Set<Item>| #[trigger] stripped.contains(s) implies s.subset_of(rest) by {
            let a = choose|a: Set<Item>| with.contains(a) && s == strip(a);
            assert(a.subset_of(universe));
        }
        assert forall|s: Set<Item>| #[trigger] without.contains(s) implies s.subset_of(rest) by {
            assert(s.subset_of(universe));
        }
        lemma_subsets_bound(stripped, rest);
        lemma_subsets_bound(without, rest);
    }
}

/// Lists of items of `rules` that hold different sets of items are at most
/// as many as the items of `rules` have subsets.
pub proof fn lemma_states_bound(rules: Seq<ProductionSpec>, states: Seq<Seq<Item>>)
    requires
        forall|s: int| 0 <= s < states.len() ==> items_ok(rules, #[trigger] states[s]),
        forall|a: int, b: int|
            0 <= a < b < states.len() ==> (#[trigger] states[a]).to_set() != (#[trigger] states[b]).to_set(),
    ensures
        all_items(rules).finite(),
        states.len() <= subset_count(all_items(rules).len()),
{
    lemma_items_bound(rules, Seq::empty());
    let sets = Seq::new(states.len(), |s: int| states[s].to_set());
    assert(sets.no_duplicates()) by {
        assert forall|a: int, b: int| 0 <= a < sets.len() && 0 <= b < sets.len() && a != b implies sets[a]
            != sets[b] by {
            if a < b {
                assert(states[a].to_set() != states[b].to_set());
            } else {
                assert(states[b].to_set() != states[a].to_set());
            }
        }
    }
    sets.unique_seq_to_set();
    vstd::seq_lib::seq_to_set_is_finite(sets);
    assert forall|set: Set<Item>| #[trigger] sets.to_set().contains(set) implies set.subset_of(
        all_items(rules),
    ) by {
        let s = choose|s: int| 0 <= s < sets.len() && sets[s] == set;
        assert(items_ok(rules, states[s]));
        assert forall|item: Item| set.contains(item) implies all_items(rules).contains(item) by {
            let n = choose|n: int| 0 <= n < states[s].len() && states[s][n] == item;
            assert(item_ok(rules, states[s][n]));
        }
    }
    lemma_subsets_bound(sets.to_set(), all_items(rules));
}

/// Whether `item` is among `items`.
pub fn has_item(items: &Vec<Item>, item: Item) -> (b: bool)
    ensures
        b == items@.contains(item),
{
    let mut n: usize = 0;
    while n < items.len()
        invariant
            n <= items.len(),
            forall|j: int| 0 <= j < n ==> items@[j] != item,
        decreases items.len() - n,
    {
        if items[n] == item {
            return true;
        }
        n += 1;
    }
    false
}

/// Whether the two lists hold the same items.
pub fn same_items(a: &Vec<Item>, b: &Vec<Item>) -> (same: bool)
    requires
        a@.no_duplicates(),
        b@.no_duplicates(),
    ensures
        same == (a@.to_set() == b@.to_set()),
{
    proof {
        a@.unique_seq_to_set();
        b@.unique_seq_to_set();
        vstd::seq_lib::seq_to_set_is_finite(a@);
        vstd::seq_lib::seq_to_set_is_finite(b@);
    }
    if a.len() != b.len() {
        return false;
    }
    let mut n: usize = 0;
    while n < a.len()
        invariant
            n <= a.len(),
            forall|j: int| 0 <= j < n ==> b@.contains(#[trigger] a@[j]),
        decreases a.len() - n,
    {
        if !has_item(b, a[n]) {
            proof {
                assert(a@.to_set().contains(a@[n as int]));
            }
            return false;
        }
        n += 1;
    }
    proof {
        assert(a@.to_set().subset_of(b@.to_set())) by {
            assert forall|item: Item| a@.to_set().contains(item) implies b@.to_set().contains(item) by {
                let j = choose|j: int| 0 <= j < a@.len() && a@[j] == item;
                assert(b@.contains(a@[j]));
            }
        }
        vstd::set_lib::lemma_subset_equality(a@.to_set(), b@.to_set());
    }
    true
}

/// Closes a set of items: for each item whose dot stands before a
/// nonterminal, the initial item of each of that nonterminal's productions
/// is added, until nothing is left to add.
pub fn closure(rules: &[Production], items: Vec<Item>) -> (result: Vec<Item>)
    requires
        items_ok(rules_view(rules@), items@),
    ensures
        items_ok(rules_view(rules@), result@),
        result@.to_set() == closure_of(rules_view(rules@), items@.to_set()),
{
    let ghost rv = rules_view(rules@);
    let ghost kernel = items@.to_set();
    let mut result = items;
    let mut at: usize = 0;
    while at < result.len()
        invariant
            at <= result.len(),
            rv == rules_view(rules@),
            items_ok(rv, result@),
            kernel.subset_of(result@.to_set()),
            forall|other: Set<Item>| #[trigger]
                is_closed_superset(rv, kernel, other) ==> result@.to_set().subset_of(other),
            forall|n: int, target: Item|
                0 <= n < at && #[trigger] expands_to(rv, result@[n], target) ==> result@.contains(target),
        decreases all_items(rv).len() - at,
    {
        proof {
            lemma_items_bound(rv, result@);
        }
        let item = result[at];
        let ghost entered = result@;
        match item.symbol_after_dot(rules) {
            Some(symbol) => {
                if symbol.is_nonterminal() {
                    let mut k: usize = 0;
                    while k < rules.len()
                        invariant
                            k <= rules.len(),
                            at < result.len(),
                            rv == rules_view(rules@),
                            item == result@[at as int],
                            item_ok(rv, item),
                            symbol_after_dot(rv, item) == Some(symbol),
                            symbol is Nonterminal,
                            items_ok(rv, result@),
                            entered.len() <= result@.len(),
                            result@.take(entered.len() as int) == entered,
                            kernel.subset_of(result@.to_set()),
                            forall|other: Set<Item>| #[trigger]
                                is_closed_superset(rv, kernel, other) ==> result@.to_set().subset_of(other),
                            forall|target: Item|
                                target.rule < k && #[trigger] expands_to(rv, item, target) ==> result@.contains(
                                    target,
                                ),
                        decreases rules.len() - k,
                    {
                        if rules[k].lhs == symbol {
                            let fresh = Item::new(k, 0);
                            assert(rules@[k as int].rhs.len() <= usize::MAX);
                            if !has_item(&result, fresh) {
                                let ghost before = result@;
                                result.push(fresh);
                                proof {
                                    before.lemma_push_to_set_commute(fresh);
                                    assert(expands_to(rv, item, fresh));
                                    assert(before.to_set().contains(item)) by {
                                        assert(before[at as int] == item);
                                    }
                                    assert forall|other: Set<Item>| #[trigger]
                                        is_closed_superset(rv, kernel, other) implies result@.to_set().subset_of(
                                        other,
                                    ) by {
                                        assert(before.to_set().subset_of(other));
                                        assert(other.contains(item));
                                    }
                                    assert(result@.take(entered.len() as int) =~= before.take(
                                        entered.len() as int,
                                    ));
                                    assert forall|target: Item|
                                        target.rule < k && #[trigger] expands_to(
                                            rv,
                                            item,
                                            target,
                                        ) implies result@.contains(target) by {
                                        assert(before.contains(target));
                                        let j = choose|j: int| 0 <= j < before.len() && before[j] == target;
                                        assert(result@[j] == target);
                                    }
                                }
                            }
                            assert(result@.contains(fresh)) by {
                                assert(result@.to_set().contains(fresh));
                            }
                        }
                        proof {
                            assert forall|target: Item|
                                target.rule < k + 1 && #[trigger] expands_to(
                                    rv,
                                    item,
                                    target,
                                ) implies result@.contains(target) by {
                                if target.rule == k {
                                    assert(target == Item { rule: k, dot: 0 });
                                }
                            }
                        }
                        k += 1;
                    }
                }
            },
            None => {},
        }
        proof {
            assert forall|n: int, target: Item|
                0 <= n < at + 1 && #[trigger] expands_to(rv, result@[n], target) implies result@.contains(
                target,
            ) by {
                if n < at {
                    assert(result@[n] == entered[n]) by {
                        if result@.len() != entered.len() {
                            assert(result@.take(entered.len() as int)[n] == result@[n]);
                        }
                    }
                    assert(entered.contains(target));
                    let j = choose|j: int| 0 <= j < entered.len() && entered[j] == target;
                    assert(result@[j] == target) by {
                        if result@.len() != entered.len() {
                            assert(result@.take(entered.len() as int)[j] == result@[j]);
                        }
                    }
                }
            }
        }
        at += 1;
    }
    proof {
        let set = result@.to_set();
        assert(closed_items(rv, set)) by {
            assert forall|item: Item, target: Item| set.contains(item) && #[trigger] expands_to(
                rv,
                item,
                target,
            ) implies set.contains(target) by {
                let n = choose|n: int| 0 <= n < result@.len() && result@[n] == item;
                assert(expands_to(rv, result@[n], target));
            }
        }
        lemma_closure_unique(rv, kernel, set);
    }
    result
}

/// The set that follows `items` on `symbol`: each item whose dot stands
/// before `symbol`, with the dot moved past it, and the closure of these.
pub fn goto(rules: &[Production], items: &Vec<Item>, symbol: Symbol) -> (result: Vec<Item>)
    requires
        items_ok(rules_view(rules@), items@),
    ensures
        items_ok(rules_view(rules@), result@),
        result@.to_set() == goto_of(rules_view(rules@), items@.to_set(), symbol),
{
    let ghost rv = rules_view(rules@);
    let mut moved: Vec<Item> = Vec::new();
    let mut n: usize = 0;
    while n < items.len()
        invariant
            n <= items.len(),
            rv == rules_view(rules@),
            items_ok(rv, items@),
            items_ok(rv, moved@),
            forall|item: Item|
                moved@.contains(item) <==> item.dot > 0 && items@.take(n as int).contains(item_before(item))
                    && symbol_after_dot(rv, item_before(item)) == Some(symbol),
        decreases items.len() - n,
    {
        let item = items[n];
        let ghost before = moved@;
        let ghost seen = items@.take(n as int);
        let ghost next = items@.take(n as int + 1);
        proof {
            assert(next =~= seen.push(item));
            assert forall|other: Item| next.contains(other) <==> seen.contains(other) || other == item by {
                if next.contains(other) {
                    let j = choose|j: int| 0 <= j < next.len() && next[j] == other;
                    if j < seen.len() {
                        assert(seen[j] == other);
                    }
                }
                if seen.contains(other) {
                    let j = choose|j: int| 0 <= j < seen.len() && seen[j] == other;
                    assert(next[j] == other);
                }
                if other == item {
                    assert(next[n as int] == other);
                }
            }
            assert(!seen.contains(item)) by {
                if seen.contains(item) {
                    let j = choose|j: int| 0 <= j < seen.len() && seen[j] == item;
                    assert(items@[j] == item && items@[n as int] == item);
                }
            }
        }
        let found = item.symbol_after_dot(rules);
        let take = match found {
            Some(s) => s == symbol,
            None => false,
        };
        proof {
            assert(item_ok(rv, items@[n as int]));
            assert(take == (symbol_after_dot(rv, item) == Some(symbol)));
        }
        if take {
            assert(item.dot < rules@[item.rule as int].rhs.len());
            let advanced = Item::new(item.rule, item.dot + 1);
            moved.push(advanced);
            proof {
                assert(item_before(advanced) == item);
                assert(!before.contains(advanced));
                assert forall|other: Item| moved@.contains(other) <==> before.contains(other) || other
                    == advanced by {
                    if moved@.contains(other) {
                        let j = choose|j: int| 0 <= j < moved@.len() && moved@[j] == other;
                        if j < before.len() {
                            assert(before[j] == other);
                        }
                    }
                    if before.contains(other) {
                        let j = choose|j: int| 0 <= j < before.len() && before[j] == other;
                        assert(moved@[j] == other);
                    }
                    if other == advanced {
                        assert(moved@[before.len() as int] == other);
                    }
                }
                assert forall|other: Item|
                    moved@.contains(other) <==> other.dot > 0 && next.contains(item_before(other))
                        && symbol_after_dot(rv, item_before(other)) == Some(symbol) by {
                    let prior = item_before(other);
                    assert(before.contains(other) <==> other.dot > 0 && seen.contains(prior)
                        && symbol_after_dot(rv, prior) == Some(symbol));
                    assert(next.contains(prior) <==> seen.contains(prior) || prior == item);
                    if other.dot > 0 && prior == item {
                        assert(other == advanced);
                    }
                }
            }
        } else {
            proof {
                assert forall|other: Item|
                    moved@.contains(other) <==> other.dot > 0 && next.contains(item_before(other))
                        && symbol_after_dot(rv, item_before(other)) == Some(symbol) by {
                    let prior = item_before(other);
                    assert(before.contains(other) <==> other.dot > 0 && seen.contains(prior)
                        && symbol_after_dot(rv, prior) == Some(symbol));
                    assert(next.contains(prior) <==> seen.contains(prior) || prior == item);
                }
            }
        }
        n += 1;
    }
    proof {
        assert(items@.take(n as int) =~= items@);
        assert forall|item: Item| moved@.to_set().contains(item) <==> advance_set(
            rv,
            items@.to_set(),
            symbol,
        ).contains(item) by {
            if item.dot > 0 && items@.contains(item_before(item)) {
                let j = choose|j: int| 0 <= j < items@.len() && items@[j] == item_before(item);
                assert(item_ok(rv, items@[j]));
            }
        }
        assert(moved@.to_set() =~= advance_set(rv, items@.to_set(), symbol));
    }
    closure(rules, moved)
}

/// The edges of an automaton: the state that follows a state on a symbol.
pub type Edges = Map<(usize, Symbol), usize>;

/// Whether the edges give state `s` on `symbol` the state whose items are
/// those that follow the items of `s` on `symbol`; and no state where no
/// item follows.
pub open spec fn edge_ok(
    rules: Seq<ProductionSpec>,
    states: Seq<Seq<Item>>,
    edges: Edges,
    s: usize,
    symbol: Symbol,
) -> bool {
    let target = goto_of(rules, states[s as int].to_set(), symbol);
    if target == Set::<Item>::empty() {
        !edges.contains_key((s, symbol))
    } else {
        &&& edges.contains_key((s, symbol))
        &&& edges[(s, symbol)] < states.len()
        &&& states[edges[(s, symbol)] as int].to_set() == target
    }
}

/// Whether state `b` follows an earlier state on some symbol.
pub open spec fn is_reached(edges: Edges, b: int) -> bool {
    exists|a: usize, symbol: Symbol| #[trigger]
        edges.contains_key((a, symbol)) && a < b && edges[(a, symbol)] == b
}

/// Whether `states` and `edges` are the canonical collection of sets of
/// LR(0) items of `rules`, whose first rule stands for the whole grammar:
/// the first state is the closure of that rule's initial item; the states
/// are different sets; each edge leads to the set that follows; and every
/// other state follows an earlier one.
pub open spec fn is_canonical(rules: Seq<ProductionSpec>, states: Seq<Seq<Item>>, edges: Edges) -> bool {
    &&& states.len() > 0
    &&& forall|s: int| 0 <= s < states.len() ==> items_ok(rules, #[trigger] states[s])
    &&& states[0].to_set() == closure_of(rules, set![initial_item(0)])
    &&& forall|a: int, b: int|
        0 <= a < b < states.len() ==> (#[trigger] states[a]).to_set() != (#[trigger] states[b]).to_set()
    &&& forall|s: usize, symbol: Symbol| s < states.len() ==> #[trigger] edge_ok(rules, states, edges, s, symbol)
    &&& forall|key: (usize, Symbol)| #[trigger] edges.contains_key(key) ==> key.0 < states.len()
    &&& forall|b: int| 0 < b < states.len() ==> #[trigger] is_reached(edges, b)
}

/// The lists of items of `states`.
pub open spec fn states_view(states: Seq<Vec<Item>>) -> Seq<Seq<Item>> {
    Seq::new(states.len(), |s: int| states[s]@)
}

/// The canonical collection of sets of LR(0) items of a list of productions.
#[derive(Debug)]
pub struct Lr0Automaton {
    states: Vec<Vec<Item>>,
    edges: StateMap<usize>,
}

/// The symbols that stand after the dot of an item of `items`.
pub open spec fn symbols_after_dot(rules: Seq<ProductionSpec>, items: Seq<Item>) -> Set<Symbol> {
    Set::new(
        |symbol: Symbol|
            exists|n: int| 0 <= n < items.len() && #[trigger] symbol_after_dot(rules, items[n]) == Some(symbol),
    )
}

/// A state has an item to follow on `symbol` just where `symbol` stands
/// after the dot of one of its items.
pub proof fn lemma_goto_empty(rules: Seq<ProductionSpec>, items: Seq<Item>, symbol: Symbol)
    requires
        items_ok(rules, items),
    ensures
        symbols_after_dot(rules, items).contains(symbol) <==> goto_of(rules, items.to_set(), symbol)
            != Set::<Item>::empty(),
{
    let moved = advance_set(rules, items.to_set(), symbol);
    lemma_closure_is_least(rules, moved);
    if symbols_after_dot(rules, items).contains(symbol) {
        let n = choose|n: int| 0 <= n < items.len() && #[trigger] symbol_after_dot(rules, items[n]) == Some(
            symbol,
        );
        let item = items[n];
        assert(item.dot < rules[item.rule as int].rhs.len());
        let advanced = Item { rule: item.rule, dot: (item.dot + 1) as usize };
        assert(item_before(advanced) == item);
        assert(items.to_set().contains(item));
        assert(moved.contains(advanced));
        assert(goto_of(rules, items.to_set(), symbol).contains(advanced));
    } else {
        assert(moved =~= Set::<Item>::empty()) by {
            assert forall|item: Item| !moved.contains(item) by {
                if moved.contains(item) {
                    let prior = item_before(item);
                    let n = choose|n: int| 0 <= n < items.len() && items[n] == prior;
                    assert(symbol_after_dot(rules, items[n]) == Some(symbol));
                }
            }
        }
        lemma_closure_of_empty(rules);
    }
}

impl Lr0Automaton {
    /// The states: each a list of items, without repetition.
    pub closed spec fn states(&self) -> Seq<Seq<Item>> {
        states_view(self.states@)
    }

    /// The edges.
    pub closed spec fn edges(&self) -> Edges {
        self.edges@
    }

    /// The automaton holds its edges in good order.
    pub closed spec fn wf(&self) -> bool {
        self.edges.wf()
    }

    /// The states can be counted in a machine word.
    pub proof fn lemma_state_count(&self)
        ensures
            self.states().len() <= usize::MAX,
    {
        assert(self.states.len() == self.states@.len());
    }

    /// The number of states.
    pub fn len(&self) -> (n: usize)
        ensures
            n == self.states().len(),
    {
        self.states.len()
    }

    /// The items of state `s`.
    pub fn state(&self, s: usize) -> (items: &Vec<Item>)
        requires
            s < self.states().len(),
        ensures
            items@ == self.states()[s as int],
    {
        &self.states[s]
    }

    /// The state that follows state `s` on `symbol`, if one does.
    pub fn edge(&self, s: usize, symbol: Symbol) -> (r: Option<usize>)
        requires
            self.wf(),
        ensures
            r == if self.edges().contains_key((s, symbol)) {
                Some(self.edges()[(s, symbol)])
            } else {
                None
            },
    {
        self.edges.get((s, symbol))
    }

    /// The pairs of a state and a symbol that have an edge, in the order in
    /// which the edges were found.
    pub closed spec fn edge_keys(&self) -> Seq<(usize, Symbol)> {
        self.edges.keys_in_order()
    }

    /// The listed pairs are those that have an edge, once each.
    pub proof fn lemma_edge_keys(&self)
        requires
            self.wf(),
        ensures
            self.edge_keys().no_duplicates(),
            self.edge_keys().to_set() == self.edges().dom(),
    {
        self.edges.lemma_keys_in_order();
    }

    /// The number of edges.
    pub fn edge_count(&self) -> (n: usize)
        requires
            self.wf(),
        ensures
            n == self.edge_keys().len(),
    {
        proof {
            self.edges.lemma_keys_in_order();
        }
        self.edges.len()
    }

    /// The edge at position `n` of the order in which the edges were found:
    /// its state and symbol, and the state it leads to.
    pub fn edge_at(&self, n: usize) -> (r: ((usize, Symbol), usize))
        requires
            self.wf(),
            n < self.edge_keys().len(),
        ensures
            r.0 == self.edge_keys()[n as int],
            self.edges().contains_key(r.0),
            self.edges()[r.0] == r.1,
    {
        proof {
            self.edges.lemma_keys_in_order();
        }
        self.edges.entry(n)
    }

    /// The symbols that stand after the dot of an item of `items`.
    fn symbols_to_follow(rules: &[Production], items: &Vec<Item>) -> (symbols: SymbolSet)
        requires
            items_ok(rules_view(rules@), items@),
        ensures
            symbols.wf(),
            symbols@ == symbols_after_dot(rules_view(rules@), items@),
    {
        let ghost rv = rules_view(rules@);
        let mut symbols = SymbolSet::new();
        let mut n: usize = 0;
        while n < items.len()
            invariant
                n <= items.len(),
                rv == rules_view(rules@),
                items_ok(rv, items@),
                symbols.wf(),
                symbols@ == symbols_after_dot(rv, items@.take(n as int)),
            decreases items.len() - n,
        {
            let ghost before = symbols@;
            let ghost seen = items@.take(n as int);
            let ghost next = items@.take(n as int + 1);
            let found = items[n].symbol_after_dot(rules);
            match found {
                Some(symbol) => {
                    symbols.insert(symbol);
                },
                None => {},
            }
            proof {
                assert(next =~= seen.push(items@[n as int]));
                assert forall|symbol: Symbol| symbols@.contains(symbol) <==> symbols_after_dot(
                    rv,
                    next,
                ).contains(symbol) by {
                    if symbols_after_dot(rv, next).contains(symbol) {
                        let j = choose|j: int| 0 <= j < next.len() && #[trigger] symbol_after_dot(rv, next[j])
                            == Some(symbol);
                        if j < n {
                            assert(symbol_after_dot(rv, seen[j]) == Some(symbol));
                        }
                    }
                    if before.contains(symbol) {
                        let j = choose|j: int| 0 <= j < seen.len() && #[trigger] symbol_after_dot(rv, seen[j])
                            == Some(symbol);
                        assert(symbol_after_dot(rv, next[j]) == Some(symbol));
                    }
                    if found == Some(symbol) {
                        assert(symbol_after_dot(rv, next[n as int]) == Some(symbol));
                    }
                }
                assert(symbols@ =~= symbols_after_dot(rv, next));
            }
            n += 1;
        }
        assert(items@.take(n as int) =~= items@);
        symbols
    }

    /// The place of the state with the items of `items`, if there is one.
    fn find_state(states: &Vec<Vec<Item>>, items: &Vec<Item>) -> (r: Option<usize>)
        requires
            items@.no_duplicates(),
            forall|s: int| 0 <= s < states@.len() ==> (#[trigger] states@[s])@.no_duplicates(),
        ensures
            match r {
                Some(s) => s < states@.len() && states@[s as int]@.to_set() == items@.to_set(),
                None => forall|s: int|
                    0 <= s < states@.len() ==> (#[trigger] states@[s])@.to_set() != items@.to_set(),
            },
    {
        let mut s: usize = 0;
        while s < states.len()
            invariant
                s <= states.len(),
                items@.no_duplicates(),
                forall|a: int| 0 <= a < states@.len() ==> (#[trigger] states@[a])@.no_duplicates(),
                forall|a: int| 0 <= a < s ==> (#[trigger] states@[a])@.to_set() != items@.to_set(),
            decreases states.len() - s,
        {
            if same_items(&states[s], items) {
                return Some(s);
            }
            s += 1;
        }
        None
    }

    /// Builds the canonical collection of `rules`, whose first production
    /// stands for the whole grammar: from the closure of that production's
    /// initial item, each state is followed on each symbol that stands after
    /// the dot of one of its items, and a set of items that is no state yet
    /// becomes the next state.
    pub fn build(rules: &[Production]) -> (automaton: Lr0Automaton)
        requires
            rules@.len() > 0,
        ensures
            automaton.wf(),
            is_canonical(rules_view(rules@), automaton.states(), automaton.edges()),
    {
        let ghost rv = rules_view(rules@);
        let mut kernel: Vec<Item> = Vec::new();
        kernel.push(Item::new(0, 0));
        proof {
            assert(kernel@ =~= seq![initial_item(0)]);
            assert(kernel@[0] == initial_item(0));
            assert forall|item: Item| kernel@.contains(item) <==> item == initial_item(0) by {
                if kernel@.contains(item) {
                    let j = choose|j: int| 0 <= j < kernel@.len() && kernel@[j] == item;
                }
            }
            assert(kernel@.to_set() =~= set![initial_item(0)]);
            assert(rules@[0].rhs.len() <= usize::MAX);
        }
        let first = closure(rules, kernel);
        let mut states: Vec<Vec<Item>> = Vec::new();
        states.push(first);
        let mut edges: StateMap<usize> = StateMap::new();
        let mut next: usize = 0;
        while next < states.len()
            invariant
                next <= states.len(),
                rules@.len() > 0,
                rv == rules_view(rules@),
                edges.wf(),
                states@.len() > 0,
                forall|s: int| 0 <= s < states@.len() ==> items_ok(rv, #[trigger] states_view(states@)[s]),
                states_view(states@)[0].to_set() == closure_of(rv, set![initial_item(0)]),
                forall|a: int, b: int|
                    0 <= a < b < states@.len() ==> (#[trigger] states_view(states@)[a]).to_set() != (
                    #[trigger] states_view(states@)[b]).to_set(),
                forall|s: usize, symbol: Symbol|
                    s < next ==> #[trigger] edge_ok(rv, states_view(states@), edges@, s, symbol),
                forall|key: (usize, Symbol)| #[trigger]
                    edges@.contains_key(key) ==> key.0 < next && edges@[key] < states@.len(),
                forall|b: int| 0 < b < states@.len() ==> #[trigger] is_reached(edges@, b),
            decreases subset_count(all_items(rv).len()) - next,
        {
            proof {
                lemma_states_bound(rv, states_view(states@));
            }
            proof {
                assert(states_view(states@)[next as int] == states@[next as int]@);
            }
            let symbols = Self::symbols_to_follow(rules, &states[next]);
            let count = symbols.len();
            let ghost from = states_view(states@)[next as int];
            proof {
                symbols.lemma_members();
                assert(from == states@[next as int]@);
            }
            let mut n: usize = 0;
            while n < count
                invariant
                    n <= count,
                    count == symbols.members().len(),
                    symbols.wf(),
                    symbols.members().no_duplicates(),
                    symbols.members().to_set() == symbols@,
                    symbols@ == symbols_after_dot(rv, from),
                    next < states.len(),
                    rules@.len() > 0,
                    rv == rules_view(rules@),
                    edges.wf(),
                    from == states_view(states@)[next as int],
                    forall|s: int| 0 <= s < states@.len() ==> items_ok(rv, #[trigger] states_view(states@)[s]),
                    states_view(states@)[0].to_set() == closure_of(rv, set![initial_item(0)]),
                    forall|a: int, b: int|
                        0 <= a < b < states@.len() ==> (#[trigger] states_view(states@)[a]).to_set() != (
                        #[trigger] states_view(states@)[b]).to_set(),
                    forall|s: usize, symbol: Symbol|
                        s < next ==> #[trigger] edge_ok(rv, states_view(states@), edges@, s, symbol),
                    forall|j: int|
                        0 <= j < n ==> edge_ok(rv, states_view(states@), edges@, next, #[trigger] symbols.members()[j]),
                    forall|key: (usize, Symbol)| #[trigger]
                        edges@.contains_key(key) ==> (key.0 < next || (key.0 == next
                            && symbols.members().take(n as int).contains(key.1))) && edges@[key] < states@.len(),
                    forall|b: int| 0 < b < states@.len() ==> #[trigger] is_reached(edges@, b),
                decreases count - n,
            {
                let symbol = symbols.get(n);
                let target = goto(rules, &states[next], symbol);
                let ghost old_states = states_view(states@);
                let ghost old_edges = edges@;
                let ghost done = symbols.members().take(n as int);
                proof {
                    assert(states@[next as int]@ == from);
                    assert(!done.contains(symbol)) by {
                        if done.contains(symbol) {
                            let j = choose|j: int| 0 <= j < done.len() && done[j] == symbol;
                            assert(symbols.members()[j] == symbol);
                        }
                    }
                    assert(!old_edges.contains_key((next, symbol)));
                    assert forall|s: int| 0 <= s < states@.len() implies (#[trigger] states@[s])@.no_duplicates() by {
                        assert(items_ok(rv, states_view(states@)[s]));
                    }
                }
                if target.len() > 0 {
                    let to = match Self::find_state(&states, &target) {
                        Some(s) => s,
                        None => {
                            states.push(target);
                            states.len() - 1
                        },
                    };
                    edges.insert((next, symbol), to);
                    proof {
                        let new_states = states_view(states@);
                        assert(new_states.len() >= old_states.len());
                        assert forall|s: int| 0 <= s < old_states.len() implies new_states[s] == old_states[s] by {}
                        assert(new_states[to as int].to_set() == goto_of(rv, from.to_set(), symbol));
                        assert(new_states[to as int].to_set() != Set::<Item>::empty()) by {
                            assert(new_states[to as int].to_set().contains(target@[0])) by {
                                assert(target@.to_set().contains(target@[0]));
                            }
                        }
                        assert forall|a: int, b: int| 0 <= a < b < new_states.len() implies (
                        #[trigger] new_states[a]).to_set() != (#[trigger] new_states[b]).to_set() by {
                            if b < old_states.len() {
                                assert(old_states[a].to_set() != old_states[b].to_set());
                            } else {
                                assert(states@[a]@.to_set() != target@.to_set());
                            }
                        }
                        assert forall|s: usize, other: Symbol| s < next implies #[trigger] edge_ok(
                            rv,
                            new_states,
                            edges@,
                            s,
                            other,
                        ) by {
                            assert(edge_ok(rv, old_states, old_edges, s, other));
                            assert(new_states[s as int] == old_states[s as int]);
                            if old_edges.contains_key((s, other)) {
                                assert(new_states[old_edges[(s, other)] as int] == old_states[old_edges[(
                                    s,
                                    other,
                                )] as int]);
                            }
                        }
                        assert forall|j: int| 0 <= j < n + 1 implies edge_ok(
                            rv,
                            new_states,
                            edges@,
                            next,
                            #[trigger] symbols.members()[j],
                        ) by {
                            let other = symbols.members()[j];
                            if j < n {
                                assert(edge_ok(rv, old_states, old_edges, next, other));
                                assert(other != symbol);
                                if old_edges.contains_key((next, other)) {
                                    assert(new_states[old_edges[(next, other)] as int] == old_states[old_edges[(
                                        next,
                                        other,
                                    )] as int]);
                                }
                            }
                        }
                        assert forall|key: (usize, Symbol)| #[trigger] edges@.contains_key(key) implies (key.0
                            < next || (key.0 == next && symbols.members().take(n as int + 1).contains(key.1)))
                            && edges@[key] < states@.len() by {
                            if key == (next, symbol) {
                                assert(symbols.members().take(n as int + 1)[n as int] == symbol);
                            } else {
                                assert(old_edges.contains_key(key));
                                if key.0 == next {
                                    let j = choose|j: int| 0 <= j < done.len() && done[j] == key.1;
                                    assert(symbols.members().take(n as int + 1)[j] == key.1);
                                }
                            }
                        }
                        assert forall|b: int| 0 < b < new_states.len() implies #[trigger] is_reached(
                            edges@,
                            b,
                        ) by {
                            if b < old_states.len() {
                                assert(is_reached(old_edges, b));
                                let (a, x) = choose|a: usize, x: Symbol| #[trigger]
                                    old_edges.contains_key((a, x)) && a < b && old_edges[(a, x)] == b;
                                assert(edges@.contains_key((a, x)) && a < b && edges@[(a, x)] == b);
                            } else {
                                assert(edges@.contains_key((next, symbol)) && next < b && edges@[(next, symbol)]
                                    == b);
                            }
                        }
                    }
                } else {
                    proof {
                        assert(target@.to_set() =~= Set::<Item>::empty()) by {
                            assert forall|item: Item| !target@.to_set().contains(item) by {
                                if target@.contains(item) {
                                    let j = choose|j: int| 0 <= j < target@.len() && target@[j] == item;
                                }
                            }
                        }
                        assert forall|key: (usize, Symbol)| #[trigger] edges@.contains_key(key) implies (key.0
                            < next || (key.0 == next && symbols.members().take(n as int + 1).contains(key.1)))
                            && edges@[key] < states@.len() by {
                            if key.0 == next {
                                let j = choose|j: int| 0 <= j < done.len() && done[j] == key.1;
                                assert(symbols.members().take(n as int + 1)[j] == key.1);
                            }
                        }
                    }
                }
                n += 1;
            }
            proof {
                let all = states_view(states@);
                assert(symbols.members().take(n as int) =~= symbols.members());
                assert forall|symbol: Symbol| #[trigger] edge_ok(rv, all, edges@, next, symbol) by {
                    lemma_goto_empty(rv, from, symbol);
                    if symbols@.contains(symbol) {
                        let j = choose|j: int| 0 <= j < symbols.members().len() && symbols.members()[j]
                            == symbol;
                        assert(edge_ok(rv, all, edges@, next, symbols.members()[j]));
                    } else {
                        if edges@.contains_key((next, symbol)) {
                            assert(symbols.members().contains(symbol));
                            assert(symbols.members().to_set().contains(symbol));
                        }
                    }
                }
            }
            next += 1;
        }
        Lr0Automaton { states, edges }
    }
}

} // verus!

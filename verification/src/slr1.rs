//! The SLR(1) tables and their shift-reduce recognizer.

use vstd::prelude::*;
use crate::error::GrammarError;
use crate::first_follow::{FollowSets, Sets};
use crate::grammar::{
    augmented_start, derives_within, is_derivation, rules_view, start_symbol, Grammar, Production,
    ProductionSpec, AUGMENTED_START_CHAR,
};
use crate::ll1::STEP_LIMIT;
use crate::lr0::{
    is_canonical, is_reduce_item, item_ok, items_ok, symbol_after_dot, Edges, Item, Lr0Automaton,
};
use crate::agreement::{augmented_steps, given_steps, lemma_augmented_derivation, lemma_given_derivation};
use crate::first_follow::{is_first_solution, is_follow_solution};
use crate::slr1_language::{
    is_augmented, is_proper, lemma_accept_step, lemma_first_item, lemma_slr_run_derives, lemma_symbol_runs,
    stands_at, Built,
};
use crate::state_map::StateMap;
use crate::symbol::{classify, classify_all, string_to_symbols, Symbol};
use crate::symbol_set::{lookup, SymbolSet};

verus! {

/// What a shift-reduce recognizer does in a state on a lookahead symbol.
#[derive(Debug, Clone, Copy, PartialEq, Eq, Structural)]
pub enum Action {
    /// Push the lookahead symbol and go to the state.
    Shift(usize),
    /// Replace the right-hand side of the production, by its place in the
    /// list of productions, by its left-hand side.
    Reduce(usize),
    /// Accept the input.
    Accept,
}

/// An ACTION table as a mathematical value.
pub type Actions = Map<(usize, Symbol), Action>;

/// Whether a reduction by rule `rule` in state `s` on `t` finds the cell
/// taken: by a shift, or by a reduction by another rule.
pub open spec fn reduce_blocked(actions: Actions, s: usize, rule: usize, t: Symbol) -> bool {
    actions.contains_key((s, t)) && match actions[(s, t)] {
        Action::Shift(_) => true,
        Action::Reduce(other) => other != rule,
        Action::Accept => false,
    }
}

/// The ACTION table after `item` of state `s` has been scanned; none where
/// the item is in conflict with `actions`.
///
/// An item with a terminal or the end marker after the dot, in a state with
/// an edge on that symbol, shifts to the edge's state; the cell must be
/// empty. An item with the dot at the end accepts on the end marker where
/// its rule is the one that stands for the whole grammar; else it reduces on
/// each symbol that follows its left-hand side: an empty cell is filled, a
/// cell that accepts or reduces by the same rule is kept, and any other cell
/// is a conflict.
pub open spec fn after_item(
    rules: Seq<ProductionSpec>,
    edges: Edges,
    follow: Sets,
    actions: Actions,
    s: usize,
    item: Item,
) -> Option<Actions> {
    let rule = rules[item.rule as int];
    if !is_reduce_item(rules, item) {
        let symbol = rule.rhs[item.dot as int];
        if (symbol is Terminal || symbol is EndMarker) && edges.contains_key((s, symbol)) {
            if actions.contains_key((s, symbol)) {
                None
            } else {
                Some(actions.insert((s, symbol), Action::Shift(edges[(s, symbol)])))
            }
        } else {
            Some(actions)
        }
    } else if rule.lhs == augmented_start() {
        Some(actions.insert((s, Symbol::EndMarker), Action::Accept))
    } else {
        let ahead = lookup(follow, rule.lhs);
        if exists|t: Symbol| ahead.contains(t) && #[trigger] reduce_blocked(actions, s, item.rule, t) {
            None
        } else {
            Some(with_reductions(actions, s, item.rule, ahead))
        }
    }
}

/// `actions` with each empty cell of state `s` and a symbol of `ahead`
/// filled by the reduction by rule `rule`.
pub open spec fn with_reductions(actions: Actions, s: usize, rule: usize, ahead: Set<Symbol>) -> Actions {
    Map::new(
        |key: (usize, Symbol)| actions.contains_key(key) || (key.0 == s && ahead.contains(key.1)),
        |key: (usize, Symbol)|
            if actions.contains_key(key) {
                actions[key]
            } else {
                Action::Reduce(rule)
            },
    )
}

/// The ACTION table after the states before `s` and the first `n` items of
/// state `s` have been scanned in their order; none where an item was in
/// conflict with the table before it.
pub open spec fn scan_to(
    rules: Seq<ProductionSpec>,
    edges: Edges,
    follow: Sets,
    states: Seq<Seq<Item>>,
    s: int,
    n: int,
) -> Option<Actions>
    decreases s, n,
{
    if n > 0 {
        match scan_to(rules, edges, follow, states, s, n - 1) {
            Some(actions) => after_item(rules, edges, follow, actions, s as usize, states[s][n - 1]),
            None => None,
        }
    } else if s > 0 {
        scan_to(rules, edges, follow, states, s - 1, states[s - 1].len() as int)
    } else {
        Some(Map::empty())
    }
}

/// The ACTION table of an automaton by the FOLLOW sets `follow`; none where
/// there is a conflict.
pub open spec fn action_table_of(
    rules: Seq<ProductionSpec>,
    edges: Edges,
    follow: Sets,
    states: Seq<Seq<Item>>,
) -> Option<Actions> {
    scan_to(rules, edges, follow, states, states.len() as int, 0)
}

/// The GOTO table of an automaton: its edges on nonterminals.
pub open spec fn goto_table_of(edges: Edges) -> Edges {
    Map::new(|key: (usize, Symbol)| edges.contains_key(key) && key.1 is Nonterminal, |key: (usize, Symbol)| edges[key])
}

/// Once an item is in conflict, no table comes of scanning further.
pub proof fn lemma_scan_fails_on(
    rules: Seq<ProductionSpec>,
    edges: Edges,
    follow: Sets,
    states: Seq<Seq<Item>>,
    s: int,
    n: int,
    s2: int,
    n2: int,
)
    requires
        scan_to(rules, edges, follow, states, s, n) is None,
        0 <= s <= s2,
        0 <= n <= states[s].len(),
        0 <= n2,
        s < s2 || n <= n2,
    ensures
        scan_to(rules, edges, follow, states, s2, n2) is None,
    decreases s2, n2,
{
    if s2 == s && n2 == n {
    } else if n2 > 0 {
        lemma_scan_fails_on(rules, edges, follow, states, s, n, s2, n2 - 1);
    } else {
        lemma_scan_fails_on(rules, edges, follow, states, s, n, s2 - 1, states[s2 - 1].len() as int);
    }
}

/// Whether `e` reports the conflict of `item` of state `s` with `actions`.
pub open spec fn slr_report(
    rules: Seq<ProductionSpec>,
    follow: Sets,
    actions: Actions,
    s: usize,
    item: Item,
    e: GrammarError,
) -> bool {
    let rule = rules[item.rule as int];
    if !is_reduce_item(rules, item) {
        &&& e matches GrammarError::SLR1ShiftReduceConflict { state, symbol }
        &&& state == s
        &&& symbol@ == seq![rule.rhs[item.dot as int].glyph()]
    } else {
        exists|t: Symbol|
            lookup(follow, rule.lhs).contains(t) && #[trigger] reduce_blocked(actions, s, item.rule, t)
                && match actions[(s, t)] {
                Action::Shift(_) => {
                    &&& e matches GrammarError::SLR1ShiftReduceConflict { state, symbol }
                    &&& state == s
                    &&& symbol@ == seq![t.glyph()]
                },
                Action::Reduce(other) => {
                    &&& e matches GrammarError::SLR1ReduceReduceConflict { state, symbol, prod1, prod2 }
                    &&& state == s
                    &&& symbol@ == seq![t.glyph()]
                    &&& prod1@ == rules[other as int].text()
                    &&& prod2@ == rule.text()
                },
                Action::Accept => false,
            }
    }
}

/// Whether each reduction of `actions` is by a rule of `rules`.
pub open spec fn reductions_ok(rules: Seq<ProductionSpec>, actions: Actions) -> bool {
    forall|key: (usize, Symbol)| #[trigger]
        actions.contains_key(key) ==> (actions[key] matches Action::Reduce(rule) ==> rule < rules.len())
}

/// What `item` of state `s` asks of the cell of state `s` and symbol `t`:
/// to shift, where `t` is a terminal or the end marker after its dot and
/// the state has an edge on it; to accept, where `t` is the end marker and
/// the item is the whole grammar with the dot at its end; to reduce, where
/// the dot is at the end and `t` follows the left-hand side.
pub open spec fn item_asks(
    rules: Seq<ProductionSpec>,
    edges: Edges,
    follow: Sets,
    s: usize,
    item: Item,
    t: Symbol,
) -> Option<Action> {
    let rule = rules[item.rule as int];
    if !is_reduce_item(rules, item) {
        if rule.rhs[item.dot as int] == t && (t is Terminal || t is EndMarker) && edges.contains_key((s, t)) {
            Some(Action::Shift(edges[(s, t)]))
        } else {
            None
        }
    } else if rule.lhs == augmented_start() {
        if t == Symbol::EndMarker {
            Some(Action::Accept)
        } else {
            None
        }
    } else if lookup(follow, rule.lhs).contains(t) {
        Some(Action::Reduce(item.rule))
    } else {
        None
    }
}

/// Whether item `b` of state `a` is scanned before item `n` of state `s`.
pub open spec fn scanned_before(states: Seq<Seq<Item>>, s: int, n: int, a: usize, b: int) -> bool {
    0 <= b < states[a as int].len() && (a < s || (a == s && b < n))
}

/// Whether items `b1` and `b2` of state `a`, `b1` the earlier, are in
/// conflict on `t`: both ask something of the cell, and not both to reduce by
/// one rule.
pub open spec fn collide(
    rules: Seq<ProductionSpec>,
    edges: Edges,
    follow: Sets,
    states: Seq<Seq<Item>>,
    a: usize,
    b1: int,
    b2: int,
    t: Symbol,
) -> bool {
    let first = item_asks(rules, edges, follow, a, states[a as int][b1], t);
    let second = item_asks(rules, edges, follow, a, states[a as int][b2], t);
    &&& 0 <= b1 < b2 < states[a as int].len()
    &&& first is Some
    &&& second is Some
    &&& !(first == second && first->0 is Reduce)
}

/// Whether two items of a state of the automaton are in conflict.
pub open spec fn has_collision(
    rules: Seq<ProductionSpec>,
    edges: Edges,
    follow: Sets,
    states: Seq<Seq<Item>>,
) -> bool {
    exists|a: usize, b1: int, b2: int, t: Symbol|
        a < states.len() && #[trigger] collide(rules, edges, follow, states, a, b1, b2, t)
}

/// Whether `actions` is what the items scanned before item `n` of state `s`
/// ask: each cell holds what one of the items of its state asks of it; what
/// an item asks of a cell is in the cell, unless the cell accepts; and no two
/// of the items are in conflict, unless their cell accepts.
pub open spec fn actions_match(
    rules: Seq<ProductionSpec>,
    edges: Edges,
    follow: Sets,
    states: Seq<Seq<Item>>,
    s: int,
    n: int,
    actions: Actions,
) -> bool {
    &&& forall|key: (usize, Symbol)| #[trigger]
        actions.contains_key(key) ==> exists|b: int| #[trigger]
            scanned_before(states, s, n, key.0, b) && item_asks(
                rules,
                edges,
                follow,
                key.0,
                states[key.0 as int][b],
                key.1,
            ) == Some(actions[key])
    &&& forall|a: usize, b: int, t: Symbol|
        #![trigger scanned_before(states, s, n, a, b), actions.contains_key((a, t))]
        scanned_before(states, s, n, a, b) && item_asks(rules, edges, follow, a, states[a as int][b], t)
            is Some ==> actions.contains_key((a, t)) && (actions[(a, t)] == Action::Accept || Some(
            actions[(a, t)],
        ) == item_asks(rules, edges, follow, a, states[a as int][b], t))
    &&& forall|a: usize, b1: int, b2: int, t: Symbol|
        #![trigger scanned_before(states, s, n, a, b2), collide(rules, edges, follow, states, a, b1, b2, t)]
        scanned_before(states, s, n, a, b2) && collide(rules, edges, follow, states, a, b1, b2, t)
            ==> actions.contains_key((a, t)) && actions[(a, t)] == Action::Accept
}

/// The table that comes of a scan is what the scanned items ask.
pub proof fn lemma_scan_matches(
    rules: Seq<ProductionSpec>,
    edges: Edges,
    follow: Sets,
    states: Seq<Seq<Item>>,
    s: int,
    n: int,
)
    requires
        0 <= s <= states.len() <= usize::MAX,
        0 <= n,
        s < states.len() ==> n <= states[s].len(),
        s == states.len() ==> n == 0,
        scan_to(rules, edges, follow, states, s, n) is Some,
    ensures
        actions_match(rules, edges, follow, states, s, n, scan_to(rules, edges, follow, states, s, n)->0),
    decreases s, n,
{
    let table = scan_to(rules, edges, follow, states, s, n)->0;
    if n > 0 {
        lemma_scan_matches(rules, edges, follow, states, s, n - 1);
        let before = scan_to(rules, edges, follow, states, s, n - 1)->0;
        let item = states[s][n - 1];
        let at = s as usize;
        assert(after_item(rules, edges, follow, before, at, item) == Some(table));
        assert forall|key: (usize, Symbol)| #[trigger] table.contains_key(key) implies exists|b: int| #[trigger]
            scanned_before(states, s, n, key.0, b) && item_asks(
                rules,
                edges,
                follow,
                key.0,
                states[key.0 as int][b],
                key.1,
            ) == Some(table[key]) by {
            if before.contains_key(key) && before[key] == table[key] {
                let b = choose|b: int| #[trigger]
                    scanned_before(states, s, n - 1, key.0, b) && item_asks(
                        rules,
                        edges,
                        follow,
                        key.0,
                        states[key.0 as int][b],
                        key.1,
                    ) == Some(before[key]);
                assert(scanned_before(states, s, n, key.0, b));
            } else {
                assert(key.0 == at);
                assert(scanned_before(states, s, n, key.0, n - 1));
                assert(item_asks(rules, edges, follow, key.0, states[key.0 as int][n - 1], key.1) == Some(
                    table[key],
                ));
            }
        }
        assert forall|a: usize, b: int, t: Symbol|
            #![trigger scanned_before(states, s, n, a, b), table.contains_key((a, t))]
            scanned_before(states, s, n, a, b) && item_asks(rules, edges, follow, a, states[a as int][b], t)
                is Some implies table.contains_key((a, t)) && (table[(a, t)] == Action::Accept || Some(
            table[(a, t)],
        ) == item_asks(rules, edges, follow, a, states[a as int][b], t)) by {
            if a == s && b == n - 1 {
                let asked = item_asks(rules, edges, follow, a, item, t)->0;
                match asked {
                    Action::Reduce(_) => {
                        if before.contains_key((a, t)) {
                            assert(!reduce_blocked(before, at, item.rule, t));
                        }
                    },
                    _ => {},
                }
            } else {
                assert(scanned_before(states, s, n - 1, a, b));
                assert(before.contains_key((a, t)));
            }
        }
        assert forall|a: usize, b1: int, b2: int, t: Symbol|
            #![trigger scanned_before(states, s, n, a, b2), collide(rules, edges, follow, states, a, b1, b2, t)]
            scanned_before(states, s, n, a, b2) && collide(
                rules,
                edges,
                follow,
                states,
                a,
                b1,
                b2,
                t,
            ) implies table.contains_key((a, t)) && table[(a, t)] == Action::Accept by {
            if a == s && b2 == n - 1 {
                assert(scanned_before(states, s, n - 1, a, b1));
                assert(before.contains_key((a, t)));
                if item_asks(rules, edges, follow, a, item, t)->0 is Reduce {
                    assert(!reduce_blocked(before, at, item.rule, t));
                }
            } else {
                assert(scanned_before(states, s, n - 1, a, b2));
                assert(before.contains_key((a, t)) && before[(a, t)] == Action::Accept);
            }
        }
    } else if s > 0 {
        lemma_scan_matches(rules, edges, follow, states, s - 1, states[s - 1].len() as int);
        let last = states[s - 1].len() as int;
        assert(table == scan_to(rules, edges, follow, states, s - 1, last)->0);
        assert forall|key: (usize, Symbol)| #[trigger] table.contains_key(key) implies exists|b: int| #[trigger]
            scanned_before(states, s, n, key.0, b) && item_asks(
                rules,
                edges,
                follow,
                key.0,
                states[key.0 as int][b],
                key.1,
            ) == Some(table[key]) by {
            let b = choose|b: int| #[trigger]
                scanned_before(states, s - 1, last, key.0, b) && item_asks(
                    rules,
                    edges,
                    follow,
                    key.0,
                    states[key.0 as int][b],
                    key.1,
                ) == Some(table[key]);
            assert(scanned_before(states, s, n, key.0, b));
        }
        assert forall|a: usize, b: int, t: Symbol|
            #![trigger scanned_before(states, s, n, a, b), table.contains_key((a, t))]
            scanned_before(states, s, n, a, b) && item_asks(rules, edges, follow, a, states[a as int][b], t)
                is Some implies table.contains_key((a, t)) && (table[(a, t)] == Action::Accept || Some(
            table[(a, t)],
        ) == item_asks(rules, edges, follow, a, states[a as int][b], t)) by {
            assert(scanned_before(states, s - 1, last, a, b));
            assert(table.contains_key((a, t)));
        }
        assert forall|a: usize, b1: int, b2: int, t: Symbol|
            #![trigger scanned_before(states, s, n, a, b2), collide(rules, edges, follow, states, a, b1, b2, t)]
            scanned_before(states, s, n, a, b2) && collide(
                rules,
                edges,
                follow,
                states,
                a,
                b1,
                b2,
                t,
            ) implies table.contains_key((a, t)) && table[(a, t)] == Action::Accept by {
            assert(scanned_before(states, s - 1, last, a, b2));
        }
    } else {
    }
}

/// Whether `item` of state `s` gives a reason for `action` in the cell of
/// `t`: to shift, the symbol after its dot and the edge on it; to reduce, the
/// dot at the end of the rule; to accept, the dot at the end of the rule
/// that stands for the whole grammar, and the end marker.
pub open spec fn justifies(
    rules: Seq<ProductionSpec>,
    edges: Edges,
    s: usize,
    item: Item,
    t: Symbol,
    action: Action,
) -> bool {
    match action {
        Action::Shift(to) => symbol_after_dot(rules, item) == Some(t) && edges.contains_key((s, t)) && edges[(
            s,
            t,
        )] == to,
        Action::Reduce(rule) => item.rule == rule && is_reduce_item(rules, item),
        Action::Accept => is_reduce_item(rules, item) && rules[item.rule as int].lhs == augmented_start() && t
            == Symbol::EndMarker,
    }
}

/// Whether each cell of `actions` has a reason in an item of its state.
pub open spec fn actions_justified(
    rules: Seq<ProductionSpec>,
    edges: Edges,
    states: Seq<Seq<Item>>,
    actions: Actions,
) -> bool {
    forall|key: (usize, Symbol)| #[trigger]
        actions.contains_key(key) ==> key.0 < states.len() && exists|b: int|
            0 <= b < states[key.0 as int].len() && #[trigger] justifies(
                rules,
                edges,
                key.0,
                states[key.0 as int][b],
                key.1,
                actions[key],
            )
}

/// A table that is what the scanned items ask has a reason for each cell.
pub proof fn lemma_match_justifies(
    rules: Seq<ProductionSpec>,
    edges: Edges,
    follow: Sets,
    states: Seq<Seq<Item>>,
    actions: Actions,
)
    requires
        actions_match(rules, edges, follow, states, states.len() as int, 0, actions),
    ensures
        actions_justified(rules, edges, states, actions),
{
    assert forall|key: (usize, Symbol)| #[trigger] actions.contains_key(key) implies key.0 < states.len()
        && exists|b: int|
        0 <= b < states[key.0 as int].len() && #[trigger] justifies(
            rules,
            edges,
            key.0,
            states[key.0 as int][b],
            key.1,
            actions[key],
        ) by {
        let b = choose|b: int| #[trigger]
            scanned_before(states, states.len() as int, 0, key.0, b) && item_asks(
                rules,
                edges,
                follow,
                key.0,
                states[key.0 as int][b],
                key.1,
            ) == Some(actions[key]);
        assert(justifies(rules, edges, key.0, states[key.0 as int][b], key.1, actions[key]));
    }
}

/// An item that is in conflict with the table of the items before it is in
/// conflict with one of the items before it in its state.
pub proof fn lemma_conflict_collides(
    rules: Seq<ProductionSpec>,
    edges: Edges,
    follow: Sets,
    states: Seq<Seq<Item>>,
    s: int,
    n: int,
)
    requires
        0 <= s < states.len() <= usize::MAX,
        0 <= n < states[s].len(),
        scan_to(rules, edges, follow, states, s, n) matches Some(actions) && after_item(
            rules,
            edges,
            follow,
            actions,
            s as usize,
            states[s][n],
        ) is None,
    ensures
        exists|b: int, t: Symbol| #[trigger] collide(rules, edges, follow, states, s as usize, b, n, t),
{
    lemma_scan_matches(rules, edges, follow, states, s, n);
    let actions = scan_to(rules, edges, follow, states, s, n)->0;
    let item = states[s][n];
    let at = s as usize;
    let rule = rules[item.rule as int];
    let t = if !is_reduce_item(rules, item) {
        rule.rhs[item.dot as int]
    } else {
        choose|t: Symbol| lookup(follow, rule.lhs).contains(t) && #[trigger] reduce_blocked(actions, at, item.rule, t)
    };
    assert(actions.contains_key((at, t)));
    let b = choose|b: int| #[trigger]
        scanned_before(states, s, n, at, b) && item_asks(rules, edges, follow, at, states[at as int][b], t)
            == Some(actions[(at, t)]);
    assert(collide(rules, edges, follow, states, at, b, n, t));
}

/// Scanning an item keeps each reduction by a rule of `rules`.
pub proof fn lemma_after_item_reductions(
    rules: Seq<ProductionSpec>,
    edges: Edges,
    follow: Sets,
    actions: Actions,
    s: usize,
    item: Item,
)
    requires
        reductions_ok(rules, actions),
        item_ok(rules, item),
    ensures
        after_item(rules, edges, follow, actions, s, item) matches Some(next) ==> reductions_ok(rules, next),
{
}

/// Scans `item` of state `s`: records its action in `actions`, or reports
/// its conflict.
fn scan_item(
    rules: &[Production],
    automaton: &Lr0Automaton,
    follow_sets: &FollowSets,
    actions: &mut StateMap<Action>,
    s: usize,
    item: Item,
) -> (r: Result<(), GrammarError>)
    requires
        automaton.wf(),
        follow_sets.wf(),
        old(actions).wf(),
        item_ok(rules_view(rules@), item),
        reductions_ok(rules_view(rules@), old(actions)@),
    ensures
        final(actions).wf(),
        match r {
            Ok(_) => after_item(
                rules_view(rules@),
                automaton.edges(),
                follow_sets@,
                old(actions)@,
                s,
                item,
            ) == Some(final(actions)@),
            Err(e) => after_item(rules_view(rules@), automaton.edges(), follow_sets@, old(actions)@, s, item)
                is None && slr_report(rules_view(rules@), follow_sets@, old(actions)@, s, item, e),
        },
{
    let ghost rv = rules_view(rules@);
    let ghost before = actions@;
    let ghost follow = follow_sets@;
    if !item.is_reduce_item(rules) {
        match item.symbol_after_dot(rules) {
            Some(symbol) => {
                if symbol.is_terminal() || symbol.is_end_marker() {
                    match automaton.edge(s, symbol) {
                        Some(to) => {
                            if actions.get((s, symbol)).is_some() {
                                return Err(
                                    GrammarError::SLR1ShiftReduceConflict {
                                        state: s,
                                        symbol: symbol.to_string(),
                                    },
                                );
                            }
                            actions.insert((s, symbol), Action::Shift(to));
                        },
                        None => {},
                    }
                }
            },
            None => {},
        }
        Ok(())
    } else {
        let production = &rules[item.rule];
        let lhs = production.lhs;
        if lhs == Symbol::Nonterminal(AUGMENTED_START_CHAR) {
            actions.insert((s, Symbol::EndMarker), Action::Accept);
            return Ok(());
        }
        let empty = SymbolSet::new();
        let ahead = match follow_sets.get(&lhs) {
            Some(set) => set,
            None => &empty,
        };
        let count = ahead.len();
        proof {
            ahead.lemma_members();
            assert(ahead@ == lookup(follow, rv[item.rule as int].lhs));
        }
        let mut n: usize = 0;
        while n < count
            invariant
                n <= count,
                count == ahead.members().len(),
                ahead.wf(),
                ahead.members().no_duplicates(),
                ahead.members().to_set() == ahead@,
                actions.wf(),
                rv == rules_view(rules@),
                item.rule < rules@.len(),
                production == rules@[item.rule as int],
                before == old(actions)@,
                follow == follow_sets@,
                ahead@ == lookup(follow, rv[item.rule as int].lhs),
                is_reduce_item(rv, item),
                rv[item.rule as int].lhs != augmented_start(),
                reductions_ok(rv, before),
                actions@ == with_reductions(before, s, item.rule, ahead.members().take(n as int).to_set()),
                forall|j: int|
                    0 <= j < n ==> !reduce_blocked(before, s, item.rule, #[trigger] ahead.members()[j]),
            decreases count - n,
        {
            let t = ahead.get(n);
            let ghost done = ahead.members().take(n as int);
            let ghost next = ahead.members().take(n as int + 1);
            proof {
                assert(next =~= done.push(t));
                done.lemma_push_to_set_commute(t);
                assert(!done.to_set().contains(t)) by {
                    if done.contains(t) {
                        let j = choose|j: int| 0 <= j < done.len() && done[j] == t;
                        assert(ahead.members()[j] == t);
                    }
                }
                assert(actions@.contains_key((s, t)) == before.contains_key((s, t)));
            }
            match actions.get((s, t)) {
                Some(Action::Shift(_)) => {
                    let e = GrammarError::SLR1ShiftReduceConflict { state: s, symbol: t.to_string() };
                    proof {
                        assert(reduce_blocked(before, s, item.rule, t));
                        assert(ahead@.contains(t));
                    }
                    return Err(e);
                },
                Some(Action::Reduce(other)) => {
                    if other != item.rule {
                        proof {
                            assert(before.contains_key((s, t)));
                            assert(other < rv.len());
                        }
                        let e = GrammarError::SLR1ReduceReduceConflict {
                            state: s,
                            symbol: t.to_string(),
                            prod1: rules[other].to_string(),
                            prod2: production.to_string(),
                        };
                        proof {
                            assert(reduce_blocked(before, s, item.rule, t));
                            assert(ahead@.contains(t));
                        }
                        return Err(e);
                    }
                    proof {
                        assert(actions@ =~= with_reductions(before, s, item.rule, next.to_set()));
                    }
                },
                Some(Action::Accept) => {
                    proof {
                        assert(actions@ =~= with_reductions(before, s, item.rule, next.to_set()));
                    }
                },
                None => {
                    actions.insert((s, t), Action::Reduce(item.rule));
                    proof {
                        assert(actions@ =~= with_reductions(before, s, item.rule, next.to_set()));
                    }
                },
            }
            n += 1;
        }
        proof {
            assert(ahead.members().take(n as int) =~= ahead.members());
            assert forall|t: Symbol| ahead@.contains(t) implies !#[trigger] reduce_blocked(
                before,
                s,
                item.rule,
                t,
            ) by {
                let j = choose|j: int| 0 <= j < ahead.members().len() && ahead.members()[j] == t;
                assert(!reduce_blocked(before, s, item.rule, ahead.members()[j]));
            }
        }
        Ok(())
    }
}

/// Builds the ACTION and GOTO tables of an automaton by the FOLLOW sets
/// `follow_sets`: the items of each state are scanned in their order, the
/// states in theirs, and the first conflict ends the build.
pub fn build_tables(rules: &[Production], automaton: &Lr0Automaton, follow_sets: &FollowSets) -> (r: Result<
    (StateMap<Action>, StateMap<usize>),
    GrammarError,
>)
    requires
        automaton.wf(),
        follow_sets.wf(),
        forall|s: int|
            0 <= s < automaton.states().len() ==> items_ok(rules_view(rules@), #[trigger] automaton.states()[s]),
    ensures
        match r {
            Ok((actions, gotos)) => {
                &&& actions.wf()
                &&& gotos.wf()
                &&& action_table_of(rules_view(rules@), automaton.edges(), follow_sets@, automaton.states())
                    == Some(actions@)
                &&& reductions_ok(rules_view(rules@), actions@)
                &&& gotos@ == goto_table_of(automaton.edges())
            },
            Err(e) => {
                &&& action_table_of(rules_view(rules@), automaton.edges(), follow_sets@, automaton.states())
                    is None
                &&& has_collision(rules_view(rules@), automaton.edges(), follow_sets@, automaton.states())
                &&& exists|s: int, n: int|
                    #![trigger scan_to(rules_view(rules@), automaton.edges(), follow_sets@, automaton.states(), s, n)]
                    conflict_at(
                        rules_view(rules@),
                        automaton.edges(),
                        follow_sets@,
                        automaton.states(),
                        s,
                        n,
                        e,
                    )
            },
        },
{
    let ghost rv = rules_view(rules@);
    let ghost edges = automaton.edges();
    let ghost follow = follow_sets@;
    let ghost states = automaton.states();
    let mut actions: StateMap<Action> = StateMap::new();
    let total = automaton.len();
    let mut s: usize = 0;
    while s < total
        invariant
            s <= total,
            total == states.len(),
            automaton.wf(),
            follow_sets.wf(),
            rv == rules_view(rules@),
            edges == automaton.edges(),
            follow == follow_sets@,
            states == automaton.states(),
            forall|a: int| 0 <= a < states.len() ==> items_ok(rv, #[trigger] states[a]),
            actions.wf(),
            reductions_ok(rv, actions@),
            scan_to(rv, edges, follow, states, s as int, 0) == Some(actions@),
        decreases total - s,
    {
        let items = automaton.state(s);
        let mut n: usize = 0;
        while n < items.len()
            invariant
                n <= items.len(),
                s < total,
                total == states.len(),
                automaton.wf(),
                follow_sets.wf(),
                rv == rules_view(rules@),
                edges == automaton.edges(),
                follow == follow_sets@,
                states == automaton.states(),
                items@ == states[s as int],
                forall|a: int| 0 <= a < states.len() ==> items_ok(rv, #[trigger] states[a]),
                actions.wf(),
                reductions_ok(rv, actions@),
                scan_to(rv, edges, follow, states, s as int, n as int) == Some(actions@),
            decreases items.len() - n,
        {
            let item = items[n];
            let ghost before = actions@;
            proof {
                assert(items_ok(rv, states[s as int]));
                assert(item_ok(rv, items@[n as int]));
                lemma_after_item_reductions(rv, edges, follow, before, s, item);
            }
            match scan_item(rules, automaton, follow_sets, &mut actions, s, item) {
                Err(e) => {
                    proof {
                        assert(scan_to(rv, edges, follow, states, s as int, n as int + 1) is None);
                        lemma_scan_fails_on(
                            rv,
                            edges,
                            follow,
                            states,
                            s as int,
                            n as int + 1,
                            states.len() as int,
                            0,
                        );
                        assert(conflict_at(rv, edges, follow, states, s as int, n as int, e));
                        lemma_conflict_collides(rv, edges, follow, states, s as int, n as int);
                    }
                    return Err(e);
                },
                Ok(_) => {},
            }
            n += 1;
        }
        s += 1;
    }
    let mut gotos: StateMap<usize> = StateMap::new();
    let count = automaton.edge_count();
    let mut n: usize = 0;
    proof {
        automaton.lemma_edge_keys();
    }
    while n < count
        invariant
            n <= count,
            automaton.wf(),
            edges == automaton.edges(),
            count == automaton.edge_keys().len(),
            automaton.edge_keys().to_set() == edges.dom(),
            gotos.wf(),
            gotos@ == Map::new(
                |key: (usize, Symbol)|
                    automaton.edge_keys().take(n as int).contains(key) && key.1 is Nonterminal,
                |key: (usize, Symbol)| edges[key],
            ),
        decreases count - n,
    {
        let (key, to) = automaton.edge_at(n);
        let ghost done = automaton.edge_keys().take(n as int);
        let ghost next = automaton.edge_keys().take(n as int + 1);
        if key.1.is_nonterminal() {
            gotos.insert(key, to);
        }
        proof {
            assert(next =~= done.push(key));
            assert forall|other: (usize, Symbol)| next.contains(other) <==> done.contains(other) || other
                == key by {
                done.lemma_push_to_set_commute(key);
                assert(next.to_set().contains(other) <==> done.to_set().contains(other) || other == key);
            }
            assert(gotos@ =~= Map::new(
                |key: (usize, Symbol)| next.contains(key) && key.1 is Nonterminal,
                |key: (usize, Symbol)| edges[key],
            ));
        }
        n += 1;
    }
    proof {
        assert(automaton.edge_keys().take(n as int) =~= automaton.edge_keys());
        assert forall|key: (usize, Symbol)| automaton.edge_keys().contains(key) <==> edges.contains_key(
            key,
        ) by {
            assert(automaton.edge_keys().to_set().contains(key) <==> edges.dom().contains(key));
        }
        assert(gotos@ =~= goto_table_of(edges));
    }
    Ok((actions, gotos))
}

/// Whether the scan reaches item `n` of state `s` with a table, and `e`
/// reports the conflict of that item with the table.
pub open spec fn conflict_at(
    rules: Seq<ProductionSpec>,
    edges: Edges,
    follow: Sets,
    states: Seq<Seq<Item>>,
    s: int,
    n: int,
    e: GrammarError,
) -> bool {
    &&& 0 <= s < states.len()
    &&& 0 <= n < states[s].len()
    &&& s <= usize::MAX
    &&& scan_to(rules, edges, follow, states, s, n) matches Some(actions)
    &&& after_item(rules, edges, follow, actions, s as usize, states[s][n]) is None
    &&& slr_report(rules, follow, actions, s as usize, states[s][n], e)
}

/// The rules of `rules` without repetition: each at its first place.
pub open spec fn distinct_rules(rules: Seq<ProductionSpec>) -> Seq<ProductionSpec>
    decreases rules.len(),
{
    if rules.len() == 0 {
        Seq::empty()
    } else {
        let front = distinct_rules(rules.drop_last());
        if front.contains(rules.last()) {
            front
        } else {
            front.push(rules.last())
        }
    }
}

/// Each of the rules without repetition is one of the rules.
pub proof fn lemma_distinct_rules(rules: Seq<ProductionSpec>)
    ensures
        forall|i: int| 0 <= i < distinct_rules(rules).len() ==> rules.contains(#[trigger] distinct_rules(rules)[i]),
    decreases rules.len(),
{
    if rules.len() > 0 {
        let front = rules.drop_last();
        lemma_distinct_rules(front);
        assert forall|i: int| 0 <= i < distinct_rules(rules).len() implies rules.contains(
            #[trigger] distinct_rules(rules)[i],
        ) by {
            if i < distinct_rules(front).len() {
                let rule = distinct_rules(front)[i];
                assert(front.contains(rule));
                let j = choose|j: int| 0 <= j < front.len() && front[j] == rule;
                assert(rules[j] == rule);
            } else {
                assert(rules[rules.len() - 1] == distinct_rules(rules)[i]);
            }
        }
    }
}

/// Each of the rules is among the rules without repetition.
pub proof fn lemma_distinct_rules_cover(rules: Seq<ProductionSpec>)
    ensures
        forall|k: int| 0 <= k < rules.len() ==> distinct_rules(rules).contains(#[trigger] rules[k]),
    decreases rules.len(),
{
    if rules.len() > 0 {
        let front = rules.drop_last();
        lemma_distinct_rules_cover(front);
        let some = distinct_rules(front);
        let all = distinct_rules(rules);
        assert forall|k: int| 0 <= k < rules.len() implies all.contains(#[trigger] rules[k]) by {
            if k < front.len() {
                assert(front[k] == rules[k]);
                assert(some.contains(front[k]));
                let j = choose|j: int| 0 <= j < some.len() && some[j] == front[k];
                assert(all[j] == rules[k]);
            } else if some.contains(rules[k]) {
            } else {
                assert(all[all.len() - 1] == rules[k]);
            }
        }
    }
}

/// The rule that stands for the whole grammar: the augmented start symbol
/// rewritten to the start symbol.
pub open spec fn augmented_rule() -> ProductionSpec {
    ProductionSpec { lhs: augmented_start(), rhs: seq![start_symbol()] }
}

/// The rules that the automaton of a grammar is built on: the rule that
/// stands for the whole grammar, then the grammar's rules without
/// repetition.
pub open spec fn augmented_rules(rules: Seq<ProductionSpec>) -> Seq<ProductionSpec> {
    seq![augmented_rule()] + distinct_rules(rules)
}

/// How many states a reduction by `rule` pops: one for each symbol of the
/// right-hand side; none for the empty string.
pub open spec fn pop_count(rule: ProductionSpec) -> nat {
    if rule.is_empty_rule() {
        0
    } else {
        rule.rhs.len()
    }
}

/// The run of the shift-reduce machine from `stack`, whose top is its last
/// state, at position `pos` of `input`, within `fuel` steps. The machine
/// does what the ACTION table says for the top state and the symbol at
/// `pos`: it accepts; or pushes the state to shift to and moves on; or pops
/// as many states as the reduction says and pushes the state that the GOTO
/// table gives for the new top and the left-hand side. It rejects where a
/// table has no entry, where the input is used up, and where a reduction
/// would leave no state.
pub open spec fn slr_run(
    rules: Seq<ProductionSpec>,
    actions: Actions,
    gotos: Edges,
    stack: Seq<usize>,
    input: Seq<Symbol>,
    pos: int,
    fuel: nat,
) -> bool
    decreases fuel,
{
    if fuel == 0 || pos >= input.len() || stack.len() == 0 {
        false
    } else if !actions.contains_key((stack.last(), input[pos])) {
        false
    } else {
        match actions[(stack.last(), input[pos])] {
            Action::Accept => true,
            Action::Shift(to) => slr_run(
                rules,
                actions,
                gotos,
                stack.push(to),
                input,
                pos + 1,
                (fuel - 1) as nat,
            ),
            Action::Reduce(rule) => {
                if rule >= rules.len() || pop_count(rules[rule as int]) >= stack.len() {
                    false
                } else {
                    let kept = stack.take(stack.len() - pop_count(rules[rule as int]));
                    let key = (kept.last(), rules[rule as int].lhs);
                    if gotos.contains_key(key) {
                        slr_run(rules, actions, gotos, kept.push(gotos[key]), input, pos, (fuel - 1) as nat)
                    } else {
                        false
                    }
                }
            },
        }
    }
}

/// A run that accepts within some number of steps accepts within any greater
/// number.
pub proof fn lemma_slr_run_more_fuel(
    rules: Seq<ProductionSpec>,
    actions: Actions,
    gotos: Edges,
    stack: Seq<usize>,
    input: Seq<Symbol>,
    pos: int,
    fuel: nat,
    more: nat,
)
    requires
        slr_run(rules, actions, gotos, stack, input, pos, fuel),
        fuel <= more,
    ensures
        slr_run(rules, actions, gotos, stack, input, pos, more),
    decreases fuel,
{
    match actions[(stack.last(), input[pos])] {
        Action::Accept => {},
        Action::Shift(to) => {
            lemma_slr_run_more_fuel(
                rules,
                actions,
                gotos,
                stack.push(to),
                input,
                pos + 1,
                (fuel - 1) as nat,
                (more - 1) as nat,
            );
        },
        Action::Reduce(rule) => {
            let kept = stack.take(stack.len() - pop_count(rules[rule as int]));
            let key = (kept.last(), rules[rule as int].lhs);
            lemma_slr_run_more_fuel(
                rules,
                actions,
                gotos,
                kept.push(gotos[key]),
                input,
                pos,
                (fuel - 1) as nat,
                (more - 1) as nat,
            );
        },
    }
}

/// Whether the shift-reduce machine of the tables accepts `text`: the run
/// from state 0 on the symbols of `text` and the end marker after them.
pub open spec fn slr_accepts(rules: Seq<ProductionSpec>, actions: Actions, gotos: Edges, text: Seq<char>) -> bool {
    slr_run(
        rules,
        actions,
        gotos,
        seq![0usize],
        classify_all(text).push(Symbol::EndMarker),
        0,
        STEP_LIMIT as nat,
    )
}

/// An SLR(1) recognizer: a grammar, the canonical collection of its sets of
/// LR(0) items, and the ACTION and GOTO tables.
#[derive(Debug)]
pub struct SLR1Parser {
    grammar: Grammar,
    augmented_start: Symbol,
    rules: Vec<Production>,
    automaton: Lr0Automaton,
    action_table: StateMap<Action>,
    goto_table: StateMap<usize>,
}

impl SLR1Parser {
    /// The rules that the automaton is built on.
    pub closed spec fn rules(&self) -> Seq<ProductionSpec> {
        rules_view(self.rules@)
    }

    /// The states of the automaton.
    pub closed spec fn states(&self) -> Seq<Seq<Item>> {
        self.automaton.states()
    }

    /// The edges of the automaton.
    pub closed spec fn edges(&self) -> Edges {
        self.automaton.edges()
    }

    /// The ACTION table.
    pub closed spec fn actions(&self) -> Actions {
        self.action_table@
    }

    /// The GOTO table.
    pub closed spec fn gotos(&self) -> Edges {
        self.goto_table@
    }

    /// The productions of the recognizer's grammar.
    pub closed spec fn grammar_rules(&self) -> Seq<ProductionSpec> {
        self.grammar.rules()
    }

    /// The parts of the recognizer are in good order.
    pub closed spec fn parts_wf(&self) -> bool {
        &&& self.grammar.wf()
        &&& self.augmented_start == augmented_start()
        &&& self.automaton.wf()
        &&& self.action_table.wf()
        &&& self.goto_table.wf()
    }

    /// The recognizer holds what `build` made: the canonical collection of
    /// its grammar, augmented, and tables that go with it.
    pub open spec fn wf(&self) -> bool {
        &&& self.parts_wf()
        &&& self.rules() == augmented_rules(self.grammar_rules())
        &&& is_canonical(self.rules(), self.states(), self.edges())
        &&& reductions_ok(self.rules(), self.actions())
        &&& actions_justified(self.rules(), self.edges(), self.states(), self.actions())
        &&& self.gotos() == goto_table_of(self.edges())
        &&& forall|k: int|
            0 <= k < self.grammar_rules().len() ==> (#[trigger] self.grammar_rules()[k]).well_formed()
    }

    /// The rules that the automaton of `grammar` is built on.
    fn augment(grammar: &Grammar) -> (rules: Vec<Production>)
        requires
            grammar.wf(),
        ensures
            rules@.len() > 0,
            rules_view(rules@) == augmented_rules(grammar.rules()),
    {
        let productions = grammar.all_productions();
        let ghost given = grammar.rules();
        let mut rules: Vec<Production> = Vec::new();
        let mut rhs: Vec<Symbol> = Vec::new();
        rhs.push(grammar.start_symbol());
        rules.push(Production::new(Symbol::Nonterminal(AUGMENTED_START_CHAR), rhs));
        proof {
            assert(rules@[0]@.rhs =~= seq![start_symbol()]);
            assert(rules_view(rules@) =~= seq![augmented_rule()] + distinct_rules(given.take(0)));
        }
        let mut k: usize = 0;
        while k < productions.len()
            invariant
                k <= productions.len(),
                given == rules_view(productions@),
                rules@.len() >= 1,
                rules_view(rules@) == seq![augmented_rule()] + distinct_rules(given.take(k as int)),
            decreases productions.len() - k,
        {
            let production = &productions[k];
            let ghost front = distinct_rules(given.take(k as int));
            let ghost before = rules_view(rules@);
            proof {
                assert(before.len() == front.len() + 1);
            }
            let mut known = false;
            let mut n: usize = 1;
            while n < rules.len() && !known
                invariant
                    1 <= n <= rules.len(),
                    before == rules_view(rules@),
                    before == seq![augmented_rule()] + front,
                    rules@.len() == front.len() + 1,
                    known ==> front.contains(production@),
                    !known ==> forall|j: int| 0 <= j < n - 1 ==> front[j] != production@,
                decreases rules.len() - n + if known { 0int } else { 1int },
            {
                proof {
                    assert(before[n as int] == rules@[n as int]@);
                    assert(before[n as int] == front[n as int - 1]);
                }
                if rules[n].same(production) {
                    known = true;
                } else {
                    n += 1;
                }
            }
            let ghost held = rules@;
            if !known {
                rules.push(production.clone());
            }
            proof {
                assert(given.take(k as int + 1).drop_last() =~= given.take(k as int));
                assert(given.take(k as int + 1).last() == production@);
                let next = distinct_rules(given.take(k as int + 1));
                if known {
                    assert(next == front);
                } else {
                    assert(!front.contains(production@)) by {
                        if front.contains(production@) {
                            let j = choose|j: int| 0 <= j < front.len() && front[j] == production@;
                            assert(front[j] != production@);
                        }
                    }
                    assert(next == front.push(production@));
                    assert(rules_view(rules@).len() == before.len() + 1);
                    assert forall|j: int| 0 <= j < before.len() implies rules_view(rules@)[j] == before[j] by {
                        assert(rules@[j] == held[j]);
                    }
                    assert(rules_view(rules@) =~= before.push(production@));
                    assert(rules_view(rules@) =~= seq![augmented_rule()] + next);
                }
            }
            k += 1;
        }
        proof {
            assert(given.take(k as int) =~= given);
        }
        rules
    }

    /// Builds the SLR(1) recognizer of `grammar` by the given FOLLOW sets:
    /// the canonical collection of sets of LR(0) items of the augmented
    /// grammar, and the tables that come of scanning its states. The build
    /// fails at the first conflict.
    pub fn build(grammar: Grammar, follow_sets: FollowSets) -> (r: Result<SLR1Parser, GrammarError>)
        requires
            grammar.wf(),
            follow_sets.wf(),
        ensures
            match r {
                Ok(parser) => {
                    &&& parser.wf()
                    &&& parser.grammar_rules() == grammar.rules()
                    &&& action_table_of(parser.rules(), parser.edges(), follow_sets@, parser.states()) == Some(
                        parser.actions(),
                    )
                    &&& actions_match(
                        parser.rules(),
                        parser.edges(),
                        follow_sets@,
                        parser.states(),
                        parser.states().len() as int,
                        0,
                        parser.actions(),
                    )
                },
                Err(e) => exists|states: Seq<Seq<Item>>, edges: Edges, s: int, n: int|
                    #![trigger scan_to(augmented_rules(grammar.rules()), edges, follow_sets@, states, s, n)]
                    {
                        &&& is_canonical(augmented_rules(grammar.rules()), states, edges)
                        &&& action_table_of(augmented_rules(grammar.rules()), edges, follow_sets@, states) is None
                        &&& has_collision(augmented_rules(grammar.rules()), edges, follow_sets@, states)
                        &&& conflict_at(augmented_rules(grammar.rules()), edges, follow_sets@, states, s, n, e)
                    },
            },
    {
        let rules = Self::augment(&grammar);
        let automaton = Lr0Automaton::build(rules.as_slice());
        let ghost rv = rules_view(rules@);
        match build_tables(rules.as_slice(), &automaton, &follow_sets) {
            Ok((action_table, goto_table)) => {
                proof {
                    automaton.lemma_state_count();
                    lemma_scan_matches(
                        rv,
                        automaton.edges(),
                        follow_sets@,
                        automaton.states(),
                        automaton.states().len() as int,
                        0,
                    );
                    lemma_match_justifies(
                        rv,
                        automaton.edges(),
                        follow_sets@,
                        automaton.states(),
                        action_table@,
                    );
                }
                Ok(
                    SLR1Parser {
                        grammar,
                        augmented_start: Symbol::Nonterminal(AUGMENTED_START_CHAR),
                        rules,
                        automaton,
                        action_table,
                        goto_table,
                    },
                )
            },
            Err(e) => {
                proof {
                    let states = automaton.states();
                    let edges = automaton.edges();
                    let (s, n) = choose|s: int, n: int|
                        #![trigger scan_to(rv, edges, follow_sets@, states, s, n)]
                        conflict_at(rv, edges, follow_sets@, states, s, n, e);
                    assert(conflict_at(rv, edges, follow_sets@, states, s, n, e));
                    assert(scan_to(rv, edges, follow_sets@, states, s, n) is Some);
                }
                Err(e)
            },
        }
    }

    /// What the recognizer accepts, the start symbol derives, if the symbol
    /// for the empty string stands alone in the productions where it stands
    /// at all: the symbols of the text up to a place where the input, the
    /// text with the end marker after it, has the end marker. The
    /// derivation is by the rules of the recognizer, and has fewer steps
    /// than the recognizer takes.
    pub proof fn lemma_accepts_sentences(&self, text: Seq<char>) -> (found: (int, Seq<int>))
        requires
            self.wf(),
            forall|k: int| 0 <= k < self.grammar_rules().len() ==> is_proper(#[trigger] self.grammar_rules()[k]),
            slr_accepts(self.rules(), self.actions(), self.gotos(), text),
        ensures
            0 <= found.0 <= text.len(),
            classify_all(text).push(Symbol::EndMarker)[found.0] == Symbol::EndMarker,
            is_derivation(
                self.rules(),
                seq![start_symbol()],
                classify_all(text).push(Symbol::EndMarker).take(found.0),
                found.1,
            ),
            found.1.len() < STEP_LIMIT,
            is_augmented(self.rules()),
    {
        let rules = self.rules();
        let given = self.grammar_rules();
        let input = classify_all(text).push(Symbol::EndMarker);
        lemma_distinct_rules(given);
        assert(is_augmented(rules)) by {
            assert forall|k: int| 0 < k < rules.len() implies (#[trigger] rules[k]).well_formed() && is_proper(
                rules[k],
            ) by {
                let rule = distinct_rules(given)[k - 1];
                assert(rules[k] == rule);
                assert(given.contains(rule));
                let j = choose|j: int| 0 <= j < given.len() && given[j] == rule;
                assert(given[j].well_formed() && is_proper(given[j]));
            }
        }
        let stack = seq![0usize];
        let none = Seq::<Symbol>::empty();
        assert(input.take(0) =~= none);
        assert(is_derivation(rules, none, input.take(0), Seq::<int>::empty()));
        lemma_slr_run_derives(
            rules,
            self.states(),
            self.edges(),
            self.actions(),
            self.gotos(),
            stack,
            none,
            Seq::empty(),
            input,
            0,
            STEP_LIMIT as nat,
        )
    }

    /// The rules and the states can be counted in a machine word.
    pub proof fn lemma_counts(&self)
        ensures
            self.rules().len() <= usize::MAX,
            self.states().len() <= usize::MAX,
    {
        self.automaton.lemma_state_count();
        assert(self.rules.len() == self.rules@.len());
    }

    /// What the start symbol derives, the recognizer accepts, if its tables
    /// are built by FOLLOW sets that are a solution of the rules of FOLLOW,
    /// by a solution of the rules of FIRST, and the symbol for the empty
    /// string stands alone in the productions where it stands at all: a text
    /// of terminals with a derivation of fewer steps than the recognizer
    /// takes.
    pub proof fn lemma_recognizes_sentences(&self, first: Sets, follow: Sets, text: Seq<char>, steps: Seq<int>)
        requires
            self.wf(),
            forall|k: int| 0 <= k < self.grammar_rules().len() ==> is_proper(#[trigger] self.grammar_rules()[k]),
            is_first_solution(self.grammar_rules(), first),
            is_follow_solution(self.grammar_rules(), first, follow),
            action_table_of(self.rules(), self.edges(), follow, self.states()) == Some(self.actions()),
            forall|i: int| 0 <= i < text.len() ==> classify(#[trigger] text[i]) is Terminal,
            is_derivation(self.grammar_rules(), seq![start_symbol()], classify_all(text), steps),
            steps.len() < STEP_LIMIT,
        ensures
            slr_accepts(self.rules(), self.actions(), self.gotos(), text),
    {
        let rules = self.rules();
        let given = self.grammar_rules();
        let word = classify_all(text);
        let input = word.push(Symbol::EndMarker);
        let built = Built {
            rules,
            given,
            first,
            follow,
            states: self.states(),
            edges: self.edges(),
            actions: self.actions(),
            gotos: self.gotos(),
        };
        self.lemma_counts();
        lemma_distinct_rules(given);
        lemma_distinct_rules_cover(given);
        assert(is_augmented(rules)) by {
            assert forall|k: int| 0 < k < rules.len() implies (#[trigger] rules[k]).well_formed() && is_proper(
                rules[k],
            ) by {
                let rule = distinct_rules(given)[k - 1];
                assert(rules[k] == rule);
                assert(given.contains(rule));
                let j = choose|j: int| 0 <= j < given.len() && given[j] == rule;
                assert(given[j].well_formed() && is_proper(given[j]));
            }
        }
        assert(built.wf()) by {
            reveal(Built::wf);
            assert forall|k: int| 0 < k < rules.len() implies given.contains(#[trigger] rules[k]) by {
                assert(rules[k] == distinct_rules(given)[k - 1]);
            }
            lemma_scan_matches(rules, self.edges(), follow, self.states(), self.states().len() as int, 0);
        }
        assert forall|k: int| 0 <= k < given.len() implies rules.contains(#[trigger] given[k]) by {
            let some = distinct_rules(given);
            assert(some.contains(given[k]));
            let j = choose|j: int| 0 <= j < some.len() && some[j] == given[k];
            assert(rules[j + 1] == given[k]);
        }
        let form = seq![start_symbol()];
        lemma_augmented_derivation(rules, given, form, word, steps);
        let moved = augmented_steps(rules, given, steps);
        let stack = seq![0usize];
        let initial = Item { rule: 0, dot: 0 };
        lemma_first_item(built);
        assert(rules[0].rhs =~= seq![start_symbol()]);
        assert(symbol_after_dot(rules, initial) == Some(start_symbol()));
        assert(stands_at(input, 0, word)) by {
            assert(input.subrange(0, word.len() as int) =~= word);
        }
        assert(lookup(follow, start_symbol()).contains(Symbol::EndMarker)) by {
            assert(follow.dom().contains(start_symbol()));
        }
        lemma_accept_step(built, stack, input, word.len() as int);
        lemma_symbol_runs(built, stack, initial, start_symbol(), word, moved, input, 0, 1);
        lemma_slr_run_more_fuel(
            rules,
            self.actions(),
            self.gotos(),
            stack,
            input,
            0,
            (1 + moved.len()) as nat,
            STEP_LIMIT as nat,
        );
    }

    /// The recognizer accepts a text of terminals just where the start symbol
    /// derives it in fewer steps than the recognizer takes, if its tables are
    /// built by FOLLOW sets that are a solution of the rules of FOLLOW, by a
    /// solution of the rules of FIRST, and the symbol for the empty string
    /// stands alone in the productions where it stands at all.
    pub proof fn lemma_accepts_what_is_derived(&self, first: Sets, follow: Sets, text: Seq<char>)
        requires
            self.wf(),
            forall|k: int| 0 <= k < self.grammar_rules().len() ==> is_proper(#[trigger] self.grammar_rules()[k]),
            is_first_solution(self.grammar_rules(), first),
            is_follow_solution(self.grammar_rules(), first, follow),
            action_table_of(self.rules(), self.edges(), follow, self.states()) == Some(self.actions()),
            forall|i: int| 0 <= i < text.len() ==> classify(#[trigger] text[i]) is Terminal,
        ensures
            slr_accepts(self.rules(), self.actions(), self.gotos(), text) <==> derives_within(
                self.grammar_rules(),
                seq![start_symbol()],
                classify_all(text),
                (STEP_LIMIT - 1) as nat,
            ),
    {
        let rules = self.rules();
        let given = self.grammar_rules();
        let word = classify_all(text);
        let input = word.push(Symbol::EndMarker);
        let form = seq![start_symbol()];
        if slr_accepts(rules, self.actions(), self.gotos(), text) {
            let found = self.lemma_accepts_sentences(text);
            assert(found.0 == text.len()) by {
                if found.0 < text.len() {
                    assert(input[found.0] == classify(text[found.0]));
                }
            }
            assert(input.take(found.0) =~= word);
            lemma_distinct_rules(given);
            assert forall|k: int| 0 < k < rules.len() implies given.contains(#[trigger] rules[k]) by {
                assert(rules[k] == distinct_rules(given)[k - 1]);
            }
            lemma_given_derivation(rules, given, form, word, found.1);
            let steps = given_steps(rules, given, found.1);
            assert(steps.len() <= STEP_LIMIT - 1 && is_derivation(given, form, word, steps));
        }
        if derives_within(given, form, word, (STEP_LIMIT - 1) as nat) {
            let steps = choose|steps: Seq<int>|
                steps.len() <= STEP_LIMIT - 1 && #[trigger] is_derivation(given, form, word, steps);
            self.lemma_recognizes_sentences(first, follow, text, steps);
        }
    }

    /// Runs the shift-reduce machine on `input`: whether it is accepted.
    /// The run starts in state 0 and reads the symbols of `input` with the
    /// end marker after them. It takes at most `STEP_LIMIT` steps.
    pub fn parse(&self, input: &str) -> (accepted: bool)
        requires
            self.wf(),
        ensures
            accepted == slr_accepts(self.rules(), self.actions(), self.gotos(), input@),
    {
        let mut symbols = string_to_symbols(input);
        symbols.push(Symbol::EndMarker);
        let mut stack: Vec<usize> = Vec::new();
        stack.push(0);
        let mut symbol_stack: Vec<Symbol> = Vec::new();
        let mut pos: usize = 0;
        let mut steps: u64 = 0;
        let ghost rv = self.rules();
        let ghost actions = self.actions();
        let ghost gotos = self.gotos();
        let ghost goal = slr_accepts(rv, actions, gotos, input@);
        proof {
            assert(stack@ =~= seq![0usize]);
        }
        loop
            invariant
                self.wf(),
                rv == self.rules(),
                actions == self.actions(),
                gotos == self.gotos(),
                goal == slr_accepts(rv, actions, gotos, input@),
                stack@.len() == symbol_stack@.len() + 1,
                goal == slr_run(rv, actions, gotos, stack@, symbols@, pos as int, (STEP_LIMIT - steps) as nat),
            decreases STEP_LIMIT - steps,
        {
            if steps == STEP_LIMIT || pos >= symbols.len() {
                return false;
            }
            let state = stack[stack.len() - 1];
            let current = symbols[pos];
            match self.action_table.get((state, current)) {
                None => {
                    return false;
                },
                Some(Action::Accept) => {
                    return true;
                },
                Some(Action::Shift(to)) => {
                    stack.push(to);
                    symbol_stack.push(current);
                    pos += 1;
                },
                Some(Action::Reduce(rule)) => {
                    assert(actions.contains_key((state, current)));
                    let production = &self.rules[rule];
                    let popped = if production.is_empty_rule() {
                        0
                    } else {
                        production.rhs.len()
                    };
                    if popped >= stack.len() {
                        return false;
                    }
                    let ghost whole = stack@;
                    stack.truncate(stack.len() - popped);
                    symbol_stack.truncate(symbol_stack.len() - popped);
                    let top = stack[stack.len() - 1];
                    match self.goto_table.get((top, production.lhs)) {
                        Some(to) => {
                            stack.push(to);
                            symbol_stack.push(production.lhs);
                        },
                        None => {
                            return false;
                        },
                    }
                },
            }
            steps += 1;
        }
    }
}

} // verus!

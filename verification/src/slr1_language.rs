//! What the shift-reduce recognizer accepts, the grammar derives; and what
//! the grammar derives, the recognizer accepts, where its tables are built
//! by solutions of the rules of FIRST and FOLLOW.

use vstd::prelude::*;
use crate::agreement::{given_steps, lacks_augmented_start, lemma_given_derivation};
use crate::first_follow::{first_domain, follow_rule_holds, is_first_solution, is_follow_solution, Sets};
use crate::grammar::{
    augmented_start, body, derives, is_derivation, lemma_derivation_join, lemma_derivation_of_nothing,
    lemma_derivation_part, occurs_in_rhs, start_symbol, ProductionSpec,
};
use crate::ll1_language::{all_known, is_plain, lemma_first_covers};
use crate::lr0::{
    advance_set, closed_items, closure_of, edge_ok, expands_to, initial_item, is_canonical,
    is_closed_superset, is_reached, is_reduce_item, item_before, item_ok, items_ok,
    lemma_closure_is_least, symbol_after_dot, Edges, Item,
};
use crate::slr1::{
    actions_justified, actions_match, augmented_rule, goto_table_of, item_asks, justifies, pop_count,
    scanned_before, slr_run, Action, Actions,
};
use crate::symbol_set::lookup;
use crate::symbol::Symbol;

verus! {

/// Whether the symbol for the empty string stands in `rule` alone, if at
/// all.
pub open spec fn is_proper(rule: ProductionSpec) -> bool {
    rule.is_empty_rule() || forall|i: int| 0 <= i < rule.rhs.len() ==> rule.rhs[i] != Symbol::Epsilon
}

/// Whether `rules` are the rules of an augmented grammar: the first stands
/// for the whole grammar, and the others are productions of a grammar in
/// which the symbol for the empty string stands alone, if at all.
pub open spec fn is_augmented(rules: Seq<ProductionSpec>) -> bool {
    &&& rules.len() > 0
    &&& rules[0] == augmented_rule()
    &&& forall|k: int| 0 < k < rules.len() ==> (#[trigger] rules[k]).well_formed() && is_proper(rules[k])
}

/// In an augmented grammar the augmented start symbol stands after no dot.
proof fn lemma_no_dot_before_start(rules: Seq<ProductionSpec>, item: Item)
    requires
        is_augmented(rules),
        item_ok(rules, item),
    ensures
        symbol_after_dot(rules, item) != Some(augmented_start()),
{
    if item.rule > 0 {
        assert(rules[item.rule as int].well_formed());
        if item.dot < rules[item.rule as int].rhs.len() {
            assert(rules[item.rule as int].rhs[item.dot as int].is_classified());
        }
    } else {
        assert(rules[0].rhs =~= seq![start_symbol()]);
    }
}

/// The items of a closure with symbols before the dot are those of the
/// kernel.
pub proof fn lemma_closure_dots(rules: Seq<ProductionSpec>, kernel: Set<Item>, item: Item)
    requires
        closure_of(rules, kernel).contains(item),
        item.dot > 0,
    ensures
        kernel.contains(item),
{
    let closed = closure_of(rules, kernel);
    lemma_closure_is_least(rules, kernel);
    let part = Set::new(|it: Item| closed.contains(it) && (it.dot == 0 || kernel.contains(it)));
    assert(is_closed_superset(rules, kernel, part)) by {
        assert forall|it: Item, target: Item| part.contains(it) && #[trigger] expands_to(
            rules,
            it,
            target,
        ) implies part.contains(target) by {
            assert(closed.contains(target));
        }
    }
    assert(part.contains(item));
}

/// In an augmented grammar, the closure of items of the rules holds the
/// initial item of the first rule only where the kernel holds it.
proof fn lemma_closure_start(rules: Seq<ProductionSpec>, kernel: Set<Item>)
    requires
        is_augmented(rules),
        !kernel.contains(initial_item(0)),
    ensures
        !closure_of(rules, kernel).contains(initial_item(0)),
{
    let closed = closure_of(rules, kernel);
    lemma_closure_is_least(rules, kernel);
    let part = closed.remove(initial_item(0));
    assert(is_closed_superset(rules, kernel, part)) by {
        assert forall|it: Item, target: Item| part.contains(it) && #[trigger] expands_to(
            rules,
            it,
            target,
        ) implies part.contains(target) by {
            assert(closed.contains(target));
            if target == initial_item(0) {
                lemma_no_dot_before_start(rules, it);
            }
        }
    }
}

/// An item with symbols before the dot, in the state that an edge leads to,
/// comes from the item before it in the state that the edge leaves.
pub proof fn lemma_edge_origin(
    rules: Seq<ProductionSpec>,
    states: Seq<Seq<Item>>,
    edges: Edges,
    from: usize,
    symbol: Symbol,
    item: Item,
)
    requires
        is_canonical(rules, states, edges),
        from < states.len(),
        edges.contains_key((from, symbol)),
        states[edges[(from, symbol)] as int].contains(item),
        item.dot > 0,
    ensures
        states[from as int].contains(item_before(item)),
        item_ok(rules, item_before(item)),
        symbol_after_dot(rules, item_before(item)) == Some(symbol),
{
    assert(edge_ok(rules, states, edges, from, symbol));
    let to = edges[(from, symbol)];
    let moved = advance_set(rules, states[from as int].to_set(), symbol);
    assert(states[to as int].to_set().contains(item));
    lemma_closure_dots(rules, moved, item);
}

/// In the canonical collection of an augmented grammar only the first state
/// holds the initial item of the first rule, and no edge leads to it.
proof fn lemma_first_state(rules: Seq<ProductionSpec>, states: Seq<Seq<Item>>, edges: Edges)
    requires
        is_augmented(rules),
        is_canonical(rules, states, edges),
    ensures
        states[0].contains(initial_item(0)),
        forall|j: int| 0 < j < states.len() ==> !(#[trigger] states[j]).contains(initial_item(0)),
        forall|key: (usize, Symbol)| #[trigger] edges.contains_key(key) ==> 0 < edges[key] < states.len(),
{
    lemma_closure_is_least(rules, set![initial_item(0)]);
    assert(states[0].to_set().contains(initial_item(0)));
    assert forall|key: (usize, Symbol)| #[trigger] edges.contains_key(key) implies 0 < edges[key]
        < states.len() && !states[edges[key] as int].contains(initial_item(0)) by {
        assert(key.0 < states.len());
        assert(edge_ok(rules, states, edges, key.0, key.1));
        let moved = advance_set(rules, states[key.0 as int].to_set(), key.1);
        lemma_closure_start(rules, moved);
        assert(!states[edges[key] as int].to_set().contains(initial_item(0)));
    }
    assert forall|j: int| 0 < j < states.len() implies !(#[trigger] states[j]).contains(initial_item(0)) by {
        assert(is_reached(edges, j));
        let (a, symbol) = choose|a: usize, symbol: Symbol| #[trigger]
            edges.contains_key((a, symbol)) && a < j && edges[(a, symbol)] == j;
        assert(edges.contains_key((a, symbol)));
    }
}

/// Whether `stack` is a walk through the automaton from its first state,
/// along edges on the symbols of `spelled`.
pub open spec fn is_walk(states: Seq<Seq<Item>>, edges: Edges, stack: Seq<usize>, spelled: Seq<Symbol>) -> bool {
    &&& stack.len() == spelled.len() + 1
    &&& stack[0] == 0
    &&& forall|i: int| 0 <= i < stack.len() ==> (#[trigger] stack[i]) < states.len()
    &&& forall|i: int|
        0 <= i < spelled.len() ==> edges.contains_key((stack[i], #[trigger] spelled[i])) && edges[(
            stack[i],
            spelled[i],
        )] == stack[i + 1]
}

/// The symbols before the dot of an item in the last state of a walk are
/// the last symbols of the walk, none of them the symbol for the empty
/// string; and the state from which they were walked holds the initial item
/// of the rule.
pub proof fn lemma_dot_spells(
    rules: Seq<ProductionSpec>,
    states: Seq<Seq<Item>>,
    edges: Edges,
    stack: Seq<usize>,
    spelled: Seq<Symbol>,
    item: Item,
)
    requires
        is_canonical(rules, states, edges),
        is_walk(states, edges, stack, spelled),
        states[stack.last() as int].contains(item),
    ensures
        item.dot <= spelled.len(),
        forall|j: int|
            0 <= j < item.dot ==> #[trigger] spelled[spelled.len() - item.dot + j] == rules[item.rule as int].rhs[j]
                && rules[item.rule as int].rhs[j] != Symbol::Epsilon,
        states[stack[stack.len() - 1 - item.dot] as int].contains(initial_item(item.rule)),
    decreases item.dot,
{
    if item.dot > 0 {
        if spelled.len() == 0 {
            assert(states[0].to_set().contains(item));
            lemma_closure_dots(rules, set![initial_item(0)], item);
        } else {
            let last = spelled.len() - 1;
            assert(edges.contains_key((stack[last], spelled[last])));
            lemma_edge_origin(rules, states, edges, stack[last], spelled[last], item);
            let before = item_before(item);
            assert(is_walk(states, edges, stack.drop_last(), spelled.drop_last())) by {
                assert forall|i: int| 0 <= i < spelled.drop_last().len() implies edges.contains_key(
                    (stack.drop_last()[i], #[trigger] spelled.drop_last()[i]),
                ) && edges[(stack.drop_last()[i], spelled.drop_last()[i])] == stack.drop_last()[i + 1] by {
                    assert(edges.contains_key((stack[i], spelled[i])));
                }
            }
            lemma_dot_spells(rules, states, edges, stack.drop_last(), spelled.drop_last(), before);
            assert forall|j: int| 0 <= j < item.dot implies #[trigger] spelled[spelled.len() - item.dot + j]
                == rules[item.rule as int].rhs[j] && rules[item.rule as int].rhs[j] != Symbol::Epsilon by {
                if j < before.dot {
                    assert(spelled.drop_last()[spelled.drop_last().len() - before.dot + j] == spelled[spelled.len()
                        - item.dot + j]);
                }
            }
            assert(stack.drop_last()[stack.drop_last().len() - 1 - before.dot] == stack[stack.len() - 1
                - item.dot]);
        }
    } else {
        assert(item == initial_item(item.rule));
    }
}

/// Whether the recognizer's parts belong together: the canonical collection
/// of an augmented grammar, an ACTION table whose cells have reasons in it,
/// and its GOTO table.
pub open spec fn is_recognizer(
    rules: Seq<ProductionSpec>,
    states: Seq<Seq<Item>>,
    edges: Edges,
    actions: Actions,
    gotos: Edges,
) -> bool {
    &&& is_augmented(rules)
    &&& is_canonical(rules, states, edges)
    &&& actions_justified(rules, edges, states, actions)
    &&& gotos == goto_table_of(edges)
}

/// Where a run from a walk accepts, the start symbol derives the input up to
/// an end marker, if the symbols of the walk derive the input up to the
/// position of the run. The derivation has a step for each step of the run
/// but the last, after the steps that the walk was derived with.
pub proof fn lemma_slr_run_derives(
    rules: Seq<ProductionSpec>,
    states: Seq<Seq<Item>>,
    edges: Edges,
    actions: Actions,
    gotos: Edges,
    stack: Seq<usize>,
    spelled: Seq<Symbol>,
    steps: Seq<int>,
    input: Seq<Symbol>,
    pos: int,
    fuel: nat,
) -> (found: (int, Seq<int>))
    requires
        is_recognizer(rules, states, edges, actions, gotos),
        is_walk(states, edges, stack, spelled),
        0 <= pos,
        is_derivation(rules, spelled, input.take(pos), steps),
        slr_run(rules, actions, gotos, stack, input, pos, fuel),
    ensures
        pos <= found.0 < input.len(),
        input[found.0] == Symbol::EndMarker,
        is_derivation(rules, seq![start_symbol()], input.take(found.0), found.1),
        found.1.len() < steps.len() + fuel,
    decreases fuel,
{
    let state = stack.last();
    let current = input[pos];
    let key = (state, current);
    assert(actions.contains_key(key));
    let b = choose|b: int|
        0 <= b < states[key.0 as int].len() && #[trigger] justifies(
            rules,
            edges,
            key.0,
            states[key.0 as int][b],
            key.1,
            actions[key],
        );
    let item = states[state as int][b];
    assert(states[state as int].contains(item));
    assert(items_ok(rules, states[state as int]));
    assert(item_ok(rules, item));
    lemma_first_state(rules, states, edges);
    lemma_dot_spells(rules, states, edges, stack, spelled, item);
    match actions[key] {
        Action::Accept => {
            if item.rule > 0 {
                assert(rules[item.rule as int].well_formed());
            }
            assert(item.rule == 0);
            assert(rules[0].rhs =~= seq![start_symbol()]);
            assert(item.dot == 1);
            let origin = stack.len() - 2;
            assert(states[stack[origin] as int].contains(initial_item(0)));
            assert(stack[origin] == 0);
            if origin > 0 {
                assert(edges.contains_key((stack[origin - 1], spelled[origin - 1])));
            }
            assert(spelled =~= seq![start_symbol()]);
            (pos, steps)
        },
        Action::Shift(to) => {
            let next_stack = stack.push(to);
            let next_spelled = spelled.push(current);
            assert(is_walk(states, edges, next_stack, next_spelled)) by {
                assert forall|i: int| 0 <= i < next_spelled.len() implies edges.contains_key(
                    (next_stack[i], #[trigger] next_spelled[i]),
                ) && edges[(next_stack[i], next_spelled[i])] == next_stack[i + 1] by {
                    if i < spelled.len() {
                        assert(edges.contains_key((stack[i], spelled[i])));
                    }
                }
            }
            let one = seq![current];
            assert(is_derivation(rules, one, one, seq![-1int])) by {
                assert(one.skip(1) =~= Seq::<Symbol>::empty());
                assert(seq![-1int].skip(1) =~= Seq::<int>::empty());
                assert(is_derivation(rules, one.skip(1), one.skip(1), seq![-1int].skip(1)));
            }
            lemma_derivation_join(rules, spelled, input.take(pos), steps, one, one, seq![-1int]);
            assert(spelled + one =~= next_spelled);
            assert(input.take(pos) + one =~= input.take(pos + 1));
            lemma_slr_run_derives(
                rules,
                states,
                edges,
                actions,
                gotos,
                next_stack,
                next_spelled,
                steps + seq![-1int],
                input,
                pos + 1,
                (fuel - 1) as nat,
            )
        },
        Action::Reduce(rule) => {
            let production = rules[rule as int];
            let popped = pop_count(production);
            let kept = stack.take(stack.len() - popped);
            let head = production.lhs;
            let to = gotos[(kept.last(), head)];
            assert(item.rule == rule && is_reduce_item(rules, item));
            assert(is_proper(production)) by {
                if rule > 0 {
                    assert(rules[rule as int].well_formed() && is_proper(rules[rule as int]));
                } else {
                    assert(rules[0].rhs =~= seq![start_symbol()]);
                }
            }
            assert(item.dot == popped) by {
                if production.is_empty_rule() {
                    if item.dot > 0 {
                        assert(spelled[spelled.len() - item.dot + 0] == production.rhs[0]);
                    }
                } else if item.dot < production.rhs.len() {
                    assert(production.rhs[item.dot as int] != Symbol::Epsilon);
                }
            }
            let left = spelled.take(spelled.len() - popped);
            let right = spelled.skip(spelled.len() - popped);
            assert(right =~= body(production)) by {
                if !production.is_empty_rule() {
                    assert forall|j: int| 0 <= j < popped implies right[j] == production.rhs[j] by {
                        assert(spelled[spelled.len() - item.dot + j] == production.rhs[j]);
                    }
                }
            }
            assert(spelled =~= left + right);
            let parts = lemma_derivation_part(rules, left, right, input.take(pos), steps);
            let reduce = seq![rule as int] + parts.3;
            assert(is_derivation(rules, seq![head], parts.2, reduce)) by {
                assert(reduce.skip(1) =~= parts.3);
                assert(body(production) + seq![head].skip(1) =~= right);
            }
            lemma_derivation_join(rules, left, parts.0, parts.1, seq![head], parts.2, reduce);
            let next_stack = kept.push(to);
            let next_spelled = left.push(head);
            assert(left + seq![head] =~= next_spelled);
            assert(edges.contains_key((kept.last(), head)) && edges[(kept.last(), head)] == to);
            assert(is_walk(states, edges, next_stack, next_spelled)) by {
                assert forall|i: int| 0 <= i < next_spelled.len() implies edges.contains_key(
                    (next_stack[i], #[trigger] next_spelled[i]),
                ) && edges[(next_stack[i], next_spelled[i])] == next_stack[i + 1] by {
                    if i < left.len() {
                        assert(edges.contains_key((stack[i], spelled[i])));
                    }
                }
            }
            lemma_slr_run_derives(
                rules,
                states,
                edges,
                actions,
                gotos,
                next_stack,
                next_spelled,
                parts.1 + reduce,
                input,
                pos,
                (fuel - 1) as nat,
            )
        },
    }
}

/// The parts of a recognizer together with what it was built from.
pub struct Built {
    /// The rules of the augmented grammar.
    pub rules: Seq<ProductionSpec>,
    /// The productions of the grammar.
    pub given: Seq<ProductionSpec>,
    /// The sets taken for FIRST.
    pub first: Sets,
    /// The sets taken for FOLLOW.
    pub follow: Sets,
    /// The states of the automaton.
    pub states: Seq<Seq<Item>>,
    /// The edges of the automaton.
    pub edges: Edges,
    /// The ACTION table.
    pub actions: Actions,
    /// The GOTO table.
    pub gotos: Edges,
}

impl Built {
    /// Whether the parts belong together: the rules are those of the
    /// grammar, augmented; the sets are solutions of the rules of FIRST and
    /// FOLLOW; the automaton is the canonical collection; the ACTION table
    /// is what the items of the states ask by the FOLLOW sets; and the GOTO
    /// table is that of the automaton.
    #[verifier::opaque]
    pub open spec fn wf(self) -> bool {
        &&& is_augmented(self.rules)
        &&& self.rules.len() <= usize::MAX
        &&& forall|k: int| 0 < k < self.rules.len() ==> self.given.contains(#[trigger] self.rules[k])
        &&& forall|k: int| 0 <= k < self.given.len() ==> (#[trigger] self.given[k]).well_formed()
        &&& is_first_solution(self.given, self.first)
        &&& is_follow_solution(self.given, self.first, self.follow)
        &&& is_canonical(self.rules, self.states, self.edges)
        &&& self.states.len() <= usize::MAX
        &&& actions_match(
            self.rules,
            self.edges,
            self.follow,
            self.states,
            self.states.len() as int,
            0,
            self.actions,
        )
        &&& self.gotos == goto_table_of(self.edges)
    }

    /// The run of the machine from `stack` at `pos` within `fuel` steps.
    pub open spec fn run(self, stack: Seq<usize>, input: Seq<Symbol>, pos: int, fuel: nat) -> bool {
        slr_run(self.rules, self.actions, self.gotos, stack, input, pos, fuel)
    }

    /// Whether `item` is an item of state `s`.
    pub open spec fn holds(self, s: usize, item: Item) -> bool {
        s < self.states.len() && self.states[s as int].contains(item) && item_ok(self.rules, item)
    }
}

/// Each state of a canonical collection holds, with each item whose dot
/// stands before a nonterminal, the initial items of that nonterminal's
/// rules.
proof fn lemma_state_closed(rules: Seq<ProductionSpec>, states: Seq<Seq<Item>>, edges: Edges, s: int)
    requires
        is_canonical(rules, states, edges),
        0 <= s < states.len(),
    ensures
        closed_items(rules, states[s].to_set()),
{
    if s == 0 {
        lemma_closure_is_least(rules, set![initial_item(0)]);
    } else {
        assert(is_reached(edges, s));
        let (a, symbol) = choose|a: usize, symbol: Symbol| #[trigger]
            edges.contains_key((a, symbol)) && a < s && edges[(a, symbol)] == s;
        assert(edge_ok(rules, states, edges, a, symbol));
        lemma_closure_is_least(rules, advance_set(rules, states[a as int].to_set(), symbol));
    }
}

/// A state with an item whose dot stands before a symbol has an edge on the
/// symbol, to a state with the item whose dot stands after it.
proof fn lemma_edge_onward(built: Built, s: usize, item: Item, symbol: Symbol)
    requires
        built.wf(),
        built.holds(s, item),
        symbol_after_dot(built.rules, item) == Some(symbol),
    ensures
        built.edges.contains_key((s, symbol)),
        built.holds(built.edges[(s, symbol)], Item { rule: item.rule, dot: (item.dot + 1) as usize }),
{
    reveal(Built::wf);
    let rules = built.rules;
    let moved = advance_set(rules, built.states[s as int].to_set(), symbol);
    let onward = Item { rule: item.rule, dot: (item.dot + 1) as usize };
    assert(item_before(onward) == item);
    assert(built.states[s as int].to_set().contains(item));
    assert(moved.contains(onward));
    lemma_closure_is_least(rules, moved);
    assert(closure_of(rules, moved).contains(onward));
    assert(edge_ok(rules, built.states, built.edges, s, symbol));
    let to = built.edges[(s, symbol)];
    assert(built.states[to as int].to_set().contains(onward));
}

/// What an item of a state asks of a cell is in the cell, unless the cell
/// accepts.
proof fn lemma_cell(built: Built, s: usize, item: Item, t: Symbol)
    requires
        built.wf(),
        built.holds(s, item),
        item_asks(built.rules, built.edges, built.follow, s, item, t) is Some,
    ensures
        built.actions.contains_key((s, t)),
        built.actions[(s, t)] == Action::Accept || Some(built.actions[(s, t)]) == item_asks(
            built.rules,
            built.edges,
            built.follow,
            s,
            item,
            t,
        ),
{
    reveal(Built::wf);
    let b = choose|b: int| 0 <= b < built.states[s as int].len() && built.states[s as int][b] == item;
    assert(scanned_before(built.states, built.states.len() as int, 0, s, b));
    let known = built.actions.contains_key((s, t));
}

/// The rule of an augmented grammar that a derivation by the rules of the
/// grammar rewrites a nonterminal by.
proof fn lemma_rule_of_given(built: Built, k: int)
    requires
        built.wf(),
        0 < k < built.rules.len(),
    ensures
        built.rules[k].well_formed(),
        is_proper(built.rules[k]),
        exists|j: int| 0 <= j < built.given.len() && #[trigger] built.given[j] == built.rules[k],
        built.rules[k].lhs is Nonterminal,
        built.rules[k].lhs != augmented_start(),
        k <= usize::MAX,
{
    reveal(Built::wf);
    let rule = built.rules[k];
    assert(built.given.contains(rule));
    let j = choose|j: int| 0 <= j < built.given.len() && built.given[j] == rule;
    assert(built.given[j] == built.rules[k]);
}

/// Whether `word` stands in `input` at `pos`, with a plain symbol after it.
pub open spec fn stands_at(input: Seq<Symbol>, pos: int, word: Seq<Symbol>) -> bool {
    &&& 0 <= pos
    &&& pos + word.len() < input.len()
    &&& input.subrange(pos, pos + word.len()) == word
    &&& is_plain(word)
    &&& (input[pos + word.len()] is Terminal || input[pos + word.len()] is EndMarker)
}

/// What comes after a nonterminal of a right-hand side, where the rest of
/// the right-hand side derives `rest`: the first symbol of `rest`, or what
/// comes after the left-hand side, follows the nonterminal.
proof fn lemma_next_follows(
    built: Built,
    k: int,
    j: int,
    rest: Seq<Symbol>,
    steps: Seq<int>,
    after: Symbol,
)
    requires
        built.wf(),
        0 < k < built.rules.len(),
        0 <= j < built.rules[k].rhs.len(),
        built.rules[k].rhs[j] is Nonterminal,
        is_derivation(built.rules, built.rules[k].rhs.skip(j + 1), rest, steps),
        is_plain(rest),
        after is Terminal || after is EndMarker,
        lookup(built.follow, built.rules[k].lhs).contains(after),
    ensures
        lookup(built.follow, built.rules[k].rhs[j]).contains(
            if rest.len() > 0 {
                rest[0]
            } else {
                after
            },
        ),
{
    reveal(Built::wf);
    let rule = built.rules[k];
    let tail = rule.rhs.skip(j + 1);
    lemma_rule_of_given(built, k);
    let g = choose|g: int| 0 <= g < built.given.len() && #[trigger] built.given[g] == built.rules[k];
    assert(follow_rule_holds(built.first, built.follow, built.given[g], j));
    assert(lacks_augmented_start(tail)) by {
        assert forall|i: int| 0 <= i < tail.len() implies #[trigger] tail[i] != augmented_start() by {
            assert(rule.rhs[j + 1 + i].is_classified());
        }
    }
    lemma_given_derivation(built.rules, built.given, tail, rest, steps);
    assert(all_known(built.first, tail)) by {
        assert forall|i: int| 0 <= i < tail.len() implies built.first.contains_key(#[trigger] tail[i]) by {
            assert(occurs_in_rhs(built.given, built.given[g].rhs[j + 1 + i]));
            assert(first_domain(built.given).contains(tail[i]));
        }
    }
    lemma_first_covers(built.given, built.first, tail, rest, given_steps(built.rules, built.given, steps));
}

/// The symbol after the dot of an item is not the augmented start symbol.
proof fn lemma_symbol_after_dot(built: Built, s: usize, item: Item, symbol: Symbol)
    requires
        built.wf(),
        built.holds(s, item),
        symbol_after_dot(built.rules, item) == Some(symbol),
    ensures
        symbol != augmented_start(),
        symbol != Symbol::Epsilon,
{
    reveal(Built::wf);
    let rules = built.rules;
    if item.rule > 0 {
        assert(rules[item.rule as int].well_formed());
        assert(rules[item.rule as int].rhs[item.dot as int].is_classified());
    } else {
        assert(rules[0].rhs =~= seq![start_symbol()]);
    }
}

/// A state with an item whose dot stands before a nonterminal holds the
/// initial item of each rule of the nonterminal.
proof fn lemma_initial_in_state(built: Built, s: usize, item: Item, k: int)
    requires
        built.wf(),
        built.holds(s, item),
        0 < k < built.rules.len(),
        symbol_after_dot(built.rules, item) == Some(built.rules[k].lhs),
    ensures
        k <= usize::MAX,
        built.holds(s, Item { rule: k as usize, dot: 0 }),
{
    reveal(Built::wf);
    let rules = built.rules;
    let start = Item { rule: k as usize, dot: 0 };
    assert(rules[k].well_formed());
    assert(expands_to(rules, item, start));
    lemma_state_closed(rules, built.states, built.edges, s as int);
    assert(built.states[s as int].to_set().contains(item));
    assert(built.states[s as int].to_set().contains(start));
}

/// A step of the machine that shifts: where an item of the top state has the
/// symbol at `pos` after its dot, the run goes on from the state that the
/// edge on the symbol leads to, or accepts.
proof fn lemma_shift_step(
    built: Built,
    stack: Seq<usize>,
    item: Item,
    input: Seq<Symbol>,
    pos: int,
    fuel: nat,
)
    requires
        built.wf(),
        stack.len() > 0,
        built.holds(stack.last(), item),
        0 <= pos < input.len(),
        symbol_after_dot(built.rules, item) == Some(input[pos]),
        input[pos] is Terminal || input[pos] is EndMarker,
        built.run(stack.push(built.edges[(stack.last(), input[pos])]), input, pos + 1, fuel),
    ensures
        built.run(stack, input, pos, fuel + 1),
{
    let s = stack.last();
    let symbol = input[pos];
    lemma_edge_onward(built, s, item, symbol);
    let to = built.edges[(s, symbol)];
    assert(item_asks(built.rules, built.edges, built.follow, s, item, symbol) == Some(Action::Shift(to)));
    lemma_cell(built, s, item, symbol);
}

/// A step of the machine that reduces: where the top state has an item of
/// rule `k` with the dot at its end, above as many states as the rule pops,
/// and the symbol at `pos` follows the left-hand side, the run goes on from
/// the state that the edge on the left-hand side leads to, from the state
/// below, or accepts.
proof fn lemma_reduce_step(
    built: Built,
    stack: Seq<usize>,
    pushed: Seq<usize>,
    k: int,
    input: Seq<Symbol>,
    pos: int,
    fuel: nat,
)
    requires
        built.wf(),
        stack.len() > 0,
        0 < k < built.rules.len(),
        pushed.len() == pop_count(built.rules[k]),
        built.holds((stack + pushed).last(), Item { rule: k as usize, dot: pushed.len() as usize }),
        is_reduce_item(built.rules, Item { rule: k as usize, dot: pushed.len() as usize }),
        0 <= pos < input.len(),
        lookup(built.follow, built.rules[k].lhs).contains(input[pos]),
        built.edges.contains_key((stack.last(), built.rules[k].lhs)),
        built.run(stack.push(built.edges[(stack.last(), built.rules[k].lhs)]), input, pos, fuel),
    ensures
        built.run(stack + pushed, input, pos, fuel + 1),
{
    let rules = built.rules;
    let rule = rules[k];
    let full = stack + pushed;
    let top = full.last();
    let item = Item { rule: k as usize, dot: pushed.len() as usize };
    let after = input[pos];
    lemma_rule_of_given(built, k);
    assert(item_asks(rules, built.edges, built.follow, top, item, after) == Some(Action::Reduce(k as usize)));
    lemma_cell(built, top, item, after);
    if built.actions[(top, after)] != Action::Accept {
        assert(full.take(full.len() - pushed.len()) =~= stack);
        assert(built.gotos.contains_key((stack.last(), rule.lhs))) by {
            reveal(Built::wf);
        }
        assert(built.gotos[(stack.last(), rule.lhs)] == built.edges[(stack.last(), rule.lhs)]) by {
            reveal(Built::wf);
        }
    }
}

/// The first state holds the initial item of the first rule.
pub proof fn lemma_first_item(built: Built)
    requires
        built.wf(),
    ensures
        built.holds(0, Item { rule: 0, dot: 0 }),
{
    reveal(Built::wf);
    lemma_first_state(built.rules, built.states, built.edges);
    assert(built.rules[0].rhs =~= seq![start_symbol()]);
}

/// The last step of the machine: from the first state and the state after
/// the start symbol, on the end marker, the run accepts.
pub proof fn lemma_accept_step(built: Built, stack: Seq<usize>, input: Seq<Symbol>, pos: int)
    requires
        built.wf(),
        stack == seq![0usize],
        0 <= pos < input.len(),
        input[pos] == Symbol::EndMarker,
    ensures
        built.run(stack.push(built.edges[(0, start_symbol())]), input, pos, 1),
{
    let initial = Item { rule: 0, dot: 0 };
    lemma_first_item(built);
    assert(built.rules[0] == augmented_rule()) by {
        reveal(Built::wf);
    }
    assert(built.rules[0].rhs =~= seq![start_symbol()]);
    lemma_edge_onward(built, 0, initial, start_symbol());
    let to = built.edges[(0usize, start_symbol())];
    let done = Item { rule: 0, dot: 1 };
    assert(item_asks(built.rules, built.edges, built.follow, to, done, Symbol::EndMarker) == Some(Action::Accept));
    lemma_cell(built, to, done, Symbol::EndMarker);
}

/// The machine follows the derivation of a word from the symbol after the
/// dot of an item of its top state: where the run goes on to accept from the
/// state that the edge on the symbol leads to, after the word, the run from
/// the top state accepts, with a step more for each step of the derivation.
pub proof fn lemma_symbol_runs(
    built: Built,
    stack: Seq<usize>,
    item: Item,
    symbol: Symbol,
    word: Seq<Symbol>,
    steps: Seq<int>,
    input: Seq<Symbol>,
    pos: int,
    fuel: nat,
)
    requires
        built.wf(),
        stack.len() > 0,
        built.holds(stack.last(), item),
        symbol_after_dot(built.rules, item) == Some(symbol),
        stands_at(input, pos, word),
        symbol is Nonterminal ==> lookup(built.follow, symbol).contains(input[pos + word.len()]),
        is_derivation(built.rules, seq![symbol], word, steps),
        built.run(stack.push(built.edges[(stack.last(), symbol)]), input, pos + word.len(), fuel),
    ensures
        built.run(stack, input, pos, fuel + steps.len()),
    decreases steps.len(), 0nat,
{
    let rules = built.rules;
    let s = stack.last();
    lemma_edge_onward(built, s, item, symbol);
    lemma_symbol_after_dot(built, s, item, symbol);
    let form = seq![symbol];
    assert(form.skip(1) =~= Seq::<Symbol>::empty());
    assert(steps.len() > 0);
    let k = steps[0];
    if 0 <= k < rules.len() {
        let rule = rules[k];
        assert(rule.lhs == symbol);
        if k == 0 {
            assert(rules[0] == augmented_rule()) by {
                reveal(Built::wf);
            }
        }
        lemma_rule_of_given(built, k);
        assert(body(rule) + form.skip(1) =~= body(rule));
        lemma_initial_in_state(built, s, item, k);
        if rule.is_empty_rule() {
            lemma_derivation_of_nothing(rules, word, steps.skip(1));
            assert(stack + Seq::<usize>::empty() =~= stack);
            lemma_reduce_step(built, stack, Seq::empty(), k, input, pos, fuel);
        } else {
            assert(stack + Seq::<usize>::empty() =~= stack);
            assert(rule.rhs.skip(0) =~= rule.rhs);
            lemma_body_runs(built, stack, Seq::empty(), k, 0, word, steps.skip(1), input, pos, fuel);
        }
    } else {
        assert(word.len() > 0 && symbol == word[0]);
        lemma_derivation_of_nothing(rules, word.skip(1), steps.skip(1));
        assert(input[pos] == word[0]) by {
            assert(input.subrange(pos, pos + word.len())[0] == word[0]);
        }
        lemma_shift_step(built, stack, item, input, pos, fuel);
    }
}

/// The machine follows the derivation of a word from the rest of the
/// right-hand side of a rule, after the dot of an item of its top state, and
/// reduces by the rule: where the run goes on to accept from the state that
/// the edge on the left-hand side leads to, from the state below the states
/// of the right-hand side, the run from the top state accepts, with a step
/// more for each step of the derivation and one for the reduction.
pub proof fn lemma_body_runs(
    built: Built,
    stack: Seq<usize>,
    pushed: Seq<usize>,
    k: int,
    j: int,
    word: Seq<Symbol>,
    steps: Seq<int>,
    input: Seq<Symbol>,
    pos: int,
    fuel: nat,
)
    requires
        built.wf(),
        stack.len() > 0,
        0 < k < built.rules.len(),
        !built.rules[k].is_empty_rule(),
        0 <= j <= built.rules[k].rhs.len(),
        pushed.len() == j,
        built.holds((stack + pushed).last(), Item { rule: k as usize, dot: j as usize }),
        built.edges.contains_key((stack.last(), built.rules[k].lhs)),
        stands_at(input, pos, word),
        lookup(built.follow, built.rules[k].lhs).contains(input[pos + word.len()]),
        is_derivation(built.rules, built.rules[k].rhs.skip(j), word, steps),
        built.run(stack.push(built.edges[(stack.last(), built.rules[k].lhs)]), input, pos + word.len(), fuel),
    ensures
        built.run(stack + pushed, input, pos, fuel + steps.len() + 1),
    decreases steps.len(), built.rules[k].rhs.len() - j + 1,
{
    let rules = built.rules;
    let rule = rules[k];
    let full = stack + pushed;
    let top = full.last();
    let item = Item { rule: k as usize, dot: j as usize };
    let after = input[pos + word.len()];
    lemma_rule_of_given(built, k);
    assert(rule.lhs is Nonterminal);
    if j == rule.rhs.len() {
        assert(rule.rhs.skip(j) =~= Seq::<Symbol>::empty());
        lemma_derivation_of_nothing(rules, word, steps);
        assert(is_reduce_item(rules, item));
        lemma_reduce_step(built, stack, pushed, k, input, pos, fuel);
    } else {
        let symbol = rule.rhs[j];
        assert(symbol != Symbol::Epsilon);
        assert(symbol_after_dot(rules, item) == Some(symbol));
        assert(rule.rhs[j].is_classified());
        let tail = rule.rhs.skip(j + 1);
        assert(rule.rhs.skip(j) =~= seq![symbol] + tail);
        let parts = lemma_derivation_part(rules, seq![symbol], tail, word, steps);
        let word1 = parts.0;
        let word2 = parts.2;
        lemma_edge_onward(built, top, item, symbol);
        let to = built.edges[(top, symbol)];
        let next = if word2.len() > 0 {
            word2[0]
        } else {
            after
        };
        assert(input[pos + word1.len()] == next) by {
            if word2.len() > 0 {
                assert(input.subrange(pos, pos + word.len())[word1.len() as int] == word[word1.len() as int]);
            }
        }
        assert(stands_at(input, pos, word1)) by {
            assert(input.subrange(pos, pos + word1.len()) =~= word1) by {
                assert forall|i: int| 0 <= i < word1.len() implies input.subrange(pos, pos + word1.len())[i]
                    == word1[i] by {
                    assert(input.subrange(pos, pos + word.len())[i] == word[i]);
                }
            }
            assert forall|i: int| 0 <= i < word1.len() implies (#[trigger] word1[i]) is Terminal || word1[i]
                is EndMarker by {
                assert(word[i] == word1[i]);
            }
            if word2.len() > 0 {
                assert(word[word1.len() as int] == word2[0]);
            }
        }
        assert(stands_at(input, pos + word1.len(), word2)) by {
            assert(input.subrange(pos + word1.len(), pos + word1.len() + word2.len()) =~= word2) by {
                assert forall|i: int| 0 <= i < word2.len() implies input.subrange(
                    pos + word1.len(),
                    pos + word1.len() + word2.len(),
                )[i] == word2[i] by {
                    assert(input.subrange(pos, pos + word.len())[word1.len() + i] == word[word1.len() + i]);
                }
            }
            assert forall|i: int| 0 <= i < word2.len() implies (#[trigger] word2[i]) is Terminal || word2[i]
                is EndMarker by {
                assert(word[word1.len() + i] == word2[i]);
            }
        }
        if symbol is Nonterminal {
            lemma_next_follows(built, k, j, word2, parts.3, after);
        }
        let more = pushed.push(to);
        assert(stack + more =~= full.push(to));
        lemma_body_runs(built, stack, more, k, j + 1, word2, parts.3, input, pos + word1.len(), fuel);
        lemma_symbol_runs(
            built,
            full,
            item,
            symbol,
            word1,
            parts.1,
            input,
            pos,
            (fuel + parts.3.len() + 1) as nat,
        );
    }
}

} // verus!

//! FIRST and FOLLOW sets: the least solutions of their defining rules.

use vstd::prelude::*;
use crate::grammar::{
    nonterminals_of, occurs_in_rhs, heads_rule, rules_view, start_symbol, terminals_of, Grammar,
    ProductionSpec,
};
use crate::symbol::Symbol;
use crate::symbol_set::{lookup, range_of, SymbolMap, SymbolSet};

verus! {

/// FIRST sets: for each symbol, the symbols that can begin what it derives.
pub type FirstSets = SymbolMap;

/// FOLLOW sets: for each nonterminal, the symbols that can come after it.
pub type FollowSets = SymbolMap;

/// A map from symbols to sets of symbols.
pub type Sets = Map<Symbol, Set<Symbol>>;

/// Whether each of the first `n` symbols of `s` can derive the empty string
/// by `m`.
pub open spec fn all_nullable(m: Sets, s: Seq<Symbol>, n: int) -> bool {
    forall|j: int| 0 <= j < n ==> #[trigger] nullable_at(m, s, j)
}

/// Whether the symbol at `j` can derive the empty string by `m`.
pub open spec fn nullable_at(m: Sets, s: Seq<Symbol>, j: int) -> bool {
    lookup(m, s[j]).contains(Symbol::Epsilon)
}

/// Whether `t` begins the symbol at `i`, which only symbols that can derive
/// the empty string come before.
pub open spec fn begins_at(m: Sets, s: Seq<Symbol>, i: int, t: Symbol) -> bool {
    0 <= i < s.len() && all_nullable(m, s, i) && lookup(m, s[i]).contains(t)
}

/// FIRST of a sequence of symbols: what begins a symbol that only symbols
/// that can derive the empty string come before, the empty string left out;
/// and the empty string where every symbol can derive it.
pub open spec fn first_of_seq(m: Sets, s: Seq<Symbol>) -> Set<Symbol> {
    Set::new(
        |t: Symbol|
            if t == Symbol::Epsilon {
                all_nullable(m, s, s.len() as int)
            } else {
                exists|i: int| #[trigger] begins_at(m, s, i, t)
            },
    )
}

/// Whether `m` gives each symbol at most what `f` gives it.
pub open spec fn below(m: Sets, f: Sets) -> bool {
    forall|x: Symbol, t: Symbol| #[trigger] lookup(m, x).contains(t) ==> lookup(f, x).contains(t)
}

/// FIRST of a sequence grows with the sets it is taken by.
pub proof fn lemma_first_of_seq_monotone(m: Sets, f: Sets, s: Seq<Symbol>)
    requires
        below(m, f),
    ensures
        first_of_seq(m, s).subset_of(first_of_seq(f, s)),
{
    assert forall|t: Symbol| first_of_seq(m, s).contains(t) implies first_of_seq(f, s).contains(t) by {
        if t == Symbol::Epsilon {
            assert forall|j: int| 0 <= j < s.len() implies #[trigger] nullable_at(f, s, j) by {
                assert(nullable_at(m, s, j));
            }
        } else {
            let i = choose|i: int| #[trigger] begins_at(m, s, i, t);
            assert forall|j: int| 0 <= j < i implies #[trigger] nullable_at(f, s, j) by {
                assert(nullable_at(m, s, j));
            }
            assert(begins_at(f, s, i, t));
        }
    }
}

/// The symbols that have a FIRST set: those of the grammar, the empty string
/// and the end marker.
pub open spec fn first_domain(rules: Seq<ProductionSpec>) -> Set<Symbol> {
    terminals_of(rules).union(nonterminals_of(rules)).insert(Symbol::Epsilon).insert(
        Symbol::EndMarker,
    )
}

/// Whether FIRST of the right-hand side of `rule` is within what `m` gives
/// its left-hand side.
pub open spec fn first_rule_holds(m: Sets, rule: ProductionSpec) -> bool {
    first_of_seq(m, rule.rhs).subset_of(lookup(m, rule.lhs))
}

/// Whether `m` meets the rules of FIRST: every symbol but a nonterminal has
/// itself as its set, and a nonterminal has FIRST of each of its right-hand
/// sides.
pub open spec fn is_first_solution(rules: Seq<ProductionSpec>, m: Sets) -> bool {
    &&& m.dom() == first_domain(rules)
    &&& forall|x: Symbol| #[trigger] m.dom().contains(x) && !(x is Nonterminal) ==> m[x] == set![x]
    &&& forall|k: int| 0 <= k < rules.len() ==> first_rule_holds(m, #[trigger] rules[k])
}

/// The FIRST sets of a grammar: for each symbol, what every solution of the
/// rules of FIRST gives it.
pub open spec fn first_sets(rules: Seq<ProductionSpec>) -> Sets {
    Map::new(
        |x: Symbol| first_domain(rules).contains(x),
        |x: Symbol|
            Set::new(|t: Symbol| forall|m: Sets| #[trigger] is_first_solution(rules, m) ==> m[x].contains(t)),
    )
}

/// A solution of the rules of FIRST that is below every solution is the FIRST
/// sets.
pub proof fn lemma_least_first_solution(rules: Seq<ProductionSpec>, m: Sets)
    requires
        is_first_solution(rules, m),
        forall|f: Sets| #[trigger] is_first_solution(rules, f) ==> below(m, f),
    ensures
        m == first_sets(rules),
{
    let fs = first_sets(rules);
    assert forall|x: Symbol| m.dom().contains(x) implies #[trigger] m[x] == fs[x] by {
        assert forall|t: Symbol| m[x].contains(t) <==> fs[x].contains(t) by {
            if m[x].contains(t) {
                assert forall|f: Sets| #[trigger] is_first_solution(rules, f) implies f[x].contains(t) by {
                    assert(below(m, f));
                    assert(lookup(m, x).contains(t));
                    assert(lookup(f, x).contains(t));
                }
            }
        }
        assert(m[x] =~= fs[x]);
    }
    assert(m =~= fs);
}

/// What a FIRST set can hold: the terminals of the grammar, the empty string
/// and the end marker.
pub open spec fn first_alphabet(rules: Seq<ProductionSpec>) -> Set<Symbol> {
    terminals_of(rules).insert(Symbol::Epsilon).insert(Symbol::EndMarker)
}

/// The sets that give each nonterminal all that a FIRST set can hold.
pub open spec fn greatest_first_sets(rules: Seq<ProductionSpec>) -> Sets {
    Map::new(
        |x: Symbol| first_domain(rules).contains(x),
        |x: Symbol|
            if x is Nonterminal {
                first_alphabet(rules)
            } else {
                set![x]
            },
    )
}

/// The FIRST sets of a grammar hold only terminals of the grammar, the empty
/// string and the end marker.
pub proof fn lemma_first_sets_alphabet(rules: Seq<ProductionSpec>)
    requires
        forall|k: int| 0 <= k < rules.len() ==> (#[trigger] rules[k]).well_formed(),
    ensures
        is_first_solution(rules, greatest_first_sets(rules)),
        forall|x: Symbol, t: Symbol|
            first_domain(rules).contains(x) && #[trigger] first_sets(rules)[x].contains(t)
                ==> first_alphabet(rules).contains(t),
{
    let top = greatest_first_sets(rules);
    assert(top.dom() =~= first_domain(rules));
    assert forall|x: Symbol| first_domain(rules).contains(x) implies #[trigger] lookup(top, x).subset_of(
        first_alphabet(rules),
    ) by {
        if !(x is Nonterminal) {
            assert(!nonterminals_of(rules).contains(x)) by {
                lemma_nonterminals(rules);
            }
        }
    }
    assert forall|k: int| 0 <= k < rules.len() implies first_rule_holds(top, #[trigger] rules[k]) by {
        let rule = rules[k];
        assert(rule.well_formed());
        assert(heads_rule(rules, rule.lhs));
        assert(first_domain(rules).contains(rule.lhs));
        assert forall|t: Symbol| first_of_seq(top, rule.rhs).contains(t) implies lookup(
            top,
            rule.lhs,
        ).contains(t) by {
            if t != Symbol::Epsilon {
                let i = choose|i: int| #[trigger] begins_at(top, rule.rhs, i, t);
                let x = rule.rhs[i];
                assert(top.contains_key(x));
                assert(lookup(top, x).subset_of(first_alphabet(rules)));
            }
        }
    }
    assert forall|x: Symbol, t: Symbol|
        first_domain(rules).contains(x) && #[trigger] first_sets(rules)[x].contains(
            t,
        ) implies first_alphabet(rules).contains(t) by {
        assert(is_first_solution(rules, top));
        assert(top[x].contains(t));
        assert(lookup(top, x).subset_of(first_alphabet(rules)));
    }
}

/// A FIRST set has at most two members more than the grammar has terminals.
pub proof fn lemma_first_set_size(rules: Seq<ProductionSpec>, x: Symbol)
    requires
        forall|k: int| 0 <= k < rules.len() ==> (#[trigger] rules[k]).well_formed(),
        terminals_of(rules).finite(),
        first_domain(rules).contains(x),
    ensures
        first_sets(rules)[x].finite(),
        first_sets(rules)[x].len() <= terminals_of(rules).len() + 2,
{
    lemma_first_sets_alphabet(rules);
    let alphabet = first_alphabet(rules);
    assert(alphabet.len() <= terminals_of(rules).len() + 2);
    assert forall|t: Symbol| first_sets(rules)[x].contains(t) implies alphabet.contains(t) by {}
    vstd::set_lib::lemma_len_subset(first_sets(rules)[x], alphabet);
}

/// The FIRST sets of a grammar are determined by its productions: two least
/// solutions of the rules of FIRST are the same sets.
pub proof fn lemma_first_sets_unique(rules: Seq<ProductionSpec>, a: Sets, b: Sets)
    requires
        is_first_solution(rules, a),
        forall|f: Sets| #[trigger] is_first_solution(rules, f) ==> below(a, f),
        is_first_solution(rules, b),
        forall|f: Sets| #[trigger] is_first_solution(rules, f) ==> below(b, f),
    ensures
        a == b,
{
    lemma_least_first_solution(rules, a);
    lemma_least_first_solution(rules, b);
}

/// The positions where a rule constrains FOLLOW: `i` in the right-hand side
/// of rule `k`.
pub open spec fn follow_rule_holds(first: Sets, m: Sets, rule: ProductionSpec, i: int) -> bool {
    let rest = first_of_seq(first, rule.rhs.skip(i + 1));
    0 <= i < rule.rhs.len() && rule.rhs[i] is Nonterminal ==> {
        &&& rest.remove(Symbol::Epsilon).subset_of(lookup(m, rule.rhs[i]))
        &&& rest.contains(Symbol::Epsilon) ==> lookup(m, rule.lhs).subset_of(lookup(m, rule.rhs[i]))
    }
}

/// The symbols that have a FOLLOW set: the nonterminals and the start symbol.
pub open spec fn follow_domain(rules: Seq<ProductionSpec>) -> Set<Symbol> {
    nonterminals_of(rules).insert(start_symbol())
}

/// Whether `m` meets the rules of FOLLOW by the FIRST sets `first`: the end
/// marker follows the start symbol; what begins the rest of a right-hand side
/// after a nonterminal follows it; and where that rest can derive the empty
/// string, what follows the left-hand side follows the nonterminal too.
pub open spec fn is_follow_solution(rules: Seq<ProductionSpec>, first: Sets, m: Sets) -> bool {
    &&& m.dom() == follow_domain(rules)
    &&& m[start_symbol()].contains(Symbol::EndMarker)
    &&& forall|k: int, i: int|
        0 <= k < rules.len() ==> #[trigger] follow_rule_holds(first, m, rules[k], i)
}

/// The FOLLOW sets of a grammar by the FIRST sets `first`: for each
/// nonterminal, what every solution of the rules of FOLLOW gives it.
pub open spec fn follow_sets(rules: Seq<ProductionSpec>, first: Sets) -> Sets {
    Map::new(
        |x: Symbol| follow_domain(rules).contains(x),
        |x: Symbol|
            Set::new(
                |t: Symbol|
                    forall|m: Sets| #[trigger] is_follow_solution(rules, first, m) ==> m[x].contains(t),
            ),
    )
}

/// A solution of the rules of FOLLOW that is below every solution is the
/// FOLLOW sets.
pub proof fn lemma_least_follow_solution(rules: Seq<ProductionSpec>, first: Sets, m: Sets)
    requires
        is_follow_solution(rules, first, m),
        forall|f: Sets| #[trigger] is_follow_solution(rules, first, f) ==> below(m, f),
    ensures
        m == follow_sets(rules, first),
{
    let fs = follow_sets(rules, first);
    assert forall|x: Symbol| m.dom().contains(x) implies #[trigger] m[x] == fs[x] by {
        assert forall|t: Symbol| m[x].contains(t) <==> fs[x].contains(t) by {
            if m[x].contains(t) {
                assert forall|f: Sets| #[trigger] is_follow_solution(rules, first, f) implies f[x].contains(
                    t,
                ) by {
                    assert(below(m, f));
                    assert(lookup(m, x).contains(t));
                    assert(lookup(f, x).contains(t));
                }
            }
        }
        assert(m[x] =~= fs[x]);
    }
    assert(m =~= fs);
}

/// The FOLLOW sets of a grammar are determined by its productions and the
/// FIRST sets: two least solutions of the rules of FOLLOW are the same sets.
pub proof fn lemma_follow_sets_unique(rules: Seq<ProductionSpec>, first: Sets, a: Sets, b: Sets)
    requires
        is_follow_solution(rules, first, a),
        forall|f: Sets| #[trigger] is_follow_solution(rules, first, f) ==> below(a, f),
        is_follow_solution(rules, first, b),
        forall|f: Sets| #[trigger] is_follow_solution(rules, first, f) ==> below(b, f),
    ensures
        a == b,
{
    lemma_least_follow_solution(rules, first, a);
    lemma_least_follow_solution(rules, first, b);
}

/// What a FOLLOW set by the FIRST sets of the grammar can hold: the
/// terminals of the grammar and the end marker.
pub open spec fn terminal_alphabet(rules: Seq<ProductionSpec>) -> Set<Symbol> {
    terminals_of(rules).insert(Symbol::EndMarker)
}

/// The sets that give each nonterminal all that such a FOLLOW set can hold.
pub open spec fn greatest_follow_sets(rules: Seq<ProductionSpec>) -> Sets {
    Map::new(|x: Symbol| follow_domain(rules).contains(x), |x: Symbol| terminal_alphabet(rules))
}

/// The FOLLOW sets of a grammar by its FIRST sets hold only terminals of the
/// grammar and the end marker: at most one member more than the grammar has
/// terminals.
pub proof fn lemma_follow_sets_alphabet(rules: Seq<ProductionSpec>, x: Symbol)
    requires
        forall|k: int| 0 <= k < rules.len() ==> (#[trigger] rules[k]).well_formed(),
        terminals_of(rules).finite(),
        follow_domain(rules).contains(x),
    ensures
        is_follow_solution(rules, first_sets(rules), greatest_follow_sets(rules)),
        follow_sets(rules, first_sets(rules))[x].subset_of(terminal_alphabet(rules)),
        follow_sets(rules, first_sets(rules))[x].finite(),
        follow_sets(rules, first_sets(rules))[x].len() <= terminals_of(rules).len() + 1,
{
    let first = first_sets(rules);
    let top = greatest_follow_sets(rules);
    let alphabet = terminal_alphabet(rules);
    lemma_first_sets_alphabet(rules);
    assert(top.dom() =~= follow_domain(rules));
    assert forall|k: int, i: int| 0 <= k < rules.len() implies #[trigger] follow_rule_holds(
        first,
        top,
        rules[k],
        i,
    ) by {
        let rule = rules[k];
        if 0 <= i < rule.rhs.len() && rule.rhs[i] is Nonterminal {
            assert(rule.well_formed());
            assert(occurs_in_rhs(rules, rules[k].rhs[i]));
            assert(heads_rule(rules, rule.lhs));
            let rest = rule.rhs.skip(i + 1);
            assert forall|t: Symbol| first_of_seq(first, rest).remove(Symbol::Epsilon).contains(
                t,
            ) implies alphabet.contains(t) by {
                let j = choose|j: int| #[trigger] begins_at(first, rest, j, t);
                assert(first.contains_key(rest[j]));
                assert(first_sets(rules)[rest[j]].contains(t));
            }
        }
    }
    assert(is_follow_solution(rules, first, top));
    let set = follow_sets(rules, first)[x];
    assert forall|t: Symbol| set.contains(t) implies alphabet.contains(t) by {
        assert(top[x].contains(t));
    }
    vstd::set_lib::lemma_len_subset(set, alphabet);
}

/// FIRST of the symbols of `symbols` from position `from` on.
pub fn first_of_range(first_sets: &FirstSets, symbols: &[Symbol], from: usize) -> (result: SymbolSet)
    requires
        first_sets.wf(),
        from <= symbols@.len(),
    ensures
        result.wf(),
        result@ == first_of_seq(first_sets@, symbols@.skip(from as int)),
{
    let ghost m = first_sets@;
    let ghost s = symbols@.skip(from as int);
    let mut result = SymbolSet::new();
    let mut has_epsilon = true;
    let mut i: usize = from;
    while i < symbols.len() && has_epsilon
        invariant
            from <= i <= symbols.len(),
            first_sets.wf(),
            m == first_sets@,
            s == symbols@.skip(from as int),
            result.wf(),
            has_epsilon == all_nullable(m, s, i - from),
            forall|t: Symbol|
                result@.contains(t) <==> t != Symbol::Epsilon && exists|j: int|
                    j < i - from && #[trigger] begins_at(m, s, j, t),
        decreases symbols.len() - i,
    {
        let symbol = symbols[i];
        let ghost at = i - from;
        let ghost before = result@;
        assert(s[at] == symbol);
        match first_sets.get(&symbol) {
            Some(set) => {
                result.absorb(set, true);
                has_epsilon = set.contains(&Symbol::Epsilon);
            },
            None => {
                has_epsilon = false;
            },
        }
        proof {
            assert(has_epsilon == nullable_at(m, s, at));
            assert(all_nullable(m, s, at));
            if has_epsilon {
                assert forall|j: int| 0 <= j < at + 1 implies #[trigger] nullable_at(m, s, j) by {
                    if j < at {
                        assert(nullable_at(m, s, j));
                    }
                }
            } else {
                assert(!all_nullable(m, s, at + 1)) by {
                    if all_nullable(m, s, at + 1) {
                        assert(nullable_at(m, s, at));
                    }
                }
            }
            assert forall|t: Symbol|
                result@.contains(t) <==> t != Symbol::Epsilon && exists|j: int|
                    j < at + 1 && #[trigger] begins_at(m, s, j, t) by {
                if result@.contains(t) {
                    if before.contains(t) {
                        let j = choose|j: int| j < at && #[trigger] begins_at(m, s, j, t);
                        assert(j < at + 1 && begins_at(m, s, j, t));
                    } else {
                        assert(begins_at(m, s, at, t));
                    }
                }
                if t != Symbol::Epsilon && exists|j: int| j < at + 1 && #[trigger] begins_at(m, s, j, t) {
                    let j = choose|j: int| j < at + 1 && #[trigger] begins_at(m, s, j, t);
                    if j < at {
                        assert(before.contains(t));
                    } else {
                        assert(lookup(m, symbol).contains(t));
                    }
                }
            }
        }
        i += 1;
    }
    let ghost reached = i - from;
    if has_epsilon {
        result.insert(Symbol::Epsilon);
    }
    proof {
        let want = first_of_seq(m, s);
        assert(s.len() == symbols@.len() - from);
        assert forall|t: Symbol| result@.contains(t) <==> want.contains(t) by {
            if t == Symbol::Epsilon {
                if !has_epsilon && all_nullable(m, s, s.len() as int) {
                    assert forall|j: int| 0 <= j < reached implies #[trigger] nullable_at(m, s, j) by {}
                }
            } else {
                if want.contains(t) {
                    let j = choose|j: int| #[trigger] begins_at(m, s, j, t);
                    if j >= reached {
                        assert(!has_epsilon);
                        assert forall|a: int| 0 <= a < reached implies #[trigger] nullable_at(m, s, a) by {
                            assert(nullable_at(m, s, a));
                        }
                    }
                }
            }
        }
        assert(result@ =~= want);
    }
    result
}

/// FIRST of a sequence of symbols by the FIRST sets `first_sets`.
pub fn first_of_string(first_sets: &FirstSets, symbols: &[Symbol]) -> (result: SymbolSet)
    requires
        first_sets.wf(),
    ensures
        result.wf(),
        result@ == first_of_seq(first_sets@, symbols@),
{
    assert(symbols@.skip(0) =~= symbols@);
    first_of_range(first_sets, symbols, 0)
}

/// The nonterminals of well-formed rules are nonterminals, and each stands in
/// the domain of FIRST and of FOLLOW.
proof fn lemma_nonterminals(rules: Seq<ProductionSpec>)
    requires
        forall|k: int| 0 <= k < rules.len() ==> (#[trigger] rules[k]).well_formed(),
    ensures
        forall|x: Symbol| #[trigger] nonterminals_of(rules).contains(x) ==> x is Nonterminal,
        forall|x: Symbol| #[trigger] terminals_of(rules).contains(x) ==> x is Terminal,
        forall|k: int| 0 <= k < rules.len() ==> nonterminals_of(rules).contains((#[trigger] rules[k]).lhs),
        forall|k: int, i: int|
            0 <= k < rules.len() && 0 <= i < rules[k].rhs.len() && rules[k].rhs[i] is Nonterminal
                ==> nonterminals_of(rules).contains(#[trigger] rules[k].rhs[i]),
{
    assert forall|x: Symbol| #[trigger] nonterminals_of(rules).contains(x) implies x is Nonterminal by {
        if heads_rule(rules, x) {
            let k = choose|k: int| 0 <= k < rules.len() && (#[trigger] rules[k]).lhs == x;
            assert(rules[k].well_formed());
        }
    }
    assert forall|k: int, i: int|
        0 <= k < rules.len() && 0 <= i < rules[k].rhs.len() && rules[k].rhs[i] is Nonterminal
            implies nonterminals_of(rules).contains(#[trigger] rules[k].rhs[i]) by {
        assert(occurs_in_rhs(rules, rules[k].rhs[i]));
    }
}

/// Whether every symbol of `m` but a nonterminal has itself as its set.
pub open spec fn has_base_sets(m: Sets) -> bool {
    forall|x: Symbol| #[trigger] m.dom().contains(x) && !(x is Nonterminal) ==> m[x] == set![x]
}

/// While FIRST sets are computed, they hold at most as many pairs of a symbol
/// and a member of its set as there are symbols with a set, times what a
/// set can hold.
proof fn lemma_first_size(first: SymbolMap, rules: Seq<ProductionSpec>)
    requires
        first.wf(),
        first@.dom() == first_domain(rules),
        has_base_sets(first@),
        forall|f: Sets| #[trigger] is_first_solution(rules, f) ==> below(first@, f),
        forall|k: int| 0 <= k < rules.len() ==> (#[trigger] rules[k]).well_formed(),
        terminals_of(rules).finite(),
    ensures
        first.size() <= first_domain(rules).len() * first_alphabet(rules).len(),
{
    lemma_first_sets_alphabet(rules);
    lemma_nonterminals(rules);
    let top = greatest_first_sets(rules);
    let alphabet = first_alphabet(rules);
    assert(below(first@, top));
    assert forall|k: Symbol| #[trigger] first@.contains_key(k) implies first@[k].len() <= alphabet.len() by {
        assert forall|t: Symbol| first@[k].contains(t) implies alphabet.contains(t) by {
            assert(lookup(first@, k).contains(t));
            assert(lookup(top, k).contains(t));
            assert(first_domain(rules).contains(k));
        }
        vstd::set_lib::lemma_len_subset(first@[k], alphabet);
    }
    first.lemma_size_bound(alphabet.len());
}

/// Computes the FIRST sets of a grammar: the least sets that hold, for each
/// terminal, the empty string and the end marker, the symbol itself, and for
/// each nonterminal FIRST of each of its right-hand sides.
pub fn compute_first_sets(grammar: &Grammar) -> (first: FirstSets)
    requires
        grammar.wf(),
    ensures
        first.wf(),
        first@ == first_sets(grammar.rules()),
        is_first_solution(grammar.rules(), first@),
        forall|f: Sets| #[trigger] is_first_solution(grammar.rules(), f) ==> below(first@, f),
        first@[Symbol::Epsilon] == set![Symbol::Epsilon],
        first@[Symbol::EndMarker] == set![Symbol::EndMarker],
        forall|t: Symbol|
            terminals_of(grammar.rules()).contains(t) ==> first@.contains_key(t) && #[trigger] first@[t]
                == set![t],
        forall|t: Symbol|
            t is Terminal && #[trigger] first@.contains_key(t) ==> terminals_of(grammar.rules()).contains(t),
{
    let ghost rules = grammar.rules();
    let productions = grammar.all_productions();
    let mut first = SymbolMap::new();
    first.insert_all(grammar.terminals(), true);
    first.insert(Symbol::Epsilon, SymbolSet::singleton(Symbol::Epsilon));
    first.insert(Symbol::EndMarker, SymbolSet::singleton(Symbol::EndMarker));
    first.insert_all(grammar.nonterminals(), false);
    proof {
        lemma_nonterminals(rules);
        assert(first@.dom() =~= first_domain(rules));
        assert forall|f: Sets| #[trigger] is_first_solution(rules, f) implies below(first@, f) by {
            assert forall|x: Symbol, t: Symbol| #[trigger]
                lookup(first@, x).contains(t) implies lookup(f, x).contains(t) by {
                assert(f.dom().contains(x));
                assert(!nonterminals_of(rules).contains(x));
            }
        }
    }
    let ghost capacity = first_domain(rules).len() * first_alphabet(rules).len();
    proof {
        grammar.lemma_finite_symbols();
    }
    let mut changed = true;
    while changed
        invariant
            grammar.wf(),
            rules == grammar.rules(),
            rules_view(productions@) == rules,
            first.wf(),
            first@.dom() == first_domain(rules),
            has_base_sets(first@),
            forall|f: Sets| #[trigger] is_first_solution(rules, f) ==> below(first@, f),
            !changed ==> forall|k: int| 0 <= k < rules.len() ==> first_rule_holds(first@, #[trigger] rules[k]),
            terminals_of(rules).finite(),
            capacity == first_domain(rules).len() * first_alphabet(rules).len(),
        decreases
                (if changed {
                    1int
                } else {
                    0int
                }) + capacity - first.size(),
    {
        changed = false;
        let ghost start = first;
        proof {
            lemma_first_size(first, rules);
        }
        let mut k: usize = 0;
        while k < productions.len()
            invariant
                k <= productions.len(),
                grammar.wf(),
                rules == grammar.rules(),
                rules_view(productions@) == rules,
                first.wf(),
                first@.dom() == first_domain(rules),
                has_base_sets(first@),
                forall|f: Sets| #[trigger] is_first_solution(rules, f) ==> below(first@, f),
                start.size() <= first.size(),
                changed ==> start.size() < first.size(),
                !changed ==> forall|j: int| 0 <= j < k ==> first_rule_holds(first@, #[trigger] rules[j]),
            decreases productions.len() - k,
        {
            let production = &productions[k];
            let ghost rule = rules[k as int];
            let ghost before = first@;
            proof {
                lemma_nonterminals(rules);
                assert(rule == production@);
                assert(rule.well_formed());
                assert(nonterminals_of(rules).contains(rule.lhs));
            }
            let rhs_first = first_of_string(&first, production.rhs.as_slice());
            let grew = first.absorb(production.lhs, &rhs_first, false);
            proof {
                assert(first@.dom() =~= first_domain(rules));
                assert forall|f: Sets| #[trigger] is_first_solution(rules, f) implies below(first@, f) by {
                    assert(below(before, f));
                    lemma_first_of_seq_monotone(before, f, rule.rhs);
                    assert(first_rule_holds(f, rules[k as int]));
                    assert forall|x: Symbol, t: Symbol| #[trigger]
                        lookup(first@, x).contains(t) implies lookup(f, x).contains(t) by {
                        if x == rule.lhs {
                            if !lookup(before, x).contains(t) {
                                assert(first_of_seq(before, rule.rhs).contains(t));
                                assert(first_of_seq(f, rule.rhs).contains(t));
                            }
                        } else {
                            assert(lookup(before, x).contains(t));
                        }
                    }
                }
                if grew {
                } else {
                    assert(first@ =~= before);
                    assert(first_rule_holds(first@, rule)) by {
                        assert(lookup(before, rule.lhs).union(rhs_first@) == lookup(before, rule.lhs));
                        assert forall|t: Symbol| first_of_seq(before, rule.rhs).contains(t) implies lookup(
                            before,
                            rule.lhs,
                        ).contains(t) by {
                            assert(lookup(before, rule.lhs).union(rhs_first@).contains(t));
                        }
                    }
                }
            }
            if grew {
                changed = true;
            }
            k += 1;
        }
        proof {
            lemma_first_size(first, rules);
        }
    }
    proof {
        lemma_least_first_solution(rules, first@);
        assert(first@.dom().contains(Symbol::Epsilon));
        assert(first@.dom().contains(Symbol::EndMarker));
        lemma_nonterminals(rules);
        assert forall|t: Symbol| terminals_of(rules).contains(t) implies first@.contains_key(t)
            && #[trigger] first@[t] == set![t] by {
            assert(first@.dom().contains(t));
        }
        assert forall|t: Symbol| t is Terminal && #[trigger] first@.contains_key(t) implies terminals_of(
            rules,
        ).contains(t) by {
            assert(first@.dom().contains(t));
        }
    }
    first
}

/// Whether the rules of FOLLOW hold at every position before position `i`
/// of rule `k`.
pub open spec fn follow_holds_before(
    rules: Seq<ProductionSpec>,
    first: Sets,
    m: Sets,
    k: int,
    i: int,
) -> bool {
    forall|a: int, b: int|
        0 <= a < rules.len() && (a < k || (a == k && b < i)) ==> #[trigger] follow_rule_holds(
            first,
            m,
            rules[a],
            b,
        )
}

/// What a FOLLOW set can hold: the symbols of the FIRST sets and the end
/// marker.
pub open spec fn follow_alphabet(first: Sets) -> Set<Symbol> {
    range_of(first).insert(Symbol::EndMarker)
}

/// Whether the sets of `m` hold symbols of `alphabet` only.
pub open spec fn all_within(m: Sets, alphabet: Set<Symbol>) -> bool {
    forall|x: Symbol, t: Symbol| #[trigger] lookup(m, x).contains(t) ==> alphabet.contains(t)
}

/// Sets of symbols of a finite alphabet hold at most as many pairs of a key
/// and a member as there are keys, times the size of the alphabet.
proof fn lemma_size_within(m: SymbolMap, alphabet: Set<Symbol>)
    requires
        m.wf(),
        alphabet.finite(),
        all_within(m@, alphabet),
    ensures
        m@.dom().finite(),
        m.size() <= m@.dom().len() * alphabet.len(),
{
    assert forall|k: Symbol| #[trigger] m@.contains_key(k) implies m@[k].len() <= alphabet.len() by {
        assert forall|t: Symbol| m@[k].contains(t) implies alphabet.contains(t) by {
            assert(lookup(m@, k).contains(t));
        }
        vstd::set_lib::lemma_len_subset(m@[k], alphabet);
    }
    m.lemma_size_bound(alphabet.len());
}

/// FIRST of a sequence holds symbols of the FIRST sets, and the empty string.
proof fn lemma_first_of_seq_range(m: Sets, s: Seq<Symbol>)
    ensures
        forall|t: Symbol| #[trigger]
            first_of_seq(m, s).contains(t) ==> t == Symbol::Epsilon || range_of(m).contains(t),
{
    assert forall|t: Symbol| #[trigger] first_of_seq(m, s).contains(t) implies t == Symbol::Epsilon
        || range_of(m).contains(t) by {
        if t != Symbol::Epsilon {
            let i = choose|i: int| #[trigger] begins_at(m, s, i, t);
            assert(m.contains_key(s[i]) && m[s[i]].contains(t));
        }
    }
}

/// Computes the FOLLOW sets of a grammar by the FIRST sets `first_sets`: the
/// least sets in which the end marker follows the start symbol and which
/// meet the two rules of FOLLOW at each nonterminal of each right-hand side.
pub fn compute_follow_sets(grammar: &Grammar, first_sets: &FirstSets) -> (follow: FollowSets)
    requires
        grammar.wf(),
        first_sets.wf(),
    ensures
        follow.wf(),
        follow@ == follow_sets(grammar.rules(), first_sets@),
        is_follow_solution(grammar.rules(), first_sets@, follow@),
        forall|f: Sets| #[trigger] is_follow_solution(grammar.rules(), first_sets@, f) ==> below(follow@, f),
        follow@.contains_key(start_symbol()),
        follow@[start_symbol()].contains(Symbol::EndMarker),
{
    let ghost rules = grammar.rules();
    let ghost fm = first_sets@;
    let productions = grammar.all_productions();
    let start = grammar.start_symbol();
    let mut follow = SymbolMap::new();
    follow.insert_all(grammar.nonterminals(), false);
    let end = SymbolSet::singleton(Symbol::EndMarker);
    let ghost empty_sets = follow@;
    follow.absorb(start, &end, false);
    proof {
        assert(follow@.dom() =~= follow_domain(rules));
        assert(lookup(empty_sets, start) =~= Set::<Symbol>::empty());
        assert(follow@[start].contains(Symbol::EndMarker));
        assert forall|f: Sets| #[trigger] is_follow_solution(rules, fm, f) implies below(follow@, f) by {
            assert forall|x: Symbol, t: Symbol| #[trigger]
                lookup(follow@, x).contains(t) implies lookup(f, x).contains(t) by {
                if x != start {
                    assert(lookup(empty_sets, x) =~= Set::<Symbol>::empty());
                }
            }
        }
    }
    let ghost alphabet = follow_alphabet(fm);
    let ghost capacity = follow_domain(rules).len() * alphabet.len();
    proof {
        first_sets.lemma_range_finite();
        assert(all_within(follow@, alphabet)) by {
            assert forall|x: Symbol, t: Symbol| #[trigger] lookup(follow@, x).contains(t) implies alphabet.contains(
                t,
            ) by {
                if x != start {
                    assert(lookup(empty_sets, x) =~= Set::<Symbol>::empty());
                }
            }
        }
    }
    let mut changed = true;
    while changed
        invariant
            grammar.wf(),
            first_sets.wf(),
            rules == grammar.rules(),
            fm == first_sets@,
            rules_view(productions@) == rules,
            follow.wf(),
            follow@.dom() == follow_domain(rules),
            follow@[start_symbol()].contains(Symbol::EndMarker),
            forall|f: Sets| #[trigger] is_follow_solution(rules, fm, f) ==> below(follow@, f),
            !changed ==> follow_holds_before(rules, fm, follow@, rules.len() as int, 0),
            alphabet == follow_alphabet(fm),
            alphabet.finite(),
            all_within(follow@, alphabet),
            capacity == follow_domain(rules).len() * alphabet.len(),
        decreases
                (if changed {
                    1int
                } else {
                    0int
                }) + capacity - follow.size(),
    {
        changed = false;
        let ghost initial = follow;
        proof {
            lemma_size_within(follow, alphabet);
        }
        let mut k: usize = 0;
        while k < productions.len()
            invariant
                k <= productions.len(),
                grammar.wf(),
                first_sets.wf(),
                rules == grammar.rules(),
                fm == first_sets@,
                rules_view(productions@) == rules,
                follow.wf(),
                follow@.dom() == follow_domain(rules),
                follow@[start_symbol()].contains(Symbol::EndMarker),
                forall|f: Sets| #[trigger] is_follow_solution(rules, fm, f) ==> below(follow@, f),
                alphabet == follow_alphabet(fm),
                all_within(follow@, alphabet),
                initial.size() <= follow.size(),
                changed ==> initial.size() < follow.size(),
                !changed ==> follow_holds_before(rules, fm, follow@, k as int, 0),
            decreases productions.len() - k,
        {
            let production = &productions[k];
            let rhs = production.rhs.as_slice();
            let ghost rule = rules[k as int];
            proof {
                assert(rule == production@);
            }
            let mut i: usize = 0;
            while i < rhs.len()
                invariant
                    i <= rhs.len(),
                    k < productions.len(),
                    grammar.wf(),
                    first_sets.wf(),
                    rules == grammar.rules(),
                    fm == first_sets@,
                    rules_view(productions@) == rules,
                    rule == rules[k as int],
                    rule == production@,
                    rhs@ == rule.rhs,
                    follow.wf(),
                    follow@.dom() == follow_domain(rules),
                    follow@[start_symbol()].contains(Symbol::EndMarker),
                    forall|f: Sets| #[trigger] is_follow_solution(rules, fm, f) ==> below(follow@, f),
                    alphabet == follow_alphabet(fm),
                    all_within(follow@, alphabet),
                    initial.size() <= follow.size(),
                    changed ==> initial.size() < follow.size(),
                    !changed ==> follow_holds_before(rules, fm, follow@, k as int, i as int),
                decreases rhs.len() - i,
            {
                let symbol = rhs[i];
                let ghost before = follow@;
                if symbol.is_nonterminal() {
                    proof {
                        lemma_nonterminals(rules);
                        assert(rule.well_formed());
                        assert(nonterminals_of(rules).contains(rules[k as int].rhs[i as int]));
                        assert(nonterminals_of(rules).contains(rule.lhs));
                    }
                    let rest = first_of_range(first_sets, rhs, i + 1);
                    let grew_first = follow.absorb(symbol, &rest, true);
                    let ghost mid = follow@;
                    let mut grew_follow = false;
                    if rest.contains(&Symbol::Epsilon) {
                        match follow.get(&production.lhs) {
                            Some(set) => {
                                let of_lhs = set.clone();
                                grew_follow = follow.absorb(symbol, &of_lhs, false);
                            },
                            None => {},
                        }
                    }
                    proof {
                        assert(follow@.dom() =~= follow_domain(rules));
                        lemma_first_of_seq_range(fm, rule.rhs.skip(i as int + 1));
                        assert forall|x: Symbol, t: Symbol| #[trigger]
                            lookup(follow@, x).contains(t) implies alphabet.contains(t) by {
                            if x == symbol {
                                if lookup(before, x).contains(t) {
                                } else if rest@.remove(Symbol::Epsilon).contains(t) {
                                    assert(first_of_seq(fm, rule.rhs.skip(i as int + 1)).contains(t));
                                } else {
                                    assert(lookup(mid, rule.lhs).contains(t));
                                    if rule.lhs != symbol {
                                        assert(lookup(before, rule.lhs).contains(t));
                                    }
                                }
                            } else {
                                assert(lookup(before, x).contains(t));
                            }
                        }
                        assert forall|f: Sets| #[trigger] is_follow_solution(rules, fm, f) implies below(
                            follow@,
                            f,
                        ) by {
                            assert(below(before, f));
                            assert(follow_rule_holds(fm, f, rules[k as int], i as int));
                            assert forall|x: Symbol, t: Symbol| #[trigger]
                                lookup(follow@, x).contains(t) implies lookup(f, x).contains(t) by {
                                if x == symbol {
                                    if lookup(before, x).contains(t) {
                                    } else if rest@.remove(Symbol::Epsilon).contains(t) {
                                    } else {
                                        assert(lookup(mid, rule.lhs).contains(t));
                                        if rule.lhs == symbol {
                                        } else {
                                            assert(lookup(before, rule.lhs).contains(t));
                                        }
                                    }
                                } else {
                                    assert(lookup(before, x).contains(t));
                                }
                            }
                        }
                        if !grew_first && !grew_follow {
                            assert(mid =~= before);
                            assert(follow@ =~= before);
                            assert(follow_rule_holds(fm, before, rule, i as int)) by {
                                let have = lookup(before, symbol);
                                assert(have.union(rest@.remove(Symbol::Epsilon)) == have);
                                assert forall|t: Symbol| rest@.remove(Symbol::Epsilon).contains(
                                    t,
                                ) implies have.contains(t) by {
                                    assert(have.union(rest@.remove(Symbol::Epsilon)).contains(t));
                                }
                                if rest@.contains(Symbol::Epsilon) {
                                    let of_lhs = lookup(before, rule.lhs);
                                    assert(have.union(of_lhs) == have);
                                    assert forall|t: Symbol| of_lhs.contains(t) implies have.contains(t) by {
                                        assert(have.union(of_lhs).contains(t));
                                    }
                                }
                            }
                        }
                    }
                    if grew_first || grew_follow {
                        changed = true;
                    }
                }
                i += 1;
            }
            k += 1;
        }
        proof {
            lemma_size_within(follow, alphabet);
        }
    }
    proof {
        assert forall|k: int, i: int| 0 <= k < rules.len() implies #[trigger] follow_rule_holds(
            fm,
            follow@,
            rules[k],
            i,
        ) by {}
        lemma_least_follow_solution(rules, fm, follow@);
    }
    follow
}

} // verus!

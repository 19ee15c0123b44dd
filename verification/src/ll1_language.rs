//! What the grammar derives, the LL(1) machine accepts, where its table is
//! built by solutions of the rules of FIRST and FOLLOW.

use vstd::prelude::*;
use crate::first_follow::{
    all_nullable, begins_at, first_domain, first_of_seq, first_rule_holds, follow_rule_holds,
    is_first_solution, is_follow_solution, nullable_at, Sets,
};
use crate::grammar::{body, heads_rule, is_derivation, occurs_in_rhs, ProductionSpec};
use crate::ll1::{claims, expansion, is_ll1, ll1_conflict, ll1_run, ll1_table, select_set};
use crate::symbol::Symbol;
use crate::symbol_set::lookup;

verus! {

/// Whether each symbol of `word` is a terminal or the end marker.
pub open spec fn is_plain(word: Seq<Symbol>) -> bool {
    forall|i: int| 0 <= i < word.len() ==> (#[trigger] word[i]) is Terminal || word[i] is EndMarker
}

/// Whether `m` has a set for each symbol of `form`.
pub open spec fn all_known(m: Sets, form: Seq<Symbol>) -> bool {
    forall|i: int| 0 <= i < form.len() ==> m.contains_key(#[trigger] form[i])
}

/// Whether what begins the rest of `form` after the nonterminal at `i`
/// follows that nonterminal.
pub open spec fn rest_follows(first: Sets, follow: Sets, form: Seq<Symbol>, i: int) -> bool {
    0 <= i < form.len() && form[i] is Nonterminal ==> first_of_seq(first, form.skip(i + 1)).remove(
        Symbol::Epsilon,
    ).subset_of(lookup(follow, form[i]))
}

/// Whether, after each nonterminal of `form`, what begins the rest follows
/// the nonterminal.
pub open spec fn follow_ok(first: Sets, follow: Sets, form: Seq<Symbol>) -> bool {
    forall|i: int| #[trigger] rest_follows(first, follow, form, i)
}

/// What begins two sequences, one after the other, begins the first, or
/// begins the second after a first that can derive the empty string.
proof fn lemma_first_of_joined(m: Sets, a: Seq<Symbol>, b: Seq<Symbol>, t: Symbol)
    requires
        t != Symbol::Epsilon,
        first_of_seq(m, a + b).contains(t),
    ensures
        first_of_seq(m, a).contains(t) || (all_nullable(m, a, a.len() as int) && first_of_seq(m, b).contains(t)),
{
    let i = choose|i: int| #[trigger] begins_at(m, a + b, i, t);
    if i < a.len() {
        assert forall|j: int| 0 <= j < i implies #[trigger] nullable_at(m, a, j) by {
            assert(nullable_at(m, a + b, j));
        }
        assert(begins_at(m, a, i, t));
    } else {
        assert forall|j: int| 0 <= j < a.len() implies #[trigger] nullable_at(m, a, j) by {
            assert(nullable_at(m, a + b, j));
        }
        assert forall|j: int| 0 <= j < i - a.len() implies #[trigger] nullable_at(m, b, j) by {
            assert(nullable_at(m, a + b, a.len() + j));
        }
        assert(begins_at(m, b, i - a.len(), t));
    }
}

/// Where every symbol of two sequences, one after the other, can derive the
/// empty string, every symbol of each can.
proof fn lemma_nullable_joined(m: Sets, a: Seq<Symbol>, b: Seq<Symbol>)
    requires
        all_nullable(m, a + b, (a + b).len() as int),
    ensures
        all_nullable(m, a, a.len() as int),
        all_nullable(m, b, b.len() as int),
{
    assert forall|j: int| 0 <= j < a.len() implies #[trigger] nullable_at(m, a, j) by {
        assert(nullable_at(m, a + b, j));
    }
    assert forall|j: int| 0 <= j < b.len() implies #[trigger] nullable_at(m, b, j) by {
        assert(nullable_at(m, a + b, a.len() + j));
    }
}

/// The symbols of a right-hand side have FIRST sets.
proof fn lemma_body_known(rules: Seq<ProductionSpec>, m: Sets, k: int)
    requires
        0 <= k < rules.len(),
        rules[k].well_formed(),
        m.dom() == first_domain(rules),
    ensures
        all_known(m, rules[k].rhs),
        all_known(m, body(rules[k])),
        m.contains_key(rules[k].lhs),
{
    assert forall|i: int| 0 <= i < rules[k].rhs.len() implies m.contains_key(#[trigger] rules[k].rhs[i]) by {
        assert(occurs_in_rhs(rules, rules[k].rhs[i]));
        assert(first_domain(rules).contains(rules[k].rhs[i]));
    }
    assert(heads_rule(rules, rules[k].lhs));
    assert(first_domain(rules).contains(rules[k].lhs));
}

/// Where every symbol of the body of a rule can derive the empty string, so
/// can the left-hand side.
proof fn lemma_nullable_body(rules: Seq<ProductionSpec>, m: Sets, k: int)
    requires
        0 <= k < rules.len(),
        rules[k].well_formed(),
        is_first_solution(rules, m),
        all_nullable(m, body(rules[k]), body(rules[k]).len() as int),
    ensures
        first_of_seq(m, rules[k].rhs).contains(Symbol::Epsilon),
        lookup(m, rules[k].lhs).contains(Symbol::Epsilon),
{
    let rule = rules[k];
    assert(first_rule_holds(m, rules[k]));
    if rule.is_empty_rule() {
        assert(m.dom().contains(Symbol::Epsilon));
        assert(m[Symbol::Epsilon] == set![Symbol::Epsilon]);
        assert forall|j: int| 0 <= j < rule.rhs.len() implies #[trigger] nullable_at(m, rule.rhs, j) by {
            assert(rule.rhs[j] == Symbol::Epsilon);
        }
    }
}

/// FIRST covers what is derived: a form begins with the first symbol of
/// the word it derives, and can derive the empty string where it derives the
/// empty word.
pub proof fn lemma_first_covers(
    rules: Seq<ProductionSpec>,
    m: Sets,
    form: Seq<Symbol>,
    word: Seq<Symbol>,
    steps: Seq<int>,
)
    requires
        forall|k: int| 0 <= k < rules.len() ==> (#[trigger] rules[k]).well_formed(),
        is_first_solution(rules, m),
        all_known(m, form),
        is_plain(word),
        is_derivation(rules, form, word, steps),
    ensures
        word.len() > 0 ==> first_of_seq(m, form).contains(word[0]),
        word.len() == 0 ==> all_nullable(m, form, form.len() as int),
    decreases steps.len(),
{
    if steps.len() > 0 {
        let k = steps[0];
        let rest = form.skip(1);
        assert(form =~= seq![form[0]] + rest);
        if 0 <= k < rules.len() {
            let rule = rules[k];
            let next = body(rule) + rest;
            lemma_body_known(rules, m, k);
            assert(all_known(m, next)) by {
                assert forall|i: int| 0 <= i < next.len() implies m.contains_key(#[trigger] next[i]) by {
                    if i < body(rule).len() {
                        assert(m.contains_key(body(rule)[i]));
                    } else {
                        assert(m.contains_key(form[i - body(rule).len() + 1]));
                    }
                }
            }
            lemma_first_covers(rules, m, next, word, steps.skip(1));
            assert(first_rule_holds(m, rules[k]));
            if word.len() > 0 {
                let t = word[0];
                lemma_first_of_joined(m, body(rule), rest, t);
                if first_of_seq(m, body(rule)).contains(t) {
                    assert(lookup(m, rule.lhs).contains(t));
                    assert forall|j: int| 0 <= j < 0 implies #[trigger] nullable_at(m, form, j) by {}
                    assert(begins_at(m, form, 0, t));
                } else {
                    lemma_nullable_body(rules, m, k);
                    let i = choose|i: int| #[trigger] begins_at(m, rest, i, t);
                    assert forall|j: int| 0 <= j < i + 1 implies #[trigger] nullable_at(m, form, j) by {
                        if j > 0 {
                            assert(nullable_at(m, rest, j - 1));
                        }
                    }
                    assert(begins_at(m, form, i + 1, t));
                }
            } else {
                lemma_nullable_joined(m, body(rule), rest);
                lemma_nullable_body(rules, m, k);
                assert forall|j: int| 0 <= j < form.len() implies #[trigger] nullable_at(m, form, j) by {
                    if j > 0 {
                        assert(nullable_at(m, rest, j - 1));
                    }
                }
            }
        } else {
            let t = word[0];
            assert(m.dom().contains(t));
            assert(m[t] == set![t]);
            assert forall|j: int| 0 <= j < 0 implies #[trigger] nullable_at(m, form, j) by {}
            assert(begins_at(m, form, 0, t));
        }
    }
}

/// The rule that a derivation rewrites the first symbol of a form by claims
/// the cell of that symbol and the first symbol of the word.
proof fn lemma_step_claims(
    rules: Seq<ProductionSpec>,
    first: Sets,
    follow: Sets,
    form: Seq<Symbol>,
    word: Seq<Symbol>,
    steps: Seq<int>,
)
    requires
        forall|k: int| 0 <= k < rules.len() ==> (#[trigger] rules[k]).well_formed(),
        is_first_solution(rules, first),
        all_known(first, form),
        follow_ok(first, follow, form),
        is_plain(word),
        word.len() > 0,
        is_derivation(rules, form, word, steps),
        steps.len() > 0,
        0 <= steps[0] < rules.len(),
    ensures
        claims(rules, first, follow, steps[0], form[0], word[0]),
{
    let k = steps[0];
    let rule = rules[k];
    let rest = form.skip(1);
    let next = body(rule) + rest;
    let t = word[0];
    lemma_body_known(rules, first, k);
    assert(all_known(first, next)) by {
        assert forall|i: int| 0 <= i < next.len() implies first.contains_key(#[trigger] next[i]) by {
            if i < body(rule).len() {
                assert(first.contains_key(body(rule)[i]));
            } else {
                assert(first.contains_key(form[i - body(rule).len() + 1]));
            }
        }
    }
    lemma_first_covers(rules, first, next, word, steps.skip(1));
    lemma_first_of_joined(first, body(rule), rest, t);
    if first_of_seq(first, body(rule)).contains(t) {
        assert(select_set(first, follow, rule).contains(t));
    } else {
        lemma_nullable_body(rules, first, k);
        assert(rest_follows(first, follow, form, 0));
        assert(lookup(follow, form[0]).contains(t));
        assert(select_set(first, follow, rule).contains(t));
    }
}

/// Rewriting the first symbol of a form by one of its rules keeps that what
/// begins the rest after each nonterminal follows the nonterminal.
proof fn lemma_follow_ok_rewritten(
    rules: Seq<ProductionSpec>,
    first: Sets,
    follow: Sets,
    form: Seq<Symbol>,
    k: int,
)
    requires
        0 <= k < rules.len(),
        is_follow_solution(rules, first, follow),
        form.len() > 0,
        rules[k].lhs == form[0],
        rules[k].lhs is Nonterminal,
        follow_ok(first, follow, form),
    ensures
        follow_ok(first, follow, body(rules[k]) + form.skip(1)),
{
    let rule = rules[k];
    let rest = form.skip(1);
    let next = body(rule) + rest;
    assert forall|i: int| #[trigger] rest_follows(first, follow, next, i) by {
        if 0 <= i < next.len() && next[i] is Nonterminal {
            if i < body(rule).len() {
                assert(body(rule) == rule.rhs);
                let tail = rule.rhs.skip(i + 1);
                assert(next.skip(i + 1) =~= tail + rest);
                assert(follow_rule_holds(first, follow, rules[k], i));
                assert(rest_follows(first, follow, form, 0));
                assert forall|t: Symbol| first_of_seq(first, next.skip(i + 1)).remove(Symbol::Epsilon).contains(
                    t,
                ) implies lookup(follow, next[i]).contains(t) by {
                    lemma_first_of_joined(first, tail, rest, t);
                    if first_of_seq(first, tail).contains(t) {
                        assert(first_of_seq(first, tail).remove(Symbol::Epsilon).contains(t));
                    } else {
                        assert(first_of_seq(first, tail).contains(Symbol::Epsilon));
                        assert(first_of_seq(first, rest).remove(Symbol::Epsilon).contains(t));
                        assert(lookup(follow, form[0]).contains(t));
                    }
                }
            } else {
                let at = i - body(rule).len() + 1;
                assert(next[i] == form[at]);
                assert(next.skip(i + 1) =~= form.skip(at + 1));
                assert(rest_follows(first, follow, form, at));
            }
        }
    }
}

/// The LL(1) machine follows a derivation step by step: from a stack that,
/// read from its top, is the form of the derivation, over the end marker, it
/// accepts the word within as many steps as the derivation has.
pub proof fn lemma_derivation_runs(
    rules: Seq<ProductionSpec>,
    first: Sets,
    follow: Sets,
    stack: Seq<Symbol>,
    input: Seq<Symbol>,
    pos: int,
    steps: Seq<int>,
)
    requires
        forall|k: int| 0 <= k < rules.len() ==> (#[trigger] rules[k]).well_formed(),
        is_first_solution(rules, first),
        is_follow_solution(rules, first, follow),
        is_ll1(rules, first, follow),
        all_known(first, stack.reverse()),
        follow_ok(first, follow, stack.reverse()),
        stack.len() > 0 ==> stack[0] == Symbol::EndMarker,
        0 <= pos <= input.len(),
        is_plain(input.skip(pos)),
        is_derivation(rules, stack.reverse(), input.skip(pos), steps),
    ensures
        ll1_run(ll1_table(rules, first, follow), stack, input, pos, steps.len()),
    decreases steps.len(),
{
    let table = ll1_table(rules, first, follow);
    let form = stack.reverse();
    let word = input.skip(pos);
    if steps.len() > 0 {
        assert(word.len() > 0) by {
            if word.len() == 0 {
                lemma_first_covers(rules, first, form, word, steps);
                assert(nullable_at(first, form, form.len() - 1));
                assert(form[form.len() - 1] == Symbol::EndMarker);
                assert(first.dom().contains(Symbol::EndMarker));
                assert(first[Symbol::EndMarker] == set![Symbol::EndMarker]);
            }
        }
        let top = stack.last();
        let cur = input[pos];
        let below = stack.drop_last();
        assert(form[0] == top);
        assert(word[0] == cur);
        assert(form.skip(1) =~= below.reverse());
        let k = steps[0];
        if 0 <= k < rules.len() {
            let rule = rules[k];
            assert(rule.well_formed());
            lemma_step_claims(rules, first, follow, form, word, steps);
            assert(claims(rules, first, follow, k, top, cur));
            let key = (top, cur);
            assert(claims(rules, first, follow, k, key.0, key.1));
            assert(exists|c: int| claims(rules, first, follow, c, key.0, key.1));
            assert(table.contains_key(key));
            let chosen = choose|c: int| claims(rules, first, follow, c, top, cur);
            assert(rules[chosen] == rule) by {
                if chosen < k {
                    assert(!ll1_conflict(rules, first, follow, chosen, k, cur));
                } else if k < chosen {
                    assert(!ll1_conflict(rules, first, follow, k, chosen, cur));
                }
            }
            assert(table[(top, cur)] == rule);
            let next = below + expansion(rule);
            assert(next.reverse() =~= body(rule) + form.skip(1));
            lemma_body_known(rules, first, k);
            assert(all_known(first, next.reverse())) by {
                assert forall|i: int| 0 <= i < next.reverse().len() implies first.contains_key(
                    #[trigger] next.reverse()[i],
                ) by {
                    if i < body(rule).len() {
                        assert(first.contains_key(body(rule)[i]));
                    } else {
                        assert(first.contains_key(form[i - body(rule).len() + 1]));
                    }
                }
            }
            lemma_follow_ok_rewritten(rules, first, follow, form, k);
            assert(stack.len() > 1);
            assert(next[0] == stack[0]);
            lemma_derivation_runs(rules, first, follow, next, input, pos, steps.skip(1));
        } else {
            assert(word.skip(1) =~= input.skip(pos + 1));
            assert(all_known(first, below.reverse())) by {
                assert forall|i: int| 0 <= i < below.reverse().len() implies first.contains_key(
                    #[trigger] below.reverse()[i],
                ) by {
                    assert(first.contains_key(form[i + 1]));
                }
            }
            assert(follow_ok(first, follow, below.reverse())) by {
                assert forall|i: int| #[trigger] rest_follows(first, follow, below.reverse(), i) by {
                    if 0 <= i < below.len() {
                        assert(below.reverse()[i] == form[i + 1]);
                        assert(below.reverse().skip(i + 1) =~= form.skip(i + 2));
                        assert(rest_follows(first, follow, form, i + 1));
                    }
                }
            }
            assert(is_plain(input.skip(pos + 1))) by {
                assert forall|i: int| 0 <= i < input.skip(pos + 1).len() implies (#[trigger] input.skip(
                    pos + 1,
                )[i]) is Terminal || input.skip(pos + 1)[i] is EndMarker by {
                    assert(input.skip(pos + 1)[i] == word[i + 1]);
                }
            }
            if below.len() > 0 {
                assert(below[0] == stack[0]);
            }
            lemma_derivation_runs(rules, first, follow, below, input, pos + 1, steps.skip(1));
        }
    }
}

} // verus!

//! Where a grammar is in both classes, its two recognizers accept the same
//! texts.

use vstd::prelude::*;
use crate::first_follow::{is_first_solution, is_follow_solution};
use crate::grammar::{
    augmented_start, body, is_derivation, lemma_derivation_join, lemma_derivation_of_nothing,
    lemma_derivation_part, start_symbol, ProductionSpec,
};
use crate::ll1::{ll1_accepts, LL1Parser, STEP_LIMIT};
use crate::slr1::{action_table_of, distinct_rules, lemma_distinct_rules, slr_accepts, SLR1Parser};
use crate::slr1_language::{is_augmented, is_proper};
use crate::symbol::{classify, classify_all, Symbol};

verus! {

/// Whether no symbol of `form` is the augmented start symbol.
pub open spec fn lacks_augmented_start(form: Seq<Symbol>) -> bool {
    forall|i: int| 0 <= i < form.len() ==> #[trigger] form[i] != augmented_start()
}

/// The steps of a derivation by the rules of an augmented grammar, as steps
/// by the rules of the grammar: each place of a rule becomes the first place
/// of that rule among the rules of the grammar.
pub open spec fn given_steps(rules: Seq<ProductionSpec>, given: Seq<ProductionSpec>, steps: Seq<int>) -> Seq<int> {
    Seq::new(
        steps.len(),
        |i: int|
            if 0 <= steps[i] < rules.len() {
                given.index_of(rules[steps[i]])
            } else {
                -1
            },
    )
}

/// A derivation by the rules of an augmented grammar, from a form without
/// the augmented start symbol, is a derivation by the rules of the grammar.
pub proof fn lemma_given_derivation(
    rules: Seq<ProductionSpec>,
    given: Seq<ProductionSpec>,
    form: Seq<Symbol>,
    word: Seq<Symbol>,
    steps: Seq<int>,
)
    requires
        is_augmented(rules),
        forall|k: int| 0 < k < rules.len() ==> given.contains(#[trigger] rules[k]),
        lacks_augmented_start(form),
        is_derivation(rules, form, word, steps),
    ensures
        is_derivation(given, form, word, given_steps(rules, given, steps)),
    decreases steps.len(),
{
    let moved = given_steps(rules, given, steps);
    if steps.len() > 0 {
        let k = steps[0];
        assert(moved.skip(1) =~= given_steps(rules, given, steps.skip(1)));
        if 0 <= k < rules.len() {
            assert(form[0] != augmented_start());
            assert(k > 0);
            let rule = rules[k];
            assert(rule.well_formed());
            assert(given.contains(rule));
            let j = given.index_of(rule);
            assert(0 <= j < given.len() && given[j] == rule);
            let next = body(rule) + form.skip(1);
            assert(lacks_augmented_start(next)) by {
                assert forall|i: int| 0 <= i < next.len() implies #[trigger] next[i] != augmented_start() by {
                    if i < body(rule).len() {
                        assert(rule.rhs[i].is_classified());
                    } else {
                        assert(form[i - body(rule).len() + 1] != augmented_start());
                    }
                }
            }
            lemma_given_derivation(rules, given, next, word, steps.skip(1));
        } else {
            assert(lacks_augmented_start(form.skip(1))) by {
                assert forall|i: int| 0 <= i < form.skip(1).len() implies #[trigger] form.skip(1)[i]
                    != augmented_start() by {
                    assert(form[i + 1] != augmented_start());
                }
            }
            lemma_given_derivation(rules, given, form.skip(1), word.skip(1), steps.skip(1));
        }
    }
}

/// The steps of a derivation by the rules of a grammar, as steps by the rules
/// of the augmented grammar: each place of a rule becomes the first place of
/// that rule among the rules of the augmented grammar.
pub open spec fn augmented_steps(rules: Seq<ProductionSpec>, given: Seq<ProductionSpec>, steps: Seq<int>) -> Seq<
    int,
> {
    Seq::new(
        steps.len(),
        |i: int|
            if 0 <= steps[i] < given.len() {
                rules.index_of(given[steps[i]])
            } else {
                -1
            },
    )
}

/// A derivation by the rules of a grammar is a derivation by the rules of the
/// augmented grammar.
pub proof fn lemma_augmented_derivation(
    rules: Seq<ProductionSpec>,
    given: Seq<ProductionSpec>,
    form: Seq<Symbol>,
    word: Seq<Symbol>,
    steps: Seq<int>,
)
    requires
        forall|k: int| 0 <= k < given.len() ==> rules.contains(#[trigger] given[k]),
        is_derivation(given, form, word, steps),
    ensures
        is_derivation(rules, form, word, augmented_steps(rules, given, steps)),
        augmented_steps(rules, given, steps).len() == steps.len(),
    decreases steps.len(),
{
    let moved = augmented_steps(rules, given, steps);
    if steps.len() > 0 {
        let k = steps[0];
        assert(moved.skip(1) =~= augmented_steps(rules, given, steps.skip(1)));
        if 0 <= k < given.len() {
            let rule = given[k];
            assert(rules.contains(rule));
            let j = rules.index_of(rule);
            assert(0 <= j < rules.len() && rules[j] == rule);
            lemma_augmented_derivation(rules, given, body(rule) + form.skip(1), word, steps.skip(1));
        } else {
            lemma_augmented_derivation(rules, given, form.skip(1), word.skip(1), steps.skip(1));
        }
    }
}

/// What the shift-reduce recognizer of a grammar accepts, the predictive
/// recognizer of the grammar accepts: a text of terminals, where the
/// predictive table is built by solutions of the rules of FIRST and FOLLOW,
/// and the symbol for the empty string stands alone in the productions where
/// it stands at all.
pub proof fn lemma_bottom_up_within_top_down(top_down: LL1Parser, bottom_up: SLR1Parser, text: Seq<char>)
    requires
        top_down.wf(),
        bottom_up.wf(),
        bottom_up.grammar_rules() == top_down.rules(),
        is_first_solution(top_down.rules(), top_down.first_view()),
        is_follow_solution(top_down.rules(), top_down.first_view(), top_down.follow_view()),
        forall|k: int| 0 <= k < top_down.rules().len() ==> is_proper(#[trigger] top_down.rules()[k]),
        forall|i: int| 0 <= i < text.len() ==> classify(#[trigger] text[i]) is Terminal,
        slr_accepts(bottom_up.rules(), bottom_up.actions(), bottom_up.gotos(), text),
    ensures
        ll1_accepts(top_down.table_view(), text),
{
    let given = top_down.rules();
    let rules = bottom_up.rules();
    let input = classify_all(text).push(Symbol::EndMarker);
    let word = classify_all(text);
    let found = bottom_up.lemma_accepts_sentences(text);
    let end = found.0;
    assert(end == text.len()) by {
        if end < text.len() {
            assert(input[end] == classify(text[end]));
        }
    }
    assert(input.take(end) =~= word);
    lemma_distinct_rules(given);
    assert forall|k: int| 0 < k < rules.len() implies given.contains(#[trigger] rules[k]) by {
        assert(rules[k] == distinct_rules(given)[k - 1]);
    }
    let form = seq![start_symbol()];
    lemma_given_derivation(rules, given, form, word, found.1);
    let steps = given_steps(rules, given, found.1);
    let last = seq![Symbol::EndMarker];
    assert(is_derivation(given, last, last, seq![-1int])) by {
        assert(last.skip(1) =~= Seq::<Symbol>::empty());
        assert(seq![-1int].skip(1) =~= Seq::<int>::empty());
        assert(is_derivation(given, last.skip(1), last.skip(1), seq![-1int].skip(1)));
    }
    lemma_derivation_join(given, form, word, steps, last, last, seq![-1int]);
    assert(form + last =~= seq![start_symbol(), Symbol::EndMarker]);
    assert(word + last =~= input);
    top_down.lemma_recognizes_sentences(text, steps + seq![-1int]);
}


/// What the predictive recognizer of a grammar accepts, the shift-reduce
/// recognizer of the grammar accepts: a text of terminals, where both are
/// built by the same solutions of the rules of FIRST and FOLLOW, and the
/// symbol for the empty string stands alone in the productions where it
/// stands at all.
pub proof fn lemma_top_down_within_bottom_up(top_down: LL1Parser, bottom_up: SLR1Parser, text: Seq<char>)
    requires
        top_down.wf(),
        bottom_up.wf(),
        bottom_up.grammar_rules() == top_down.rules(),
        is_first_solution(top_down.rules(), top_down.first_view()),
        is_follow_solution(top_down.rules(), top_down.first_view(), top_down.follow_view()),
        action_table_of(bottom_up.rules(), bottom_up.edges(), top_down.follow_view(), bottom_up.states())
            == Some(bottom_up.actions()),
        forall|k: int| 0 <= k < top_down.rules().len() ==> is_proper(#[trigger] top_down.rules()[k]),
        forall|i: int| 0 <= i < text.len() ==> classify(#[trigger] text[i]) is Terminal,
        ll1_accepts(top_down.table_view(), text),
    ensures
        slr_accepts(bottom_up.rules(), bottom_up.actions(), bottom_up.gotos(), text),
{
    let given = top_down.rules();
    let word = classify_all(text);
    let input = word.push(Symbol::EndMarker);
    let form = seq![start_symbol()];
    let last = seq![Symbol::EndMarker];
    top_down.lemma_accepts_what_is_derived(text);
    let both = seq![start_symbol(), Symbol::EndMarker];
    let steps = choose|steps: Seq<int>|
        steps.len() <= STEP_LIMIT && #[trigger] is_derivation(given, both, input, steps);
    assert(form + last =~= both);
    let parts = lemma_derivation_part(given, form, last, input, steps);
    assert(parts.2 =~= last && parts.3.len() == 1) by {
        assert(parts.3.len() > 0);
        let k = parts.3[0];
        if 0 <= k < given.len() {
            assert(given[k].well_formed());
        }
        assert(last.skip(1) =~= Seq::<Symbol>::empty());
        lemma_derivation_of_nothing(given, parts.2.skip(1), parts.3.skip(1));
    }
    assert(parts.0 =~= word) by {
        assert(parts.0.len() == word.len());
        assert forall|i: int| 0 <= i < word.len() implies parts.0[i] == word[i] by {
            assert((parts.0 + parts.2)[i] == input[i]);
        }
    }
    bottom_up.lemma_recognizes_sentences(top_down.first_view(), top_down.follow_view(), text, parts.1);
}

/// The two recognizers of a grammar accept the same texts of terminals,
/// where both are built by the same solutions of the rules of FIRST and
/// FOLLOW, and the symbol for the empty string stands alone in the
/// productions where it stands at all.
pub proof fn lemma_recognizers_agree(top_down: LL1Parser, bottom_up: SLR1Parser, text: Seq<char>)
    requires
        top_down.wf(),
        bottom_up.wf(),
        bottom_up.grammar_rules() == top_down.rules(),
        is_first_solution(top_down.rules(), top_down.first_view()),
        is_follow_solution(top_down.rules(), top_down.first_view(), top_down.follow_view()),
        action_table_of(bottom_up.rules(), bottom_up.edges(), top_down.follow_view(), bottom_up.states())
            == Some(bottom_up.actions()),
        forall|k: int| 0 <= k < top_down.rules().len() ==> is_proper(#[trigger] top_down.rules()[k]),
        forall|i: int| 0 <= i < text.len() ==> classify(#[trigger] text[i]) is Terminal,
    ensures
        ll1_accepts(top_down.table_view(), text) == slr_accepts(
            bottom_up.rules(),
            bottom_up.actions(),
            bottom_up.gotos(),
            text,
        ),
{
    if ll1_accepts(top_down.table_view(), text) {
        lemma_top_down_within_bottom_up(top_down, bottom_up, text);
    }
    if slr_accepts(bottom_up.rules(), bottom_up.actions(), bottom_up.gotos(), text) {
        lemma_bottom_up_within_top_down(top_down, bottom_up, text);
    }
}

} // verus!

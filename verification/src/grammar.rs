//! Productions and grammars.

use vstd::prelude::*;
use crate::error::GrammarError;
use crate::symbol::{classify, classify_all, glyphs, is_upper, symbols_to_string, Symbol, EPSILON_GLYPH};
use crate::symbol_set::SymbolSet;
use crate::text::{
    after_spaces, alternatives, char_is_space, chars_of, find_arrow, is_space, lemma_word_end,
    parse_count, read_count, skip_spaces, sole_arrow_at, word_end, NumberError,
};

verus! {

/// A production as a mathematical value.
pub struct ProductionSpec {
    pub lhs: Symbol,
    pub rhs: Seq<Symbol>,
}

/// A production: a left-hand side and the symbols it is rewritten to. An
/// empty right-hand side is written as the single symbol for the empty
/// string.
#[derive(Debug, PartialEq, Eq, Hash)]
pub struct Production {
    /// The left-hand side.
    pub lhs: Symbol,
    /// The right-hand side.
    pub rhs: Vec<Symbol>,
}

impl View for Production {
    type V = ProductionSpec;

    open spec fn view(&self) -> ProductionSpec {
        ProductionSpec { lhs: self.lhs, rhs: self.rhs@ }
    }
}

impl Clone for Production {
    /// A copy of the production.
    fn clone(&self) -> (p: Production)
        ensures
            p@ == self@,
    {
        let mut rhs: Vec<Symbol> = Vec::new();
        let mut i: usize = 0;
        while i < self.rhs.len()
            invariant
                i <= self.rhs.len(),
                rhs@ == self.rhs@.take(i as int),
            decreases self.rhs.len() - i,
        {
            rhs.push(self.rhs[i]);
            assert(self.rhs@.take(i as int + 1) =~= self.rhs@.take(i as int).push(self.rhs@[i as int]));
            i += 1;
        }
        assert(self.rhs@.take(i as int) =~= self.rhs@);
        Production { lhs: self.lhs, rhs }
    }
}

/// A copy of a list of productions.
fn clone_productions(productions: &Vec<Production>) -> (copy: Vec<Production>)
    ensures
        rules_view(copy@) == rules_view(productions@),
{
    let mut copy: Vec<Production> = Vec::new();
    let mut i: usize = 0;
    while i < productions.len()
        invariant
            i <= productions.len(),
            copy@.len() == i,
            forall|j: int| 0 <= j < i ==> (#[trigger] copy@[j])@ == productions@[j]@,
        decreases productions.len() - i,
    {
        copy.push(productions[i].clone());
        i += 1;
    }
    assert(rules_view(copy@) =~= rules_view(productions@));
    copy
}

/// The character of the start symbol.
pub const START_CHAR: char = 'S';

/// The character of the augmented start symbol.
pub const AUGMENTED_START_CHAR: char = '\'';

/// The start symbol of every grammar.
pub open spec fn start_symbol() -> Symbol {
    Symbol::Nonterminal(START_CHAR)
}

/// The left-hand side of the production that stands for a whole grammar. No
/// character is classified as this symbol.
pub open spec fn augmented_start() -> Symbol {
    Symbol::Nonterminal(AUGMENTED_START_CHAR)
}

impl ProductionSpec {
    /// Whether the right-hand side is the single symbol for the empty string.
    pub open spec fn is_empty_rule(self) -> bool {
        self.rhs == seq![Symbol::Epsilon]
    }

    /// A production of a grammar: a nonterminal rewritten to at least one
    /// symbol, each the classification of a character.
    pub open spec fn well_formed(self) -> bool {
        &&& self.lhs is Nonterminal
        &&& self.lhs.is_classified()
        &&& self.rhs.len() > 0
        &&& forall|i: int| 0 <= i < self.rhs.len() ==> (#[trigger] self.rhs[i]).is_classified()
    }

    /// The production as text: the left-hand side, an arrow between two
    /// spaces, and the right-hand side.
    pub open spec fn text(self) -> Seq<char> {
        seq![self.lhs.glyph(), ' ', '→', ' '] + if self.is_empty_rule() {
            seq![EPSILON_GLYPH]
        } else {
            glyphs(self.rhs)
        }
    }
}

/// What a production puts in the place of its left-hand side: its right-hand
/// side; nothing where that is the symbol for the empty string.
pub open spec fn body(rule: ProductionSpec) -> Seq<Symbol> {
    if rule.is_empty_rule() {
        Seq::empty()
    } else {
        rule.rhs
    }
}

/// Whether `steps` is a derivation of `word` from `form`, from the left.
/// Each step deals with the first symbol of the form: a step that is no
/// place of a rule takes the symbol for the first symbol of the word; a step
/// that is the place of a rule for the symbol rewrites it by the rule. After
/// the last step nothing is left of the form and of the word.
pub open spec fn is_derivation(
    rules: Seq<ProductionSpec>,
    form: Seq<Symbol>,
    word: Seq<Symbol>,
    steps: Seq<int>,
) -> bool
    decreases steps.len(),
{
    if steps.len() == 0 {
        form.len() == 0 && word.len() == 0
    } else if form.len() == 0 {
        false
    } else if 0 <= steps[0] < rules.len() {
        rules[steps[0]].lhs == form[0] && is_derivation(
            rules,
            body(rules[steps[0]]) + form.skip(1),
            word,
            steps.skip(1),
        )
    } else {
        word.len() > 0 && form[0] == word[0] && is_derivation(rules, form.skip(1), word.skip(1), steps.skip(1))
    }
}

/// Whether `form` derives `word` in at most `most` steps.
pub open spec fn derives_within(
    rules: Seq<ProductionSpec>,
    form: Seq<Symbol>,
    word: Seq<Symbol>,
    most: nat,
) -> bool {
    exists|steps: Seq<int>| steps.len() <= most && #[trigger] is_derivation(rules, form, word, steps)
}

/// Whether `form` derives `word`.
pub open spec fn derives(rules: Seq<ProductionSpec>, form: Seq<Symbol>, word: Seq<Symbol>) -> bool {
    exists|steps: Seq<int>| is_derivation(rules, form, word, steps)
}

/// The empty form derives the empty word only, with no step.
pub proof fn lemma_derivation_of_nothing(rules: Seq<ProductionSpec>, word: Seq<Symbol>, steps: Seq<int>)
    requires
        is_derivation(rules, Seq::empty(), word, steps),
    ensures
        word.len() == 0,
        steps.len() == 0,
{
}

/// Derivations can be joined: what two forms derive one after the other,
/// the two forms derive together.
pub proof fn lemma_derivation_join(
    rules: Seq<ProductionSpec>,
    form1: Seq<Symbol>,
    word1: Seq<Symbol>,
    steps1: Seq<int>,
    form2: Seq<Symbol>,
    word2: Seq<Symbol>,
    steps2: Seq<int>,
)
    requires
        is_derivation(rules, form1, word1, steps1),
        is_derivation(rules, form2, word2, steps2),
    ensures
        is_derivation(rules, form1 + form2, word1 + word2, steps1 + steps2),
    decreases steps1.len(),
{
    if steps1.len() == 0 {
        assert(form1 + form2 =~= form2);
        assert(word1 + word2 =~= word2);
        assert(steps1 + steps2 =~= steps2);
    } else {
        let k = steps1[0];
        assert((steps1 + steps2).skip(1) =~= steps1.skip(1) + steps2);
        assert((steps1 + steps2)[0] == k);
        assert((form1 + form2)[0] == form1[0]);
        assert((form1 + form2).skip(1) =~= form1.skip(1) + form2);
        if 0 <= k < rules.len() {
            let next = body(rules[k]) + form1.skip(1);
            lemma_derivation_join(rules, next, word1, steps1.skip(1), form2, word2, steps2);
            assert(next + form2 =~= body(rules[k]) + (form1 + form2).skip(1));
        } else {
            lemma_derivation_join(rules, form1.skip(1), word1.skip(1), steps1.skip(1), form2, word2, steps2);
            assert((word1 + word2).skip(1) =~= word1.skip(1) + word2);
            assert((word1 + word2)[0] == word1[0]);
        }
    }
}

/// Derivations can be parted: what two forms derive together is what the
/// first derives, followed by what the second derives.
pub proof fn lemma_derivation_part(
    rules: Seq<ProductionSpec>,
    form1: Seq<Symbol>,
    form2: Seq<Symbol>,
    word: Seq<Symbol>,
    steps: Seq<int>,
) -> (parts: (Seq<Symbol>, Seq<int>, Seq<Symbol>, Seq<int>))
    requires
        is_derivation(rules, form1 + form2, word, steps),
    ensures
        word == parts.0 + parts.2,
        is_derivation(rules, form1, parts.0, parts.1),
        is_derivation(rules, form2, parts.2, parts.3),
        steps.len() == parts.1.len() + parts.3.len(),
    decreases steps.len(),
{
    if form1.len() == 0 {
        assert(form1 + form2 =~= form2);
        assert(Seq::<Symbol>::empty() + word =~= word);
        (Seq::empty(), Seq::empty(), word, steps)
    } else {
        let k = steps[0];
        assert((form1 + form2)[0] == form1[0]);
        assert((form1 + form2).skip(1) =~= form1.skip(1) + form2);
        if 0 <= k < rules.len() {
            let next = body(rules[k]) + form1.skip(1);
            assert(next + form2 =~= body(rules[k]) + (form1 + form2).skip(1));
            let rest = lemma_derivation_part(rules, next, form2, word, steps.skip(1));
            let first = seq![k] + rest.1;
            assert(first.skip(1) =~= rest.1);
            (rest.0, first, rest.2, rest.3)
        } else {
            let rest = lemma_derivation_part(rules, form1.skip(1), form2, word.skip(1), steps.skip(1));
            let first = seq![k] + rest.1;
            let begun = seq![word[0]] + rest.0;
            assert(first.skip(1) =~= rest.1);
            assert(begun.skip(1) =~= rest.0);
            assert(word.len() > 0);
            assert(word =~= seq![word[0]] + word.skip(1));
            assert(word.skip(1) == rest.0 + rest.2);
            assert(begun + rest.2 =~= seq![word[0]] + (rest.0 + rest.2));
            assert(word =~= begun + rest.2);
            (begun, first, rest.2, rest.3)
        }
    }
}

/// The text of a list of rules: the text of each rule, in their order, and
/// a line feed after each.
pub open spec fn rules_text(rules: Seq<ProductionSpec>) -> Seq<char>
    decreases rules.len(),
{
    if rules.len() == 0 {
        Seq::empty()
    } else {
        rules_text(rules.drop_last()) + rules.last().text() + seq!['\n']
    }
}

/// The productions of `productions` as mathematical values.
pub open spec fn rules_view(productions: Seq<Production>) -> Seq<ProductionSpec> {
    Seq::new(productions.len(), |i: int| productions[i]@)
}

/// Whether `sym` is the left-hand side of a rule.
pub open spec fn heads_rule(rules: Seq<ProductionSpec>, sym: Symbol) -> bool {
    exists|k: int| 0 <= k < rules.len() && (#[trigger] rules[k]).lhs == sym
}

/// Whether `sym` stands in the right-hand side of a rule.
pub open spec fn occurs_in_rhs(rules: Seq<ProductionSpec>, sym: Symbol) -> bool {
    exists|k: int, i: int|
        0 <= k < rules.len() && 0 <= i < rules[k].rhs.len() && #[trigger] rules[k].rhs[i] == sym
}

/// The nonterminals of a grammar: the left-hand sides and the nonterminals of
/// the right-hand sides.
pub open spec fn nonterminals_of(rules: Seq<ProductionSpec>) -> Set<Symbol> {
    Set::new(|sym: Symbol| heads_rule(rules, sym) || (sym is Nonterminal && occurs_in_rhs(rules, sym)))
}

/// The terminals of a grammar: those of the right-hand sides.
pub open spec fn terminals_of(rules: Seq<ProductionSpec>) -> Set<Symbol> {
    Set::new(|sym: Symbol| sym is Terminal && occurs_in_rhs(rules, sym))
}

/// The rules for `nt`, in their order.
pub open spec fn rules_of(rules: Seq<ProductionSpec>, nt: Symbol) -> Seq<ProductionSpec>
    decreases rules.len(),
{
    if rules.len() == 0 {
        Seq::empty()
    } else {
        let rest = rules_of(rules.drop_last(), nt);
        if rules.last().lhs == nt {
            rest.push(rules.last())
        } else {
            rest
        }
    }
}

/// A symbol that heads no rule has no rules.
pub proof fn lemma_rules_of_none(rules: Seq<ProductionSpec>, nt: Symbol)
    requires
        !heads_rule(rules, nt),
    ensures
        rules_of(rules, nt) == Seq::<ProductionSpec>::empty(),
    decreases rules.len(),
{
    if rules.len() > 0 {
        assert(rules[rules.len() - 1].lhs != nt);
        assert forall|k: int| 0 <= k < rules.drop_last().len() implies (#[trigger] rules.drop_last()[k]).lhs
            != nt by {
            assert(rules[k].lhs != nt);
        }
        lemma_rules_of_none(rules.drop_last(), nt);
    }
}

/// The rules for `nt` are rules, and every rule with that left-hand side is
/// among them.
pub proof fn lemma_rules_of_members(rules: Seq<ProductionSpec>, nt: Symbol)
    ensures
        forall|i: int|
            0 <= i < rules_of(rules, nt).len() ==> rules.contains(#[trigger] rules_of(rules, nt)[i])
                && rules_of(rules, nt)[i].lhs == nt,
        forall|k: int|
            0 <= k < rules.len() && (#[trigger] rules[k]).lhs == nt ==> rules_of(rules, nt).contains(
                rules[k],
            ),
    decreases rules.len(),
{
    if rules.len() > 0 {
        let front = rules.drop_last();
        lemma_rules_of_members(front, nt);
        let sub = rules_of(front, nt);
        let all = rules_of(rules, nt);
        assert forall|i: int| 0 <= i < all.len() implies rules.contains(#[trigger] all[i]) && all[i].lhs
            == nt by {
            if i < sub.len() {
                assert(front.contains(sub[i]));
                let j = choose|j: int| 0 <= j < front.len() && front[j] == sub[i];
                assert(rules[j] == sub[i]);
            } else {
                assert(rules[rules.len() - 1] == all[i]);
            }
        }
        assert forall|k: int| 0 <= k < rules.len() && (#[trigger] rules[k]).lhs == nt implies all.contains(
            rules[k],
        ) by {
            if k < front.len() {
                assert(front[k] == rules[k]);
                assert(sub.contains(front[k]));
                let j = choose|j: int| 0 <= j < sub.len() && sub[j] == front[k];
                assert(all[j] == rules[k]);
            } else {
                assert(all[all.len() - 1] == rules[k]);
            }
        }
    }
}

/// The productions of `lhs` with the right-hand sides `alternatives`.
pub open spec fn rules_with_lhs(lhs: Symbol, alternatives: Seq<Seq<Symbol>>) -> Seq<ProductionSpec> {
    Seq::new(alternatives.len(), |n: int| ProductionSpec { lhs, rhs: alternatives[n] })
}

/// What a production line is refused with where its left-hand side is
/// empty.
pub open spec fn empty_lhs_text() -> Seq<char> {
    "Empty left-hand side"@
}

/// The productions that a line declares; or the text that the line is
/// refused with.
///
/// A line has one arrow. The first character before it that is no white
/// space is the left-hand side, an uppercase letter. After the arrow stand
/// the alternatives, one production each. A line without a left-hand side is
/// refused with a text of its own, any other with the line.
pub open spec fn line_rules(line: Seq<char>) -> Result<Seq<ProductionSpec>, Seq<char>> {
    if exists|p: int| sole_arrow_at(line, p) {
        let p = choose|p: int| sole_arrow_at(line, p);
        let at = skip_spaces(line, 0);
        if at >= p {
            Err(empty_lhs_text())
        } else if !is_upper(line[at]) {
            Err(line)
        } else {
            Ok(rules_with_lhs(classify(line[at]), alternatives(line, p + 2)))
        }
    } else {
        Err(line)
    }
}

/// The productions that the lines 1 to `upto` declare, in their order; or
/// the text that the first line that is refused is refused with.
pub open spec fn text_rules(lines: Seq<Seq<char>>, upto: int) -> Result<Seq<ProductionSpec>, Seq<char>>
    decreases upto,
{
    if upto <= 0 {
        Ok(Seq::empty())
    } else {
        match text_rules(lines, upto - 1) {
            Err(text) => Err(text),
            Ok(rules) => match line_rules(lines[upto]) {
                Err(text) => Err(text),
                Ok(more) => Ok(rules + more),
            },
        }
    }
}

/// The texts of `lines`.
pub open spec fn lines_text(lines: Seq<String>) -> Seq<Seq<char>> {
    Seq::new(lines.len(), |i: int| lines[i]@)
}

/// The text that a first line that is no count is refused with.
pub open spec fn number_error_text(e: NumberError) -> Seq<char> {
    match e {
        NumberError::Empty => "Invalid number: cannot parse integer from empty string"@,
        NumberError::InvalidDigit => "Invalid number: invalid digit found in string"@,
        NumberError::TooLarge => "Invalid number: number too large to fit in target type"@,
    }
}

/// Whether `r` is what reading the grammar of `lines` gives.
///
/// The first line is a count, and at least as many lines follow it. The
/// lines that the count covers declare the productions of the grammar, at
/// least one.
pub open spec fn is_parse_of(lines: Seq<Seq<char>>, r: Result<Grammar, GrammarError>) -> bool {
    if lines.len() == 0 {
        r matches Err(GrammarError::EmptyInput)
    } else {
        match read_count(lines[0]) {
            Err(e) => r matches Err(GrammarError::InvalidFormat(text)) && text@ == number_error_text(e),
            Ok(count) => if lines.len() <= count {
                r matches Err(GrammarError::NotEnoughProductions { expected, actual }) && expected == count
                    && actual == lines.len() - 1
            } else {
                match text_rules(lines, count as int) {
                    Err(refused) => r matches Err(GrammarError::InvalidProduction(text)) && text@ == refused,
                    Ok(rules) => if rules.len() == 0 {
                        r matches Err(GrammarError::EmptyInput)
                    } else {
                        r matches Ok(grammar) && grammar.wf() && grammar.rules() == rules
                    },
                }
            },
        }
    }
}

impl Production {
    /// A production from its two sides.
    pub fn new(lhs: Symbol, rhs: Vec<Symbol>) -> (p: Production)
        ensures
            p.lhs == lhs,
            p.rhs == rhs,
    {
        Production { lhs, rhs }
    }

    /// Whether the right-hand side is the single symbol for the empty string.
    pub fn is_empty_rule(&self) -> (b: bool)
        ensures
            b == self@.is_empty_rule(),
    {
        let b = self.rhs.len() == 1 && self.rhs[0].is_epsilon();
        proof {
            if b {
                assert(self.rhs@ =~= seq![Symbol::Epsilon]);
            } else if self.rhs@.len() == 1 {
                assert(seq![Symbol::Epsilon][0] == Symbol::Epsilon);
            } else {
                assert(seq![Symbol::Epsilon].len() == 1);
            }
        }
        b
    }

    /// Whether the two productions have the same sides.
    pub fn same(&self, other: &Production) -> (b: bool)
        ensures
            b == (self@ == other@),
    {
        if !(self.lhs == other.lhs) || self.rhs.len() != other.rhs.len() {
            return false;
        }
        let mut i: usize = 0;
        while i < self.rhs.len()
            invariant
                i <= self.rhs.len(),
                self.rhs.len() == other.rhs.len(),
                forall|j: int| 0 <= j < i ==> self.rhs@[j] == other.rhs@[j],
            decreases self.rhs.len() - i,
        {
            if !(self.rhs[i] == other.rhs[i]) {
                return false;
            }
            i += 1;
        }
        assert(self.rhs@ =~= other.rhs@);
        true
    }

    /// The production as text.
    pub fn to_string(&self) -> (s: String)
        ensures
            s@ == self@.text(),
    {
        let mut s = String::new();
        s.push(self.lhs.to_char());
        s.push(' ');
        s.push('→');
        s.push(' ');
        assert(s@ =~= seq![self.lhs.glyph(), ' ', '→', ' ']);
        if self.is_empty_rule() {
            s.push(EPSILON_GLYPH);
            assert(s@ =~= self@.text());
        } else {
            let tail = symbols_to_string(self.rhs.as_slice());
            s.append(tail.as_str());
            assert(s@ =~= self@.text());
        }
        s
    }
}

/// A context-free grammar: its productions in the order of their
/// declaration, its symbols, and its start symbol.
#[derive(Debug)]
pub struct Grammar {
    productions: Vec<Production>,
    nonterminals: SymbolSet,
    terminals: SymbolSet,
    start_symbol: Symbol,
    heads: Vec<Symbol>,
    groups: Vec<Vec<Production>>,
    none: Vec<Production>,
}

impl Clone for Grammar {
    /// A copy of the grammar.
    fn clone(&self) -> (g: Grammar)
        ensures
            g.rules() == self.rules(),
            self.wf() ==> g.wf(),
    {
        let productions = clone_productions(&self.productions);
        let mut heads: Vec<Symbol> = Vec::new();
        let mut i: usize = 0;
        while i < self.heads.len()
            invariant
                i <= self.heads.len(),
                heads@ == self.heads@.take(i as int),
            decreases self.heads.len() - i,
        {
            heads.push(self.heads[i]);
            assert(self.heads@.take(i as int + 1) =~= self.heads@.take(i as int).push(self.heads@[i as int]));
            i += 1;
        }
        assert(self.heads@.take(i as int) =~= self.heads@);
        let mut groups: Vec<Vec<Production>> = Vec::new();
        let mut j: usize = 0;
        while j < self.groups.len()
            invariant
                j <= self.groups.len(),
                groups@.len() == j,
                forall|k: int| 0 <= k < j ==> rules_view((#[trigger] groups@[k])@) == rules_view(self.groups@[k]@),
            decreases self.groups.len() - j,
        {
            groups.push(clone_productions(&self.groups[j]));
            j += 1;
        }
        Grammar {
            productions,
            nonterminals: self.nonterminals.clone(),
            terminals: self.terminals.clone(),
            start_symbol: self.start_symbol,
            heads,
            groups,
            none: Vec::new(),
        }
    }
}

/// The text that a first line that is no count is refused with.
fn number_error_message(e: NumberError) -> (text: String)
    ensures
        text@ == number_error_text(e),
{
    match e {
        NumberError::Empty => String::from_str("Invalid number: cannot parse integer from empty string"),
        NumberError::InvalidDigit => String::from_str("Invalid number: invalid digit found in string"),
        NumberError::TooLarge => String::from_str("Invalid number: number too large to fit in target type"),
    }
}

/// Reads the productions of `lhs` whose right-hand sides `s` lists from
/// `from` on.
fn read_alternatives(s: &Vec<char>, from: usize, lhs: Symbol) -> (r: Vec<Production>)
    requires
        from <= s@.len(),
        lhs is Nonterminal,
        lhs.is_classified(),
    ensures
        rules_view(r@) == rules_with_lhs(lhs, alternatives(s@, from as int)),
        forall|n: int| 0 <= n < r@.len() ==> (#[trigger] r@[n])@.well_formed(),
{
    let ghost all = alternatives(s@, from as int);
    let mut r: Vec<Production> = Vec::new();
    let mut at: usize = from;
    while at < s.len()
        invariant
            from <= at <= s@.len(),
            lhs is Nonterminal,
            lhs.is_classified(),
            all == alternatives(s@, from as int),
            r@.len() + alternatives(s@, at as int).len() == all.len(),
            forall|n: int| 0 <= n < r@.len() ==> (#[trigger] r@[n])@ == (ProductionSpec { lhs, rhs: all[n] }),
            forall|n: int|
                0 <= n < alternatives(s@, at as int).len() ==> #[trigger] alternatives(s@, at as int)[n]
                    == all[r@.len() + n],
            forall|n: int| 0 <= n < r@.len() ==> (#[trigger] r@[n])@.well_formed(),
        decreases s.len() - at,
    {
        if char_is_space(s[at]) {
            at += 1;
        } else {
            let start = at;
            let mut word: Vec<Symbol> = Vec::new();
            proof {
                assert(s@.subrange(start as int, at as int) =~= Seq::<char>::empty());
                assert(word@ =~= classify_all(s@.subrange(start as int, at as int)));
            }
            while at < s.len() && !char_is_space(s[at])
                invariant
                    start <= at <= s@.len(),
                    start < s@.len(),
                    !is_space(s@[start as int]),
                    word_end(s@, start as int) == word_end(s@, at as int),
                    word@ == classify_all(s@.subrange(start as int, at as int)),
                    word@.len() == at - start,
                    forall|i: int| 0 <= i < word@.len() ==> (#[trigger] word@[i]).is_classified(),
                decreases s.len() - at,
            {
                word.push(Symbol::from_char(s[at]));
                proof {
                    assert(s@.subrange(start as int, at as int + 1) =~= s@.subrange(
                        start as int,
                        at as int,
                    ).push(s@[at as int]));
                    assert(classify_all(s@.subrange(start as int, at as int + 1)) =~= classify_all(
                        s@.subrange(start as int, at as int),
                    ).push(classify(s@[at as int])));
                }
                at += 1;
            }
            proof {
                lemma_word_end(s@, start as int);
                let rest = alternatives(s@, start as int);
                assert(rest == seq![word@] + alternatives(s@, at as int));
                assert(rest[0] == word@);
                assert(word@ == all[r@.len() as int]);
                assert forall|n: int| 0 <= n < alternatives(s@, at as int).len() implies #[trigger] alternatives(
                    s@,
                    at as int,
                )[n] == all[r@.len() + 1 + n] by {
                    assert(rest[n + 1] == alternatives(s@, at as int)[n]);
                }
            }
            r.push(Production::new(lhs, word));
        }
    }
    proof {
        assert(rules_view(r@) =~= rules_with_lhs(lhs, all));
    }
    r
}

impl Grammar {
    /// Reads the grammar of `lines`: a count, then as many lines that each
    /// declare the productions of one nonterminal, as the nonterminal, an
    /// arrow, and the alternatives between white space.
    pub fn parse(lines: &[String]) -> (r: Result<Grammar, GrammarError>)
        ensures
            is_parse_of(lines_text(lines@), r),
    {
        let ghost texts = lines_text(lines@);
        if lines.len() == 0 {
            return Err(GrammarError::EmptyInput);
        }
        let head = chars_of(lines[0].as_str());
        proof {
            assert(texts[0] == lines@[0]@);
        }
        let count = match parse_count(&head) {
            Ok(count) => count,
            Err(e) => {
                return Err(GrammarError::InvalidFormat(number_error_message(e)));
            },
        };
        if lines.len() - 1 < count {
            return Err(GrammarError::NotEnoughProductions { expected: count, actual: lines.len() - 1 });
        }
        let mut all: Vec<Production> = Vec::new();
        let mut i: usize = 1;
        proof {
            assert(rules_view(all@) =~= Seq::<ProductionSpec>::empty());
        }
        while i <= count
            invariant
                1 <= i <= count + 1,
                count < lines@.len(),
                texts == lines_text(lines@),
                read_count(texts[0]) == Ok::<nat, NumberError>(count as nat),
                text_rules(texts, i - 1) == Ok::<Seq<ProductionSpec>, Seq<char>>(rules_view(all@)),
                forall|k: int| 0 <= k < all@.len() ==> (#[trigger] all@[k])@.well_formed(),
            decreases count + 1 - i,
        {
            let ghost before = all@;
            proof {
                assert(texts[i as int] == lines@[i as int]@);
            }
            match Self::parse_production_line(lines[i].as_str()) {
                Err(e) => {
                    proof {
                        lemma_text_rules_refused(texts, i as int, count as int);
                    }
                    return Err(e);
                },
                Ok(mut more) => {
                    let ghost added = more@;
                    all.append(&mut more);
                    proof {
                        assert(all@ == before + added);
                        assert(rules_view(all@) =~= rules_view(before) + rules_view(added));
                    }
                },
            }
            i += 1;
        }
        Self::from_productions(all)
    }

    /// Reads the productions that one line declares.
    pub(crate) fn parse_production_line(line: &str) -> (r: Result<Vec<Production>, GrammarError>)
        ensures
            match r {
                Ok(productions) => line_rules(line@) == Ok::<Seq<ProductionSpec>, Seq<char>>(
                    rules_view(productions@),
                ) && forall|k: int| 0 <= k < productions@.len() ==> (#[trigger] productions@[k])@.well_formed(),
                Err(e) => e matches GrammarError::InvalidProduction(text) && line_rules(line@) == Err::<
                    Seq<ProductionSpec>,
                    Seq<char>,
                >(text@),
            },
    {
        let chars = chars_of(line);
        let arrow = match find_arrow(&chars) {
            Some(arrow) => arrow,
            None => {
                return Err(GrammarError::InvalidProduction(line.to_owned()));
            },
        };
        proof {
            let p = choose|p: int| sole_arrow_at(line@, p);
            assert(sole_arrow_at(line@, arrow as int));
            assert(p == arrow);
        }
        let at = after_spaces(&chars, 0);
        if at >= arrow {
            return Err(GrammarError::InvalidProduction(String::from_str("Empty left-hand side")));
        }
        let c = chars[at];
        if !('A' <= c && c <= 'Z') {
            return Err(GrammarError::InvalidProduction(line.to_owned()));
        }
        let lhs = Symbol::from_char(c);
        Ok(read_alternatives(&chars, arrow + 2, lhs))
    }

    /// The productions in the order of their declaration.
    pub closed spec fn rules(&self) -> Seq<ProductionSpec> {
        rules_view(self.productions@)
    }

    /// What the grammar keeps beside its productions agrees with them.
    pub closed spec fn index_wf(&self) -> bool {
        &&& self.nonterminals.wf()
        &&& self.terminals.wf()
        &&& self.nonterminals@ == nonterminals_of(self.rules())
        &&& self.terminals@ == terminals_of(self.rules())
        &&& self.start_symbol == start_symbol()
        &&& self.heads@.no_duplicates()
        &&& self.heads@.len() == self.groups@.len()
        &&& forall|j: int|
            0 <= j < self.heads@.len() ==> rules_view(#[trigger] self.groups@[j]@) == rules_of(
                self.rules(),
                self.heads@[j],
            )
        &&& forall|k: int| 0 <= k < self.rules().len() ==> self.heads@.contains((#[trigger] self.rules()[k]).lhs)
        &&& self.none@.len() == 0
    }

    /// A grammar has a production, and each of its productions rewrites a
    /// nonterminal to at least one symbol.
    pub open spec fn wf(&self) -> bool {
        &&& self.rules().len() > 0
        &&& forall|k: int| 0 <= k < self.rules().len() ==> (#[trigger] self.rules()[k]).well_formed()
        &&& self.index_wf()
    }

    /// A grammar has finitely many symbols.
    pub proof fn lemma_finite_symbols(&self)
        requires
            self.wf(),
        ensures
            terminals_of(self.rules()).finite(),
            nonterminals_of(self.rules()).finite(),
    {
        self.terminals.lemma_members();
        self.nonterminals.lemma_members();
    }

    /// The grammar of `productions`.
    pub(crate) fn from_productions(productions: Vec<Production>) -> (r: Result<Grammar, GrammarError>)
        requires
            forall|k: int| 0 <= k < productions@.len() ==> (#[trigger] productions@[k])@.well_formed(),
        ensures
            match r {
                Ok(g) => productions@.len() > 0 && g.wf() && g.rules() == rules_view(productions@),
                Err(e) => productions@.len() == 0 && e is EmptyInput,
            },
    {
        if productions.len() == 0 {
            return Err(GrammarError::EmptyInput);
        }
        let ghost rules = rules_view(productions@);
        let mut nonterminals = SymbolSet::new();
        let mut terminals = SymbolSet::new();
        let mut heads: Vec<Symbol> = Vec::new();
        let mut groups: Vec<Vec<Production>> = Vec::new();
        let mut k: usize = 0;
        while k < productions.len()
            invariant
                k <= productions.len(),
                rules == rules_view(productions@),
                nonterminals.wf(),
                terminals.wf(),
                nonterminals@ == nonterminals_of(rules.take(k as int)),
                terminals@ == terminals_of(rules.take(k as int)),
                heads@.no_duplicates(),
                heads@.len() == groups@.len(),
                forall|j: int|
                    0 <= j < heads@.len() ==> rules_view(#[trigger] groups@[j]@) == rules_of(
                        rules.take(k as int),
                        heads@[j],
                    ),
                forall|i: int| 0 <= i < k ==> heads@.contains((#[trigger] rules[i]).lhs),
            decreases productions.len() - k,
        {
            let production = &productions[k];
            let ghost before = rules.take(k as int);
            let ghost after = rules.take(k as int + 1);
            let ghost rule = rules[k as int];
            proof {
                assert(after =~= before.push(rule));
                assert(after.drop_last() =~= before);
                assert(rule == production@);
            }
            nonterminals.insert(production.lhs);
            let ghost nts_head = nonterminals@;
            let mut i: usize = 0;
            while i < production.rhs.len()
                invariant
                    i <= production.rhs.len(),
                    nonterminals.wf(),
                    terminals.wf(),
                    rule == production@,
                    nonterminals@ == nts_head.union(
                        Set::new(
                            |sym: Symbol|
                                sym is Nonterminal && rule.rhs.take(i as int).contains(sym),
                        ),
                    ),
                    terminals@ == terminals_of(before).union(
                        Set::new(
                            |sym: Symbol| sym is Terminal && rule.rhs.take(i as int).contains(sym),
                        ),
                    ),
                decreases production.rhs.len() - i,
            {
                let sym = production.rhs[i];
                let ghost old_nts = nonterminals@;
                let ghost old_ts = terminals@;
                if sym.is_nonterminal() {
                    nonterminals.insert(sym);
                } else if sym.is_terminal() {
                    terminals.insert(sym);
                }
                proof {
                    assert(rule.rhs.take(i as int + 1) =~= rule.rhs.take(i as int).push(sym));
                    let prev = rule.rhs.take(i as int);
                    let next = rule.rhs.take(i as int + 1);
                    assert forall|s: Symbol| next.contains(s) <==> (prev.contains(s) || s == sym) by {
                        if next.contains(s) {
                            let j = choose|j: int| 0 <= j < next.len() && next[j] == s;
                            if j < prev.len() {
                                assert(prev[j] == s);
                            }
                        }
                        if prev.contains(s) {
                            let j = choose|j: int| 0 <= j < prev.len() && prev[j] == s;
                            assert(next[j] == s);
                        }
                        if s == sym {
                            assert(next[i as int] == s);
                        }
                    }
                    assert(nonterminals@ =~= nts_head.union(
                        Set::new(|s: Symbol| s is Nonterminal && next.contains(s)),
                    ));
                    assert(terminals@ =~= terminals_of(before).union(
                        Set::new(|s: Symbol| s is Terminal && next.contains(s)),
                    ));
                }
                i += 1;
            }
            proof {
                assert(rule.rhs.take(i as int) =~= rule.rhs);
                lemma_symbols_push(before, rule);
                assert(nonterminals@ =~= nonterminals_of(after));
                assert(terminals@ =~= terminals_of(after));
            }
            let mut at: usize = 0;
            while at < heads.len() && !(heads[at] == production.lhs)
                invariant
                    at <= heads.len(),
                    forall|j: int| 0 <= j < at ==> heads@[j] != production.lhs,
                decreases heads.len() - at,
            {
                at += 1;
            }
            let ghost old_heads = heads@;
            let ghost old_groups = groups@;
            if at == heads.len() {
                heads.push(production.lhs);
                groups.push(Vec::new());
                proof {
                    assert(!heads_rule(before, production.lhs)) by {
                        if heads_rule(before, production.lhs) {
                            let i = choose|i: int| 0 <= i < before.len() && (#[trigger] before[i]).lhs
                                == production.lhs;
                            assert(rules[i].lhs == production.lhs);
                            assert(old_heads.contains(rules[i].lhs));
                        }
                    }
                    lemma_rules_of_none(before, production.lhs);
                    assert(rules_view(groups@[at as int]@) =~= rules_of(before, production.lhs));
                    assert forall|j: int| 0 <= j < heads@.len() implies rules_view(
                        #[trigger] groups@[j]@,
                    ) == rules_of(before, heads@[j]) by {
                        if j < old_heads.len() {
                            assert(groups@[j] == old_groups[j]);
                        }
                    }
                }
            }
            let ghost mid_groups = groups@;
            let copy = production.clone();
            groups[at].push(copy);
            proof {
                assert(groups@ =~= mid_groups.update(at as int, groups@[at as int]));
                assert(heads@[at as int] == production.lhs);
                assert forall|j: int| 0 <= j < heads@.len() implies rules_view(#[trigger] groups@[j]@)
                    == rules_of(after, heads@[j]) by {
                    if j == at {
                        assert(rules_view(groups@[j]@) =~= rules_view(mid_groups[j]@).push(rule));
                    } else {
                        assert(groups@[j] == mid_groups[j]);
                        assert(heads@[j] != heads@[at as int]);
                    }
                }
                assert forall|i: int| 0 <= i < k + 1 implies heads@.contains((#[trigger] rules[i]).lhs) by {
                    if i < k {
                        assert(old_heads.contains(rules[i].lhs));
                        let j = choose|j: int| 0 <= j < old_heads.len() && old_heads[j] == rules[i].lhs;
                        assert(heads@[j] == rules[i].lhs);
                    } else {
                        assert(heads@[at as int] == rules[i].lhs);
                    }
                }
            }
            k += 1;
        }
        proof {
            assert(rules.take(k as int) =~= rules);
        }
        let g = Grammar {
            productions,
            nonterminals,
            terminals,
            start_symbol: Symbol::Nonterminal(START_CHAR),
            heads,
            groups,
            none: Vec::new(),
        };
        Ok(g)
    }

    /// The productions for `nt`, in the order of their declaration; none
    /// where `nt` has no production.
    pub fn get_productions(&self, nt: Symbol) -> (r: &[Production])
        requires
            self.wf(),
        ensures
            rules_view(r@) == rules_of(self.rules(), nt),
    {
        let mut at: usize = 0;
        while at < self.heads.len()
            invariant
                self.wf(),
                at <= self.heads.len(),
                forall|j: int| 0 <= j < at ==> self.heads@[j] != nt,
            decreases self.heads.len() - at,
        {
            if self.heads[at] == nt {
                return self.groups[at].as_slice();
            }
            at += 1;
        }
        proof {
            if heads_rule(self.rules(), nt) {
                let k = choose|k: int| 0 <= k < self.rules().len() && (#[trigger] self.rules()[k]).lhs == nt;
                assert(self.heads@.contains(self.rules()[k].lhs));
            }
            lemma_rules_of_none(self.rules(), nt);
            assert(rules_view(self.none@) =~= Seq::<ProductionSpec>::empty());
        }
        self.none.as_slice()
    }

    /// The grammar as text: one line for each production, in the order of
    /// their declaration.
    pub fn to_string(&self) -> (s: String)
        ensures
            s@ == rules_text(self.rules()),
    {
        let mut s = String::new();
        let mut k: usize = 0;
        while k < self.productions.len()
            invariant
                k <= self.productions.len(),
                s@ == rules_text(self.rules().take(k as int)),
            decreases self.productions.len() - k,
        {
            let line = self.productions[k].to_string();
            s.append(line.as_str());
            s.push('\n');
            proof {
                let done = self.rules().take(k as int + 1);
                assert(done.drop_last() =~= self.rules().take(k as int));
                assert(done.last() == self.productions@[k as int]@);
                assert(s@ =~= rules_text(done));
            }
            k += 1;
        }
        proof {
            assert(self.rules().take(k as int) =~= self.rules());
        }
        s
    }

    /// All productions, in the order of their declaration.
    pub fn all_productions(&self) -> (r: &[Production])
        ensures
            rules_view(r@) == self.rules(),
    {
        self.productions.as_slice()
    }

    /// The nonterminals: the left-hand sides, and the nonterminals of the
    /// right-hand sides.
    pub fn nonterminals(&self) -> (r: &SymbolSet)
        requires
            self.wf(),
        ensures
            r.wf(),
            r@ == nonterminals_of(self.rules()),
    {
        &self.nonterminals
    }

    /// The terminals: those of the right-hand sides.
    pub fn terminals(&self) -> (r: &SymbolSet)
        requires
            self.wf(),
        ensures
            r.wf(),
            r@ == terminals_of(self.rules()),
    {
        &self.terminals
    }

    /// The start symbol.
    pub fn start_symbol(&self) -> (sym: Symbol)
        requires
            self.wf(),
        ensures
            sym == start_symbol(),
    {
        self.start_symbol
    }
}

/// Where line `i` is refused, the lines up to any later one are refused with
/// the same text.
proof fn lemma_text_rules_refused(lines: Seq<Seq<char>>, i: int, upto: int)
    requires
        1 <= i <= upto,
        text_rules(lines, i - 1) is Ok,
        line_rules(lines[i]) is Err,
    ensures
        text_rules(lines, upto) == Err::<Seq<ProductionSpec>, Seq<char>>(line_rules(lines[i])->Err_0),
    decreases upto - i,
{
    if upto > i {
        lemma_text_rules_refused(lines, i, upto - 1);
    }
}

/// The symbols of a list of rules with one more rule are those of the list
/// and those of the rule.
proof fn lemma_symbols_push(rules: Seq<ProductionSpec>, rule: ProductionSpec)
    ensures
        nonterminals_of(rules.push(rule)) == nonterminals_of(rules).insert(rule.lhs).union(
            Set::new(|sym: Symbol| sym is Nonterminal && rule.rhs.contains(sym)),
        ),
        terminals_of(rules.push(rule)) == terminals_of(rules).union(
            Set::new(|sym: Symbol| sym is Terminal && rule.rhs.contains(sym)),
        ),
{
    let more = rules.push(rule);
    assert forall|sym: Symbol| heads_rule(more, sym) <==> (heads_rule(rules, sym) || sym == rule.lhs) by {
        if heads_rule(more, sym) {
            let k = choose|k: int| 0 <= k < more.len() && (#[trigger] more[k]).lhs == sym;
            if k < rules.len() {
                assert(rules[k].lhs == sym);
            }
        }
        if heads_rule(rules, sym) {
            let k = choose|k: int| 0 <= k < rules.len() && (#[trigger] rules[k]).lhs == sym;
            assert(more[k].lhs == sym);
        }
        if sym == rule.lhs {
            assert(more[rules.len() as int].lhs == sym);
        }
    }
    assert forall|sym: Symbol| occurs_in_rhs(more, sym) <==> (occurs_in_rhs(rules, sym)
        || rule.rhs.contains(sym)) by {
        if occurs_in_rhs(more, sym) {
            let (k, i) = choose|k: int, i: int|
                0 <= k < more.len() && 0 <= i < more[k].rhs.len() && #[trigger] more[k].rhs[i] == sym;
            if k < rules.len() {
                assert(rules[k].rhs[i] == sym);
            } else {
                assert(rule.rhs[i] == sym);
            }
        }
        if occurs_in_rhs(rules, sym) {
            let (k, i) = choose|k: int, i: int|
                0 <= k < rules.len() && 0 <= i < rules[k].rhs.len() && #[trigger] rules[k].rhs[i] == sym;
            assert(more[k].rhs[i] == sym);
        }
        if rule.rhs.contains(sym) {
            let i = choose|i: int| 0 <= i < rule.rhs.len() && rule.rhs[i] == sym;
            assert(more[rules.len() as int].rhs[i] == sym);
        }
    }
    assert(nonterminals_of(more) =~= nonterminals_of(rules).insert(rule.lhs).union(
        Set::new(|sym: Symbol| sym is Nonterminal && rule.rhs.contains(sym)),
    ));
    assert(terminals_of(more) =~= terminals_of(rules).union(
        Set::new(|sym: Symbol| sym is Terminal && rule.rhs.contains(sym)),
    ));
}

} // verus!

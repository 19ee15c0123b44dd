//! The LL(1) predictive table and its recognizer.

use vstd::prelude::*;
use crate::error::GrammarError;
use crate::first_follow::{
    begins_at, first_domain, first_of_seq, first_of_string, is_first_solution, is_follow_solution, FirstSets,
    FollowSets, Sets,
};
use crate::grammar::{
    body, derives, derives_within, heads_rule, is_derivation, rules_view, start_symbol, Grammar, Production,
    ProductionSpec,
};
use crate::ll1_language::{follow_ok, is_plain, lemma_derivation_runs, rest_follows};
use crate::symbol::{classify, classify_all, string_to_symbols, Symbol};
use crate::symbol_set::{lookup, SymbolSet};

verus! {

/// A table from pairs of a nonterminal and a lookahead symbol to productions,
/// as a mathematical value.
pub type TableSpec = Map<(Symbol, Symbol), ProductionSpec>;

/// The lookahead symbols on which an LL(1) recognizer chooses `rule`: FIRST of
/// its right-hand side without the empty string, and, where that holds the
/// empty string, FOLLOW of its left-hand side.
pub open spec fn select_set(first: Sets, follow: Sets, rule: ProductionSpec) -> Set<Symbol> {
    let begin = first_of_seq(first, rule.rhs);
    begin.remove(Symbol::Epsilon).union(
        if begin.contains(Symbol::Epsilon) {
            lookup(follow, rule.lhs)
        } else {
            Set::empty()
        },
    )
}

/// Whether rule `k` claims the cell of nonterminal `a` and lookahead `t`.
pub open spec fn claims(
    rules: Seq<ProductionSpec>,
    first: Sets,
    follow: Sets,
    k: int,
    a: Symbol,
    t: Symbol,
) -> bool {
    0 <= k < rules.len() && rules[k].lhs == a && select_set(first, follow, rules[k]).contains(t)
}

/// Whether rules `i` and `j`, `i` the earlier, are different productions that
/// claim one cell, that of lookahead `t`.
pub open spec fn ll1_conflict(
    rules: Seq<ProductionSpec>,
    first: Sets,
    follow: Sets,
    i: int,
    j: int,
    t: Symbol,
) -> bool {
    &&& i < j
    &&& claims(rules, first, follow, i, rules[j].lhs, t)
    &&& claims(rules, first, follow, j, rules[j].lhs, t)
    &&& rules[i] != rules[j]
}

/// Whether no two different productions claim one cell.
pub open spec fn is_ll1(rules: Seq<ProductionSpec>, first: Sets, follow: Sets) -> bool {
    forall|i: int, j: int, t: Symbol| !#[trigger] ll1_conflict(rules, first, follow, i, j, t)
}

/// The LL(1) table: each cell that a rule claims holds that rule.
pub open spec fn ll1_table(rules: Seq<ProductionSpec>, first: Sets, follow: Sets) -> TableSpec {
    Map::new(
        |key: (Symbol, Symbol)| exists|k: int| claims(rules, first, follow, k, key.0, key.1),
        |key: (Symbol, Symbol)| rules[choose|k: int| claims(rules, first, follow, k, key.0, key.1)],
    )
}

/// Whether `e` reports the conflict of rules `i` and `j` on lookahead `t`,
/// where `j` is the first rule in conflict with an earlier one and `i` the
/// first rule to claim the cell.
pub open spec fn ll1_report(
    rules: Seq<ProductionSpec>,
    first: Sets,
    follow: Sets,
    i: int,
    j: int,
    t: Symbol,
    e: GrammarError,
) -> bool {
    &&& ll1_conflict(rules, first, follow, i, j, t)
    &&& forall|a: int| 0 <= a < i ==> !#[trigger] claims(rules, first, follow, a, rules[j].lhs, t)
    &&& forall|a: int, b: int, u: Symbol| b < j ==> !#[trigger] ll1_conflict(rules, first, follow, a, b, u)
    &&& e matches GrammarError::LL1Conflict { nonterminal, terminal, prod1, prod2 }
    &&& nonterminal@ == seq![rules[j].lhs.glyph()]
    &&& terminal@ == seq![t.glyph()]
    &&& prod1@ == rules[i].text()
    &&& prod2@ == rules[j].text()
}

/// The most steps that a recognizer takes on one input. A run that would take
/// more is rejected.
pub const STEP_LIMIT: u64 = 0xffff_ffff_ffff_ffff;

/// What replaces a nonterminal on the stack: the right-hand side, its first
/// symbol on top; nothing for the empty string.
pub open spec fn expansion(rule: ProductionSpec) -> Seq<Symbol> {
    body(rule).reverse()
}

/// The run of the LL(1) stack machine from `stack`, whose top is its last
/// symbol, at position `pos` of `input`, within `fuel` steps. The run ends
/// when the stack is empty or the input is used up, and accepts where both
/// hold. A step pops a top that equals the symbol at `pos` and moves on; or
/// replaces a nonterminal on top by the table's rule for it and that symbol;
/// the run rejects where neither can be done.
pub open spec fn ll1_run(
    table: TableSpec,
    stack: Seq<Symbol>,
    input: Seq<Symbol>,
    pos: int,
    fuel: nat,
) -> bool
    decreases fuel,
{
    if stack.len() == 0 || pos >= input.len() {
        stack.len() == 0 && pos == input.len()
    } else if fuel == 0 {
        false
    } else {
        let top = stack.last();
        let cur = input[pos];
        if top == cur {
            ll1_run(table, stack.drop_last(), input, pos + 1, (fuel - 1) as nat)
        } else if top is Nonterminal && table.contains_key((top, cur)) {
            ll1_run(
                table,
                stack.drop_last() + expansion(table[(top, cur)]),
                input,
                pos,
                (fuel - 1) as nat,
            )
        } else {
            false
        }
    }
}

/// A run that accepts within some number of steps accepts within any greater
/// number.
pub proof fn lemma_ll1_run_more_fuel(
    table: TableSpec,
    stack: Seq<Symbol>,
    input: Seq<Symbol>,
    pos: int,
    fuel: nat,
    more: nat,
)
    requires
        ll1_run(table, stack, input, pos, fuel),
        fuel <= more,
    ensures
        ll1_run(table, stack, input, pos, more),
    decreases fuel,
{
    if stack.len() == 0 || pos >= input.len() {
    } else {
        let top = stack.last();
        let cur = input[pos];
        if top == cur {
            lemma_ll1_run_more_fuel(table, stack.drop_last(), input, pos + 1, (fuel - 1) as nat, (more - 1) as nat);
        } else {
            lemma_ll1_run_more_fuel(
                table,
                stack.drop_last() + expansion(table[(top, cur)]),
                input,
                pos,
                (fuel - 1) as nat,
                (more - 1) as nat,
            );
        }
    }
}

/// Whether each cell of `table` holds a production of `rules` for the
/// nonterminal of the cell.
pub open spec fn holds_rules(table: TableSpec, rules: Seq<ProductionSpec>) -> bool {
    forall|key: (Symbol, Symbol)| #[trigger]
        table.contains_key(key) ==> rules.contains(table[key]) && table[key].lhs == key.0
}

/// The steps of a run: for each step of the machine that takes a symbol of
/// the input, a step that is no place of a rule; for each step that replaces
/// a nonterminal, the place of the rule.
pub open spec fn ll1_steps(
    rules: Seq<ProductionSpec>,
    table: TableSpec,
    stack: Seq<Symbol>,
    input: Seq<Symbol>,
    pos: int,
    fuel: nat,
) -> Seq<int>
    decreases fuel,
{
    if stack.len() == 0 || pos >= input.len() || fuel == 0 {
        Seq::empty()
    } else if stack.last() == input[pos] {
        seq![-1int] + ll1_steps(rules, table, stack.drop_last(), input, pos + 1, (fuel - 1) as nat)
    } else {
        let rule = table[(stack.last(), input[pos])];
        seq![rules.index_of(rule)] + ll1_steps(
            rules,
            table,
            stack.drop_last() + expansion(rule),
            input,
            pos,
            (fuel - 1) as nat,
        )
    }
}

/// Where a run accepts, its steps are a derivation of the rest of the input
/// from the stack, read from its top.
pub proof fn lemma_ll1_run_derives(
    rules: Seq<ProductionSpec>,
    table: TableSpec,
    stack: Seq<Symbol>,
    input: Seq<Symbol>,
    pos: int,
    fuel: nat,
)
    requires
        holds_rules(table, rules),
        0 <= pos,
        ll1_run(table, stack, input, pos, fuel),
    ensures
        is_derivation(rules, stack.reverse(), input.skip(pos), ll1_steps(rules, table, stack, input, pos, fuel)),
        ll1_steps(rules, table, stack, input, pos, fuel).len() <= fuel,
    decreases fuel,
{
    let form = stack.reverse();
    let word = input.skip(pos);
    let steps = ll1_steps(rules, table, stack, input, pos, fuel);
    if stack.len() == 0 || pos >= input.len() {
    } else {
        let top = stack.last();
        let cur = input[pos];
        let below = stack.drop_last();
        assert(form[0] == top);
        assert(word[0] == cur);
        assert(form.skip(1) =~= below.reverse());
        if top == cur {
            lemma_ll1_run_derives(rules, table, below, input, pos + 1, (fuel - 1) as nat);
            assert(word.skip(1) =~= input.skip(pos + 1));
            assert(steps.skip(1) =~= ll1_steps(rules, table, below, input, pos + 1, (fuel - 1) as nat));
        } else {
            let rule = table[(top, cur)];
            assert(table.contains_key((top, cur)));
            lemma_ll1_run_derives(rules, table, below + expansion(rule), input, pos, (fuel - 1) as nat);
            assert((below + expansion(rule)).reverse() =~= body(rule) + below.reverse());
            let k = rules.index_of(rule);
            assert(rules.contains(rule));
            assert(0 <= k < rules.len() && rules[k] == rule);
            assert(steps.skip(1) =~= ll1_steps(
                rules,
                table,
                below + expansion(rule),
                input,
                pos,
                (fuel - 1) as nat,
            ));
        }
    }
}

/// Whether the LL(1) machine of `table` accepts `text`: the run from the
/// start symbol over the end marker, on the symbols of `text` and the end
/// marker after them.
pub open spec fn ll1_accepts(table: TableSpec, text: Seq<char>) -> bool {
    ll1_run(
        table,
        seq![Symbol::EndMarker, start_symbol()],
        classify_all(text).push(Symbol::EndMarker),
        0,
        STEP_LIMIT as nat,
    )
}

/// An LL(1) table: at most one production for each pair of a nonterminal and
/// a lookahead symbol.
#[derive(Debug, Clone)]
pub struct LL1Table {
    keys: Vec<(Symbol, Symbol)>,
    productions: Vec<Production>,
}

impl View for LL1Table {
    type V = TableSpec;

    closed spec fn view(&self) -> TableSpec {
        Map::new(
            |key: (Symbol, Symbol)| self.keys@.contains(key),
            |key: (Symbol, Symbol)| self.productions@[self.keys@.index_of(key)]@,
        )
    }
}

impl LL1Table {
    /// Each cell is stored once.
    pub closed spec fn wf(self) -> bool {
        &&& self.keys@.no_duplicates()
        &&& self.keys@.len() == self.productions@.len()
    }

    /// An empty table.
    pub fn new() -> (table: LL1Table)
        ensures
            table.wf(),
            table@ == TableSpec::empty(),
    {
        let table = LL1Table { keys: Vec::new(), productions: Vec::new() };
        assert(table@ =~= TableSpec::empty());
        table
    }

    /// The position of the cell `key`.
    fn position(&self, key: &(Symbol, Symbol)) -> (r: Option<usize>)
        requires
            self.wf(),
        ensures
            match r {
                Some(i) => i < self.keys@.len() && self.keys@[i as int] == *key && self.keys@.index_of(
                    *key,
                ) == i && self@.contains_key(*key),
                None => !self@.contains_key(*key),
            },
    {
        let mut i: usize = 0;
        while i < self.keys.len()
            invariant
                self.wf(),
                i <= self.keys.len(),
                forall|j: int| 0 <= j < i ==> self.keys@[j] != *key,
            decreases self.keys.len() - i,
        {
            if self.keys[i].0 == key.0 && self.keys[i].1 == key.1 {
                proof {
                    assert(self.keys@[i as int] == *key);
                    assert(self.keys@.contains(*key));
                    let j = self.keys@.index_of(*key);
                    assert(self.keys@[j] == *key);
                }
                return Some(i);
            }
            i += 1;
        }
        None
    }

    /// The production of the cell `key`, if it holds one.
    pub fn get(&self, key: &(Symbol, Symbol)) -> (r: Option<&Production>)
        requires
            self.wf(),
        ensures
            match r {
                Some(production) => self@.contains_key(*key) && production@ == self@[*key],
                None => !self@.contains_key(*key),
            },
    {
        match self.position(key) {
            Some(i) => Some(&self.productions[i]),
            None => None,
        }
    }

    /// Whether the cell `key` holds a production.
    pub fn contains_key(&self, key: &(Symbol, Symbol)) -> (b: bool)
        requires
            self.wf(),
        ensures
            b == self@.contains_key(*key),
    {
        self.position(key).is_some()
    }

    /// The number of cells that hold a production.
    pub fn len(&self) -> (n: usize)
        requires
            self.wf(),
        ensures
            n == self@.dom().len(),
            self@.dom().finite(),
    {
        proof {
            self.keys@.unique_seq_to_set();
            vstd::seq_lib::seq_to_set_is_finite(self.keys@);
            assert(self@.dom() =~= self.keys@.to_set());
        }
        self.keys.len()
    }

    /// Fills the empty cell `key`.
    fn fill(&mut self, key: (Symbol, Symbol), production: Production)
        requires
            old(self).wf(),
            !old(self)@.contains_key(key),
        ensures
            final(self).wf(),
            final(self)@ == old(self)@.insert(key, production@),
    {
        self.keys.push(key);
        self.productions.push(production);
        proof {
            assert forall|k: (Symbol, Symbol)| old(self).keys@.contains(k) implies self.keys@.index_of(k)
                == old(self).keys@.index_of(k) && self.keys@.contains(k) by {
                let j = old(self).keys@.index_of(k);
                assert(self.keys@[j] == k);
                let j2 = self.keys@.index_of(k);
                assert(self.keys@[j2] == k);
            }
            assert(self.keys@[self.keys@.len() - 1] == key);
            assert(self.keys@.contains(key));
            assert(self.keys@.index_of(key) == self.keys@.len() - 1) by {
                let j2 = self.keys@.index_of(key);
                assert(self.keys@[j2] == key);
            }
            assert forall|k: (Symbol, Symbol)| self.keys@.contains(k) implies old(self).keys@.contains(k)
                || k == key by {
                let j = self.keys@.index_of(k);
                if j < old(self).keys@.len() {
                    assert(old(self).keys@[j] == k);
                }
            }
            assert(self@ =~= old(self)@.insert(key, production@));
        }
    }
}

/// What building the table has reached when the first `done` members of
/// `pending` have been recorded for rule `k`, all of `extra` as well, after
/// all rules before `k`.
pub open spec fn recorded(
    rules: Seq<ProductionSpec>,
    first: Sets,
    follow: Sets,
    table: TableSpec,
    k: int,
    extra: Set<Symbol>,
    pending: Seq<Symbol>,
    done: int,
    skip_epsilon: bool,
) -> bool {
    &&& forall|i: int, a: Symbol, t: Symbol|
        i < k && #[trigger] claims(rules, first, follow, i, a, t) ==> table.contains_key((a, t))
            && table[(a, t)] == rules[i]
    &&& forall|t: Symbol|
        #[trigger] extra.contains(t) ==> table.contains_key((rules[k].lhs, t)) && table[(
            rules[k].lhs,
            t,
        )] == rules[k]
    &&& forall|n: int|
        0 <= n < done && !(skip_epsilon && pending[n] == Symbol::Epsilon) ==> table.contains_key(
            (rules[k].lhs, #[trigger] pending[n]),
        ) && table[(rules[k].lhs, pending[n])] == rules[k]
    &&& forall|key: (Symbol, Symbol)| #[trigger]
        table.contains_key(key) ==> exists|i: int|
            #![trigger claims(rules, first, follow, i, key.0, key.1)]
            {
                &&& i <= k
                &&& claims(rules, first, follow, i, key.0, key.1)
                &&& table[key] == rules[i]
                &&& forall|a: int| 0 <= a < i ==> !#[trigger] claims(rules, first, follow, a, key.0, key.1)
            }
}

/// An LL(1) recognizer: a grammar, the sets it was built by, and its table.
#[derive(Debug)]
pub struct LL1Parser {
    grammar: Grammar,
    table: LL1Table,
    first_sets: FirstSets,
    follow_sets: FollowSets,
}

impl LL1Parser {
    /// The productions of the recognizer's grammar.
    pub closed spec fn rules(&self) -> Seq<ProductionSpec> {
        self.grammar.rules()
    }

    /// The table.
    pub closed spec fn table_view(&self) -> TableSpec {
        self.table@
    }

    /// The FIRST sets that the table was built by.
    pub closed spec fn first_view(&self) -> Sets {
        self.first_sets@
    }

    /// The FOLLOW sets that the table was built by.
    pub closed spec fn follow_view(&self) -> Sets {
        self.follow_sets@
    }

    /// The parts of the recognizer are in good order.
    pub closed spec fn parts_wf(&self) -> bool {
        &&& self.grammar.wf()
        &&& self.table.wf()
        &&& self.first_sets.wf()
        &&& self.follow_sets.wf()
    }

    /// The recognizer holds what `build` made: the table of its grammar by
    /// its sets, in which no two different productions claim one cell.
    pub open spec fn wf(&self) -> bool {
        &&& self.parts_wf()
        &&& is_ll1(self.rules(), self.first_view(), self.follow_view())
        &&& self.table_view() == ll1_table(self.rules(), self.first_view(), self.follow_view())
        &&& forall|k: int| 0 <= k < self.rules().len() ==> (#[trigger] self.rules()[k]).well_formed()
    }

    /// Records rule `k` in the cells of the members of `symbols`, the empty
    /// string left out where `skip_epsilon` is set. Fails at the first cell
    /// that holds a different production.
    fn record(
        table: &mut LL1Table,
        productions: &[Production],
        k: usize,
        symbols: &SymbolSet,
        skip_epsilon: bool,
        Ghost(first): Ghost<Sets>,
        Ghost(follow): Ghost<Sets>,
        Ghost(extra): Ghost<Set<Symbol>>,
    ) -> (r: Result<(), GrammarError>)
        requires
            old(table).wf(),
            symbols.wf(),
            k < productions@.len(),
            forall|t: Symbol|
                symbols@.contains(t) && !(skip_epsilon && t == Symbol::Epsilon) ==> #[trigger] select_set(
                    first,
                    follow,
                    rules_view(productions@)[k as int],
                ).contains(t),
            recorded(
                rules_view(productions@),
                first,
                follow,
                old(table)@,
                k as int,
                extra,
                symbols.members(),
                0,
                skip_epsilon,
            ),
        ensures
            final(table).wf(),
            match r {
                Ok(_) => recorded(
                    rules_view(productions@),
                    first,
                    follow,
                    final(table)@,
                    k as int,
                    extra,
                    symbols.members(),
                    symbols.members().len() as int,
                    skip_epsilon,
                ),
                Err(e) => exists|i: int, t: Symbol|
                    ll1_report(rules_view(productions@), first, follow, i, k as int, t, e),
            },
    {
        let ghost rules = rules_view(productions@);
        let ghost rule = rules[k as int];
        let production = &productions[k];
        let lhs = production.lhs;
        let n = symbols.len();
        proof {
            symbols.lemma_members();
        }
        let mut at: usize = 0;
        while at < n
            invariant
                at <= n,
                n == symbols.members().len(),
                table.wf(),
                symbols.wf(),
                k < productions@.len(),
                rules == rules_view(productions@),
                rule == rules[k as int],
                production@ == rule,
                lhs == rule.lhs,
                forall|i: int| 0 <= i < n ==> symbols@.contains(#[trigger] symbols.members()[i]),
                forall|t: Symbol|
                    symbols@.contains(t) && !(skip_epsilon && t == Symbol::Epsilon)
                        ==> #[trigger] select_set(first, follow, rule).contains(t),
                recorded(rules, first, follow, table@, k as int, extra, symbols.members(), at as int, skip_epsilon),
            decreases n - at,
        {
            let symbol = symbols.get(at);
            let ghost before = table@;
            if !(skip_epsilon && symbol.is_epsilon()) {
                let key = (lhs, symbol);
                proof {
                    assert(select_set(first, follow, rule).contains(symbol));
                    assert(claims(rules, first, follow, k as int, lhs, symbol));
                }
                match table.get(&key) {
                    Some(existing) => {
                        if !existing.same(production) {
                            let e = GrammarError::LL1Conflict {
                                nonterminal: lhs.to_string(),
                                terminal: symbol.to_string(),
                                prod1: existing.to_string(),
                                prod2: production.to_string(),
                            };
                            proof {
                                let i = choose|i: int|
                                    #![trigger claims(rules, first, follow, i, key.0, key.1)]
                                    {
                                        &&& i <= k
                                        &&& claims(rules, first, follow, i, key.0, key.1)
                                        &&& before[key] == rules[i]
                                        &&& forall|a: int|
                                            0 <= a < i ==> !#[trigger] claims(
                                                rules,
                                                first,
                                                follow,
                                                a,
                                                key.0,
                                                key.1,
                                            )
                                    };
                                assert(i < k);
                                assert(ll1_conflict(rules, first, follow, i, k as int, symbol));
                                assert forall|a: int, b: int, u: Symbol| b < k implies !#[trigger] ll1_conflict(
                                    rules,
                                    first,
                                    follow,
                                    a,
                                    b,
                                    u,
                                ) by {
                                    if ll1_conflict(rules, first, follow, a, b, u) {
                                        assert(claims(rules, first, follow, a, rules[b].lhs, u));
                                        assert(claims(rules, first, follow, b, rules[b].lhs, u));
                                    }
                                }
                                assert(ll1_report(rules, first, follow, i, k as int, symbol, e));
                            }
                            return Err(e);
                        }
                    },
                    None => {
                        table.fill(key, production.clone());
                        proof {
                            assert forall|other: (Symbol, Symbol)| #[trigger]
                                table@.contains_key(other) implies exists|i: int|
                                #![trigger claims(rules, first, follow, i, other.0, other.1)]
                                {
                                    &&& i <= k
                                    &&& claims(rules, first, follow, i, other.0, other.1)
                                    &&& table@[other] == rules[i]
                                    &&& forall|a: int|
                                        0 <= a < i ==> !#[trigger] claims(
                                            rules,
                                            first,
                                            follow,
                                            a,
                                            other.0,
                                            other.1,
                                        )
                                } by {
                                if other == key {
                                    assert(claims(rules, first, follow, k as int, other.0, other.1));
                                    assert forall|a: int| 0 <= a < k implies !#[trigger] claims(
                                        rules,
                                        first,
                                        follow,
                                        a,
                                        other.0,
                                        other.1,
                                    ) by {}
                                } else {
                                    assert(before.contains_key(other));
                                }
                            }
                        }
                    },
                }
            }
            proof {
                assert(recorded(
                    rules,
                    first,
                    follow,
                    table@,
                    k as int,
                    extra,
                    symbols.members(),
                    at as int + 1,
                    skip_epsilon,
                ));
            }
            at += 1;
        }
        Ok(())
    }

    /// Builds the LL(1) table of `grammar` by the given FIRST and FOLLOW
    /// sets: each production is recorded, in the order of declaration, in
    /// the cell of each symbol of its selection set. The build fails at the
    /// first cell that a different production already holds.
    pub fn build(grammar: Grammar, first_sets: FirstSets, follow_sets: FollowSets) -> (r: Result<
        LL1Parser,
        GrammarError,
    >)
        requires
            grammar.wf(),
            first_sets.wf(),
            follow_sets.wf(),
        ensures
            match r {
                Ok(parser) => {
                    &&& is_ll1(grammar.rules(), first_sets@, follow_sets@)
                    &&& parser.wf()
                    &&& parser.rules() == grammar.rules()
                    &&& parser.first_view() == first_sets@
                    &&& parser.follow_view() == follow_sets@
                    &&& parser.table_view() == ll1_table(grammar.rules(), first_sets@, follow_sets@)
                },
                Err(e) => {
                    &&& !is_ll1(grammar.rules(), first_sets@, follow_sets@)
                    &&& exists|i: int, j: int, t: Symbol|
                        ll1_report(grammar.rules(), first_sets@, follow_sets@, i, j, t, e)
                },
            },
    {
        let ghost rules = grammar.rules();
        let ghost first = first_sets@;
        let ghost follow = follow_sets@;
        let mut table = LL1Table::new();
        let productions = grammar.all_productions();
        let none = SymbolSet::new();
        let mut k: usize = 0;
        proof {
            assert(recorded(rules, first, follow, table@, 0, Set::empty(), none.members(), 0, true));
        }
        while k < productions.len()
            invariant
                k <= productions.len(),
                grammar.wf(),
                first_sets.wf(),
                follow_sets.wf(),
                none.wf(),
                none.members().len() == 0,
                rules == grammar.rules(),
                rules == rules_view(productions@),
                first == first_sets@,
                follow == follow_sets@,
                table.wf(),
                recorded(rules, first, follow, table@, k as int, Set::empty(), none.members(), 0, true),
            decreases productions.len() - k,
        {
            let production = &productions[k];
            let ghost rule = rules[k as int];
            let begin = first_of_string(&first_sets, production.rhs.as_slice());
            proof {
                assert(rule == production@);
                begin.lemma_members();
                assert(recorded(rules, first, follow, table@, k as int, Set::empty(), begin.members(), 0, true));
            }
            match Self::record(
                &mut table,
                productions,
                k,
                &begin,
                true,
                Ghost(first),
                Ghost(follow),
                Ghost(Set::empty()),
            ) {
                Err(e) => {
                    proof {
                        let (i, t) = choose|i: int, t: Symbol|
                            ll1_report(rules, first, follow, i, k as int, t, e);
                        assert(ll1_report(rules, first, follow, i, k as int, t, e));
                        assert(ll1_conflict(rules, first, follow, i, k as int, t));
                    }
                    return Err(e);
                },
                Ok(_) => {},
            }
            let ghost begun = begin@.remove(Symbol::Epsilon);
            proof {
                assert forall|t: Symbol| #[trigger] begun.contains(t) implies table@.contains_key(
                    (rule.lhs, t),
                ) && table@[(rule.lhs, t)] == rule by {
                    let n = choose|n: int| 0 <= n < begin.members().len() && begin.members()[n] == t;
                    assert(begin.members()[n] == t);
                }
            }
            if begin.contains(&Symbol::Epsilon) {
                let empty = SymbolSet::new();
                let after = match follow_sets.get(&production.lhs) {
                    Some(set) => set,
                    None => &empty,
                };
                proof {
                    after.lemma_members();
                    assert(after@ == lookup(follow, rule.lhs));
                    assert(recorded(rules, first, follow, table@, k as int, begun, after.members(), 0, false));
                }
                match Self::record(
                    &mut table,
                    productions,
                    k,
                    after,
                    false,
                    Ghost(first),
                    Ghost(follow),
                    Ghost(begun),
                ) {
                    Err(e) => {
                        proof {
                            let (i, t) = choose|i: int, t: Symbol|
                                ll1_report(rules, first, follow, i, k as int, t, e);
                            assert(ll1_report(rules, first, follow, i, k as int, t, e));
                            assert(ll1_conflict(rules, first, follow, i, k as int, t));
                        }
                        return Err(e);
                    },
                    Ok(_) => {},
                }
                proof {
                    assert forall|t: Symbol| #[trigger]
                        select_set(first, follow, rule).contains(t) implies table@.contains_key(
                        (rule.lhs, t),
                    ) && table@[(rule.lhs, t)] == rule by {
                        if begun.contains(t) {
                        } else {
                            assert(after@.contains(t));
                            let n = choose|n: int| 0 <= n < after.members().len() && after.members()[n] == t;
                            assert(after.members()[n] == t);
                        }
                    }
                }
            } else {
                proof {
                    assert(select_set(first, follow, rule) =~= begun);
                }
            }
            proof {
                let sel = select_set(first, follow, rule);
                assert(recorded(rules, first, follow, table@, k as int, sel, none.members(), 0, true));
                assert forall|i: int, a: Symbol, t: Symbol|
                    i < k + 1 && #[trigger] claims(rules, first, follow, i, a, t) implies table@.contains_key(
                    (a, t),
                ) && table@[(a, t)] == rules[i] by {
                    if i == k {
                        assert(sel.contains(t));
                    }
                }
                assert forall|key: (Symbol, Symbol)| #[trigger]
                    table@.contains_key(key) implies exists|i: int|
                    #![trigger claims(rules, first, follow, i, key.0, key.1)]
                    {
                        &&& i <= k + 1
                        &&& claims(rules, first, follow, i, key.0, key.1)
                        &&& table@[key] == rules[i]
                        &&& forall|a: int|
                            0 <= a < i ==> !#[trigger] claims(rules, first, follow, a, key.0, key.1)
                    } by {
                    let i = choose|i: int|
                        #![trigger claims(rules, first, follow, i, key.0, key.1)]
                        {
                            &&& i <= k
                            &&& claims(rules, first, follow, i, key.0, key.1)
                            &&& table@[key] == rules[i]
                            &&& forall|a: int|
                                0 <= a < i ==> !#[trigger] claims(rules, first, follow, a, key.0, key.1)
                        };
                    assert(i <= k + 1);
                }
                assert(recorded(
                    rules,
                    first,
                    follow,
                    table@,
                    k as int + 1,
                    Set::empty(),
                    none.members(),
                    0,
                    true,
                ));
            }
            k += 1;
        }
        proof {
            assert forall|i: int, j: int, t: Symbol| !#[trigger] ll1_conflict(rules, first, follow, i, j, t) by {
                if ll1_conflict(rules, first, follow, i, j, t) {
                    assert(claims(rules, first, follow, i, rules[j].lhs, t));
                    assert(claims(rules, first, follow, j, rules[j].lhs, t));
                }
            }
            let want = ll1_table(rules, first, follow);
            assert forall|key: (Symbol, Symbol)| table@.contains_key(key) <==> want.contains_key(key) by {
                if want.contains_key(key) {
                    let i = choose|i: int| claims(rules, first, follow, i, key.0, key.1);
                    assert(claims(rules, first, follow, i, key.0, key.1));
                }
            }
            assert forall|key: (Symbol, Symbol)| table@.contains_key(key) implies table@[key] == want[key] by {
                let i = choose|i: int| claims(rules, first, follow, i, key.0, key.1);
                assert(claims(rules, first, follow, i, key.0, key.1));
            }
            assert(table@ =~= want);
        }
        Ok(LL1Parser { grammar, table, first_sets, follow_sets })
    }

    /// What the recognizer accepts, the start symbol derives: the symbols of
    /// the text, with the end marker after both.
    pub proof fn lemma_accepts_sentences(&self, text: Seq<char>)
        requires
            self.wf(),
            ll1_accepts(self.table_view(), text),
        ensures
            derives(
                self.rules(),
                seq![start_symbol(), Symbol::EndMarker],
                classify_all(text).push(Symbol::EndMarker),
            ),
    {
        let rules = self.rules();
        let table = self.table_view();
        assert forall|key: (Symbol, Symbol)| #[trigger] table.contains_key(key) implies rules.contains(
            table[key],
        ) && table[key].lhs == key.0 by {
            let k = choose|k: int| claims(rules, self.first_view(), self.follow_view(), k, key.0, key.1);
            assert(rules[k] == table[key]);
        }
        let stack = seq![Symbol::EndMarker, start_symbol()];
        let input = classify_all(text).push(Symbol::EndMarker);
        lemma_ll1_run_derives(rules, table, stack, input, 0, STEP_LIMIT as nat);
        assert(stack.reverse() =~= seq![start_symbol(), Symbol::EndMarker]);
        assert(input.skip(0) =~= input);
        assert(is_derivation(
            rules,
            seq![start_symbol(), Symbol::EndMarker],
            input,
            ll1_steps(rules, table, stack, input, 0, STEP_LIMIT as nat),
        ));
    }

    /// What the start symbol derives, the recognizer accepts, if its table is
    /// built by solutions of the rules of FIRST and FOLLOW: a text of
    /// terminals with a derivation, the end marker after the start symbol
    /// and after the text, of no more steps than the recognizer takes.
    pub proof fn lemma_recognizes_sentences(&self, text: Seq<char>, steps: Seq<int>)
        requires
            self.wf(),
            is_first_solution(self.rules(), self.first_view()),
            is_follow_solution(self.rules(), self.first_view(), self.follow_view()),
            forall|i: int| 0 <= i < text.len() ==> classify(#[trigger] text[i]) is Terminal,
            is_derivation(
                self.rules(),
                seq![start_symbol(), Symbol::EndMarker],
                classify_all(text).push(Symbol::EndMarker),
                steps,
            ),
            steps.len() <= STEP_LIMIT,
        ensures
            ll1_accepts(self.table_view(), text),
    {
        let rules = self.rules();
        let first = self.first_view();
        let follow = self.follow_view();
        let stack = seq![Symbol::EndMarker, start_symbol()];
        let form = seq![start_symbol(), Symbol::EndMarker];
        let input = classify_all(text).push(Symbol::EndMarker);
        assert(stack.reverse() =~= form);
        assert(input.skip(0) =~= input);
        assert(is_plain(input));
        assert(first.dom().contains(Symbol::EndMarker));
        assert(first.contains_key(start_symbol())) by {
            if 0 <= steps[0] < rules.len() {
                assert(heads_rule(rules, rules[steps[0]].lhs));
                assert(first_domain(rules).contains(start_symbol()));
            }
        }
        assert(follow_ok(first, follow, form)) by {
            assert forall|i: int| #[trigger] rest_follows(first, follow, form, i) by {
                if i == 0 {
                    assert(form.skip(1) =~= seq![Symbol::EndMarker]);
                    assert(first[Symbol::EndMarker] == set![Symbol::EndMarker]);
                    assert forall|t: Symbol| first_of_seq(first, form.skip(1)).remove(Symbol::Epsilon).contains(
                        t,
                    ) implies lookup(follow, form[0]).contains(t) by {
                        let j = choose|j: int| #[trigger] begins_at(first, form.skip(1), j, t);
                        assert(t == Symbol::EndMarker);
                    }
                }
            }
        }
        lemma_derivation_runs(rules, first, follow, stack, input, 0, steps);
        lemma_ll1_run_more_fuel(self.table_view(), stack, input, 0, steps.len(), STEP_LIMIT as nat);
    }

    /// The recognizer accepts a text of terminals just where the start symbol
    /// derives it in no more steps than the recognizer takes, if its table
    /// is built by solutions of the rules of FIRST and FOLLOW.
    pub proof fn lemma_accepts_what_is_derived(&self, text: Seq<char>)
        requires
            self.wf(),
            is_first_solution(self.rules(), self.first_view()),
            is_follow_solution(self.rules(), self.first_view(), self.follow_view()),
            forall|i: int| 0 <= i < text.len() ==> classify(#[trigger] text[i]) is Terminal,
        ensures
            ll1_accepts(self.table_view(), text) <==> derives_within(
                self.rules(),
                seq![start_symbol(), Symbol::EndMarker],
                classify_all(text).push(Symbol::EndMarker),
                STEP_LIMIT as nat,
            ),
    {
        let rules = self.rules();
        let table = self.table_view();
        let form = seq![start_symbol(), Symbol::EndMarker];
        let input = classify_all(text).push(Symbol::EndMarker);
        if ll1_accepts(table, text) {
            assert forall|key: (Symbol, Symbol)| #[trigger] table.contains_key(key) implies rules.contains(
                table[key],
            ) && table[key].lhs == key.0 by {
                let k = choose|k: int| claims(rules, self.first_view(), self.follow_view(), k, key.0, key.1);
                assert(rules[k] == table[key]);
            }
            let stack = seq![Symbol::EndMarker, start_symbol()];
            lemma_ll1_run_derives(rules, table, stack, input, 0, STEP_LIMIT as nat);
            assert(stack.reverse() =~= form);
            assert(input.skip(0) =~= input);
            let steps = ll1_steps(rules, table, stack, input, 0, STEP_LIMIT as nat);
            assert(steps.len() <= STEP_LIMIT && is_derivation(rules, form, input, steps));
        }
        if derives_within(rules, form, input, STEP_LIMIT as nat) {
            let steps = choose|steps: Seq<int>|
                steps.len() <= STEP_LIMIT && #[trigger] is_derivation(rules, form, input, steps);
            self.lemma_recognizes_sentences(text, steps);
        }
    }

    /// Runs the stack machine on `input`: whether it is accepted. The run
    /// starts with the start symbol on the end marker, and reads the symbols
    /// of `input` with the end marker after them. It takes at most
    /// `STEP_LIMIT` steps.
    pub fn parse(&self, input: &str) -> (accepted: bool)
        requires
            self.wf(),
        ensures
            accepted == ll1_accepts(self.table_view(), input@),
    {
        let mut symbols = string_to_symbols(input);
        symbols.push(Symbol::EndMarker);
        let mut stack: Vec<Symbol> = Vec::new();
        stack.push(Symbol::EndMarker);
        stack.push(self.grammar.start_symbol());
        let mut pos: usize = 0;
        let mut steps: u64 = 0;
        let ghost table = self.table@;
        let ghost goal = ll1_accepts(table, input@);
        proof {
            assert(stack@ =~= seq![Symbol::EndMarker, start_symbol()]);
        }
        while stack.len() > 0 && pos < symbols.len()
            invariant
                self.wf(),
                table == self.table@,
                goal == ll1_accepts(self.table_view(), input@),
                pos <= symbols.len(),
                goal == ll1_run(table, stack@, symbols@, pos as int, (STEP_LIMIT - steps) as nat),
            decreases STEP_LIMIT - steps,
        {
            if steps == STEP_LIMIT {
                return false;
            }
            let top = stack[stack.len() - 1];
            let current = symbols[pos];
            let ghost below = stack@.drop_last();
            if top == current {
                stack.pop();
                pos += 1;
            } else if top.is_nonterminal() {
                match self.table.get(&(top, current)) {
                    Some(production) => {
                        stack.pop();
                        if !production.is_empty_rule() {
                            let mut n: usize = production.rhs.len();
                            while n > 0
                                invariant
                                    n <= production.rhs.len(),
                                    stack@ == below + production.rhs@.reverse().take(
                                        production.rhs.len() - n,
                                    ),
                                decreases n,
                            {
                                n -= 1;
                                stack.push(production.rhs[n]);
                                proof {
                                    let reversed = production.rhs@.reverse();
                                    let taken = production.rhs.len() - n;
                                    assert(reversed.take(taken) =~= reversed.take(taken - 1).push(
                                        production.rhs@[n as int],
                                    ));
                                    assert(stack@ =~= below + reversed.take(taken));
                                }
                            }
                            proof {
                                let reversed = production.rhs@.reverse();
                                assert(reversed.take(production.rhs.len() as int) =~= reversed);
                            }
                        } else {
                            assert(stack@ =~= below + Seq::<Symbol>::empty());
                        }
                    },
                    None => {
                        return false;
                    },
                }
            } else {
                return false;
            }
            steps += 1;
        }
        stack.len() == 0 && pos == symbols.len()
    }

    /// The table.
    pub fn table(&self) -> (table: &LL1Table)
        requires
            self.wf(),
        ensures
            table.wf(),
            table@ == self.table_view(),
    {
        &self.table
    }
}

} // verus!

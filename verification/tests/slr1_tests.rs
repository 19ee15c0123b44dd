use cfg_parser::first_follow::{compute_first_sets, compute_follow_sets};
use cfg_parser::grammar::Grammar;
use cfg_parser::error::GrammarError;
use cfg_parser::first_follow::FollowSets;
use cfg_parser::lr0::{closure, goto, Item, Lr0Automaton};
use cfg_parser::grammar::Production;
use cfg_parser::slr1::SLR1Parser;
use cfg_parser::symbol::Symbol;
use cfg_parser::symbol_set::SymbolSet;

#[test]
fn test_slr1_simple() {
    let lines = vec![
        "3".to_string(),
        "S -> S+T T".to_string(),
        "T -> T*F F".to_string(),
        "F -> (S) i".to_string(),
    ];

    let grammar = Grammar::parse(&lines).unwrap();
    let first_sets = compute_first_sets(&grammar);
    let follow_sets = compute_follow_sets(&grammar, &first_sets);

    let parser = SLR1Parser::build(grammar, follow_sets);
    assert!(parser.is_ok());

    let parser = parser.unwrap();
    assert!(parser.parse("i+i"));
    assert!(parser.parse("(i)"));
    assert!(!parser.parse("(i+i)*i)"));
}

#[test]
fn test_slr1_accepts_valid_expressions() {
    let lines = vec![
        "3".to_string(),
        "S -> S+T T".to_string(),
        "T -> T*F F".to_string(),
        "F -> (S) i".to_string(),
    ];

    let grammar = Grammar::parse(&lines).unwrap();
    let first_sets = compute_first_sets(&grammar);
    let follow_sets = compute_follow_sets(&grammar, &first_sets);
    let parser = SLR1Parser::build(grammar, follow_sets).unwrap();

    assert!(parser.parse("i"));
    assert!(parser.parse("i+i"));
    assert!(parser.parse("i*i"));
    assert!(parser.parse("i+i*i"));
    assert!(parser.parse("i*i+i"));
    assert!(parser.parse("(i)"));
    assert!(parser.parse("(i+i)"));
    assert!(parser.parse("(i)*i"));
    assert!(parser.parse("i+(i*i)"));
}

#[test]
fn test_slr1_rejects_invalid_expressions() {
    let lines = vec![
        "3".to_string(),
        "S -> S+T T".to_string(),
        "T -> T*F F".to_string(),
        "F -> (S) i".to_string(),
    ];

    let grammar = Grammar::parse(&lines).unwrap();
    let first_sets = compute_first_sets(&grammar);
    let follow_sets = compute_follow_sets(&grammar, &first_sets);
    let parser = SLR1Parser::build(grammar, follow_sets).unwrap();

    assert!(!parser.parse(""));
    assert!(!parser.parse("+"));
    assert!(!parser.parse("i+"));
    assert!(!parser.parse("*i"));
    assert!(!parser.parse("(i"));
    assert!(!parser.parse("i)"));
    assert!(!parser.parse("(i+i)*i)"));
    assert!(!parser.parse("ii"));
}

#[test]
fn test_slr1_conflict_detection() {
    let lines = vec![
        "3".to_string(),
        "S -> A a".to_string(),
        "A -> B".to_string(),
        "B -> b".to_string(),
    ];

    let grammar = Grammar::parse(&lines).unwrap();
    let first_sets = compute_first_sets(&grammar);
    let follow_sets = compute_follow_sets(&grammar, &first_sets);

    let result = SLR1Parser::build(grammar, follow_sets);
    assert!(result.is_ok());
}

#[test]
fn test_slr1_operator_precedence() {
    let lines = vec![
        "3".to_string(),
        "S -> S+T T".to_string(),
        "T -> T*F F".to_string(),
        "F -> (S) i".to_string(),
    ];

    let grammar = Grammar::parse(&lines).unwrap();
    let first_sets = compute_first_sets(&grammar);
    let follow_sets = compute_follow_sets(&grammar, &first_sets);
    let parser = SLR1Parser::build(grammar, follow_sets).unwrap();

    assert!(parser.parse("i+i*i"));
    assert!(parser.parse("(i+i)*i"));
}

fn build(text: &[&str]) -> Result<SLR1Parser, GrammarError> {
    let lines: Vec<String> = text.iter().map(|line| line.to_string()).collect();
    let grammar = Grammar::parse(&lines).unwrap();
    let first_sets = compute_first_sets(&grammar);
    let follow_sets = compute_follow_sets(&grammar, &first_sets);
    SLR1Parser::build(grammar, follow_sets)
}

fn expression_rules() -> Vec<Production> {
    let s = Symbol::Nonterminal('S');
    let t = Symbol::Nonterminal('T');
    let f = Symbol::Nonterminal('F');
    vec![
        Production::new(Symbol::Nonterminal('\''), vec![s]),
        Production::new(s, vec![s, Symbol::Terminal('+'), t]),
        Production::new(s, vec![t]),
        Production::new(t, vec![t, Symbol::Terminal('*'), f]),
        Production::new(t, vec![f]),
        Production::new(f, vec![Symbol::Terminal('('), s, Symbol::Terminal(')')]),
        Production::new(f, vec![Symbol::Terminal('i')]),
    ]
}

fn sorted(items: Vec<Item>) -> Vec<(usize, usize)> {
    let mut pairs: Vec<(usize, usize)> = items.iter().map(|item| (item.rule, item.dot)).collect();
    pairs.sort();
    pairs
}

#[test]
fn the_closure_adds_the_initial_items_of_each_nonterminal_after_a_dot() {
    let rules = expression_rules();
    let closed = closure(&rules, vec![Item { rule: 0, dot: 0 }]);
    assert_eq!(sorted(closed), vec![(0, 0), (1, 0), (2, 0), (3, 0), (4, 0), (5, 0), (6, 0)]);
    let closed = closure(&rules, vec![Item { rule: 3, dot: 2 }]);
    assert_eq!(sorted(closed), vec![(3, 2), (5, 0), (6, 0)]);
    let closed = closure(&rules, vec![Item { rule: 6, dot: 1 }, Item { rule: 1, dot: 1 }]);
    assert_eq!(sorted(closed), vec![(1, 1), (6, 1)]);
    assert!(closure(&rules, vec![]).is_empty());
}

#[test]
fn goto_moves_the_dot_and_closes() {
    let rules = expression_rules();
    let first = closure(&rules, vec![Item { rule: 0, dot: 0 }]);
    assert_eq!(sorted(goto(&rules, &first, Symbol::Nonterminal('S'))), vec![(0, 1), (1, 1)]);
    assert_eq!(sorted(goto(&rules, &first, Symbol::Nonterminal('T'))), vec![(2, 1), (3, 1)]);
    assert_eq!(
        sorted(goto(&rules, &first, Symbol::Terminal('('))),
        vec![(1, 0), (2, 0), (3, 0), (4, 0), (5, 0), (5, 1), (6, 0)]
    );
    assert!(goto(&rules, &first, Symbol::Terminal('+')).is_empty());
    assert!(goto(&rules, &first, Symbol::EndMarker).is_empty());
}

#[test]
fn the_canonical_collection_of_the_expression_grammar_has_twelve_states() {
    let rules = expression_rules();
    let automaton = Lr0Automaton::build(&rules);
    assert_eq!(automaton.len(), 12);
    assert_eq!(automaton.edge_count(), 22);
    assert_eq!(
        sorted(automaton.state(0).clone()),
        vec![(0, 0), (1, 0), (2, 0), (3, 0), (4, 0), (5, 0), (6, 0)]
    );
    for s in 0..automaton.len() {
        for t in 0..s {
            assert_ne!(sorted(automaton.state(s).clone()), sorted(automaton.state(t).clone()));
        }
        for symbol in [
            Symbol::Nonterminal('S'),
            Symbol::Nonterminal('T'),
            Symbol::Nonterminal('F'),
            Symbol::Terminal('+'),
            Symbol::Terminal('*'),
            Symbol::Terminal('('),
            Symbol::Terminal(')'),
            Symbol::Terminal('i'),
            Symbol::EndMarker,
        ] {
            let target = goto(&rules, automaton.state(s), symbol);
            match automaton.edge(s, symbol) {
                Some(to) => assert_eq!(sorted(automaton.state(to).clone()), sorted(target)),
                None => assert!(target.is_empty()),
            }
        }
    }
    for n in 0..automaton.edge_count() {
        let ((from, symbol), to) = automaton.edge_at(n);
        assert_eq!(automaton.edge(from, symbol), Some(to));
    }
}

#[test]
fn a_shift_and_a_reduction_in_one_cell_are_a_conflict() {
    for text in [["2", "S -> Ab", "A -> e b"], ["2", "S -> Ab", "A -> b e"]] {
        match build(&text) {
            Err(GrammarError::SLR1ShiftReduceConflict { state, symbol }) => {
                assert_eq!(state, 0);
                assert_eq!(symbol, "b");
            },
            _ => panic!("no shift-reduce conflict was found"),
        }
    }
    let parser = build(&["2", "S -> A Ab", "A -> a"]).unwrap();
    assert!(parser.parse("a"));
    assert!(parser.parse("ab"));
    assert!(!parser.parse("b"));
}

#[test]
fn two_reductions_in_one_cell_are_a_conflict() {
    match build(&["4", "S -> A B", "A -> C", "B -> C", "C -> c"]) {
        Err(GrammarError::SLR1ReduceReduceConflict { state, symbol, prod1, prod2 }) => {
            assert!(state > 0);
            assert_eq!(symbol, "$");
            assert_eq!(prod1, "A → C");
            assert_eq!(prod2, "B → C");
        },
        _ => panic!("no reduce-reduce conflict was found"),
    }
    match build(&["2", "S -> A", "A -> A b"]) {
        Err(GrammarError::SLR1ReduceReduceConflict { symbol, prod1, prod2, .. }) => {
            assert_eq!(symbol, "$");
            let mut pair = vec![prod1, prod2];
            pair.sort();
            assert_eq!(pair, vec!["A → A".to_string(), "S → A".to_string()]);
        },
        _ => panic!("no reduce-reduce conflict was found"),
    }
}

#[test]
fn two_items_that_shift_on_one_symbol_are_a_conflict() {
    match build(&["1", "S -> ab ac"]) {
        Err(GrammarError::SLR1ShiftReduceConflict { state, symbol }) => {
            assert_eq!(state, 0);
            assert_eq!(symbol, "a");
        },
        _ => panic!("two shifts in one cell were accepted"),
    }
}

#[test]
fn a_production_that_is_declared_twice_is_one_production() {
    let parser = build(&["1", "S -> ab ab"]).unwrap();
    assert!(parser.parse("ab"));
    assert!(!parser.parse("a"));
}

#[test]
fn an_item_with_the_dot_before_the_empty_string_reduces() {
    let parser = build(&["2", "S -> aAb", "A -> e"]).unwrap();
    assert!(parser.parse("ab"));
    assert!(!parser.parse("a"));
    assert!(!parser.parse("aeb"));
    let parser = build(&["1", "S -> e"]).unwrap();
    assert!(parser.parse(""));
    assert!(!parser.parse("e"));
}

#[test]
fn a_reduction_that_would_leave_no_state_rejects() {
    let parser = build(&["1", "S -> aeb"]).unwrap();
    assert!(!parser.parse("a"));
    assert!(!parser.parse("ab"));
    assert!(!parser.parse(""));
}

#[test]
fn without_a_production_of_the_start_symbol_nothing_is_accepted() {
    let parser = build(&["1", "A -> a"]).unwrap();
    assert!(!parser.parse("a"));
    assert!(!parser.parse(""));
}

#[test]
fn recognition_gives_the_same_answer_each_time_bottom_up() {
    let parser = build(&["3", "S -> S+T T", "T -> T*F F", "F -> (S) i"]).unwrap();
    for text in ["i", "i+i", "(i+i)*(i+i)", "", "(", "i++i", "(i+i)*i)", "$", "i$"] {
        let first = parser.parse(text);
        for _ in 0..3 {
            assert_eq!(parser.parse(text), first);
        }
    }
}

#[test]
fn the_tables_are_built_by_the_follow_sets_that_are_given() {
    let lines = vec!["1".to_string(), "S -> a".to_string()];
    let grammar = Grammar::parse(&lines).unwrap();
    let parser = SLR1Parser::build(grammar.clone(), FollowSets::new()).unwrap();
    assert!(!parser.parse("a"));
    let mut follow = FollowSets::new();
    follow.insert(Symbol::Nonterminal('S'), SymbolSet::singleton(Symbol::EndMarker));
    let parser = SLR1Parser::build(grammar, follow).unwrap();
    assert!(parser.parse("a"));
}

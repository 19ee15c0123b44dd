use cfg_parser::first_follow::{compute_first_sets, compute_follow_sets};
use cfg_parser::grammar::Grammar;
use cfg_parser::error::GrammarError;
use cfg_parser::first_follow::FirstSets;
use cfg_parser::grammar::Production;
use cfg_parser::ll1::LL1Parser;
use cfg_parser::symbol::Symbol;
use cfg_parser::symbol_set::SymbolSet;

#[test]
fn ll1_tests_test_ll1_simple() {
    let lines = vec![
        "3".to_string(),
        "S -> AB".to_string(),
        "A -> aA d".to_string(),
        "B -> bBc e".to_string(),
    ];

    let grammar = Grammar::parse(&lines).unwrap();
    let first_sets = compute_first_sets(&grammar);
    let follow_sets = compute_follow_sets(&grammar, &first_sets);

    let parser = LL1Parser::build(grammar, first_sets, follow_sets);
    assert!(parser.is_ok());

    let parser = parser.unwrap();
    assert!(parser.parse("d"));
    assert!(parser.parse("adbc"));
    assert!(!parser.parse("a"));
}

#[test]
fn test_ll1_accepts_valid_strings() {
    let lines = vec![
        "3".to_string(),
        "S -> AB".to_string(),
        "A -> aA d".to_string(),
        "B -> bBc e".to_string(),
    ];

    let grammar = Grammar::parse(&lines).unwrap();
    let first_sets = compute_first_sets(&grammar);
    let follow_sets = compute_follow_sets(&grammar, &first_sets);
    let parser = LL1Parser::build(grammar, first_sets, follow_sets).unwrap();

    assert!(parser.parse("d"));
    assert!(parser.parse("ad"));
    assert!(parser.parse("aad"));
    assert!(parser.parse("dbc"));
    assert!(parser.parse("adbc"));
}

#[test]
fn test_ll1_rejects_invalid_strings() {
    let lines = vec![
        "3".to_string(),
        "S -> AB".to_string(),
        "A -> aA d".to_string(),
        "B -> bBc e".to_string(),
    ];

    let grammar = Grammar::parse(&lines).unwrap();
    let first_sets = compute_first_sets(&grammar);
    let follow_sets = compute_follow_sets(&grammar, &first_sets);
    let parser = LL1Parser::build(grammar, first_sets, follow_sets).unwrap();

    assert!(!parser.parse("a"));
    assert!(!parser.parse("b"));
    assert!(!parser.parse("abc"));
    assert!(!parser.parse("dd"));
}

#[test]
fn test_ll1_conflict_detection() {
    let lines = vec![
        "2".to_string(),
        "S -> Sa b".to_string(),
        "A -> a".to_string(),
    ];

    let grammar = Grammar::parse(&lines).unwrap();
    let first_sets = compute_first_sets(&grammar);
    let follow_sets = compute_follow_sets(&grammar, &first_sets);

    let result = LL1Parser::build(grammar, first_sets, follow_sets);
    assert!(result.is_err());
}

#[test]
fn test_ll1_epsilon_production() {
    let lines = vec![
        "2".to_string(),
        "S -> A".to_string(),
        "A -> a e".to_string(),
    ];

    let grammar = Grammar::parse(&lines).unwrap();
    let first_sets = compute_first_sets(&grammar);
    let follow_sets = compute_follow_sets(&grammar, &first_sets);
    let parser = LL1Parser::build(grammar, first_sets, follow_sets).unwrap();

    assert!(parser.parse("a"));
    assert!(parser.parse(""));
}

#[test]
fn ll1_test_ll1_simple() {
    let lines = vec![
        "3".to_string(),
        "S -> AB".to_string(),
        "A -> aA d".to_string(),
        "B -> bBc e".to_string(),
    ];

    let grammar = Grammar::parse(&lines).unwrap();
    let first_sets = compute_first_sets(&grammar);
    let follow_sets = compute_follow_sets(&grammar, &first_sets);

    let parser = LL1Parser::build(grammar, first_sets, follow_sets);
    assert!(parser.is_ok());

    let parser = parser.unwrap();
    assert!(parser.parse("d"));
    assert!(parser.parse("adbc"));
    assert!(!parser.parse("a"));
}

fn build(text: &[&str]) -> Result<LL1Parser, GrammarError> {
    let lines: Vec<String> = text.iter().map(|line| line.to_string()).collect();
    let grammar = Grammar::parse(&lines).unwrap();
    let first_sets = compute_first_sets(&grammar);
    let follow_sets = compute_follow_sets(&grammar, &first_sets);
    LL1Parser::build(grammar, first_sets, follow_sets)
}

#[test]
fn the_table_holds_each_production_in_the_cells_of_its_selection_set() {
    let parser = build(&["3", "S -> AB", "A -> aA d", "B -> bBc e"]).unwrap();
    let s = Symbol::Nonterminal('S');
    let a = Symbol::Nonterminal('A');
    let b = Symbol::Nonterminal('B');
    let table = parser.table();
    assert_eq!(table.len(), 7);
    let s_ab = Production::new(s, vec![a, b]);
    assert_eq!(table.get(&(s, Symbol::Terminal('a'))), Some(&s_ab));
    assert_eq!(table.get(&(s, Symbol::Terminal('d'))), Some(&s_ab));
    assert_eq!(table.get(&(a, Symbol::Terminal('a'))), Some(&Production::new(a, vec![Symbol::Terminal('a'), a])));
    assert_eq!(table.get(&(a, Symbol::Terminal('d'))), Some(&Production::new(a, vec![Symbol::Terminal('d')])));
    assert_eq!(
        table.get(&(b, Symbol::Terminal('b'))),
        Some(&Production::new(b, vec![Symbol::Terminal('b'), b, Symbol::Terminal('c')]))
    );
    let b_empty = Production::new(b, vec![Symbol::Epsilon]);
    assert_eq!(table.get(&(b, Symbol::Terminal('c'))), Some(&b_empty));
    assert_eq!(table.get(&(b, Symbol::EndMarker)), Some(&b_empty));
    assert_eq!(table.get(&(s, Symbol::Terminal('b'))), None);
    assert!(table.contains_key(&(b, Symbol::EndMarker)));
    assert!(!table.contains_key(&(a, Symbol::EndMarker)));
}

#[test]
fn a_conflict_names_the_cell_and_both_productions() {
    match build(&["2", "S -> Sa b", "A -> a"]) {
        Err(GrammarError::LL1Conflict { nonterminal, terminal, prod1, prod2 }) => {
            assert_eq!(nonterminal, "S");
            assert_eq!(terminal, "b");
            assert_eq!(prod1, "S → Sa");
            assert_eq!(prod2, "S → b");
        },
        _ => panic!("no conflict was found"),
    }
    match build(&["2", "S -> A", "A -> A b"]) {
        Err(GrammarError::LL1Conflict { nonterminal, terminal, prod1, prod2 }) => {
            assert_eq!(nonterminal, "A");
            assert_eq!(terminal, "b");
            assert_eq!(prod1, "A → A");
            assert_eq!(prod2, "A → b");
        },
        _ => panic!("no conflict was found"),
    }
}

#[test]
fn a_conflict_on_a_symbol_that_follows_is_found() {
    match build(&["2", "S -> Aa", "A -> a e"]) {
        Err(GrammarError::LL1Conflict { nonterminal, terminal, prod1, prod2 }) => {
            assert_eq!(nonterminal, "A");
            assert_eq!(terminal, "a");
            assert_eq!(prod1, "A → a");
            assert_eq!(prod2, "A → ε");
        },
        _ => panic!("no conflict was found"),
    }
}

#[test]
fn the_first_production_in_conflict_is_reported() {
    match build(&["3", "S -> AB", "A -> a a", "B -> b bB"]) {
        Err(GrammarError::LL1Conflict { nonterminal, .. }) => assert_eq!(nonterminal, "B"),
        _ => panic!("no conflict was found"),
    }
    match build(&["3", "S -> AB", "A -> a aA", "B -> b bB"]) {
        Err(GrammarError::LL1Conflict { prod1, prod2, .. }) => {
            assert_eq!(prod1, "A → a");
            assert_eq!(prod2, "A → aA");
        },
        _ => panic!("no conflict was found"),
    }
}

#[test]
fn a_production_that_is_declared_twice_is_in_no_conflict_with_itself() {
    let parser = build(&["1", "S -> a a"]).unwrap();
    assert_eq!(parser.table().len(), 1);
    assert!(parser.parse("a"));
}

#[test]
fn left_recursion_without_another_alternative_claims_no_cell() {
    let parser = build(&["2", "S -> Sa", "A -> a"]).unwrap();
    assert_eq!(parser.table().len(), 1);
    assert!(parser.table().contains_key(&(Symbol::Nonterminal('A'), Symbol::Terminal('a'))));
    assert!(!parser.parse("a"));
    assert!(!parser.parse(""));
}

#[test]
fn recognition_rejects_what_is_too_short_or_too_long() {
    let parser = build(&["3", "S -> AB", "A -> aA d", "B -> bBc e"]).unwrap();
    assert!(!parser.parse(""));
    assert!(!parser.parse("adb"));
    assert!(!parser.parse("adbcc"));
    assert!(!parser.parse("d$"));
    assert!(!parser.parse("x"));
    assert!(parser.parse("aaadbbcc"));
}

#[test]
fn recognition_gives_the_same_answer_each_time() {
    let parser = build(&["3", "S -> AB", "A -> aA d", "B -> bBc e"]).unwrap();
    for text in ["d", "adbc", "ad", "aad", "dbc", "a", "b", "abc", "dd", ""] {
        let first = parser.parse(text);
        for _ in 0..3 {
            assert_eq!(parser.parse(text), first);
        }
    }
}

#[test]
fn the_table_is_built_by_the_sets_that_are_given() {
    let lines = vec!["1".to_string(), "S -> Sa".to_string()];
    let grammar = Grammar::parse(&lines).unwrap();
    let mut first = FirstSets::new();
    first.insert(Symbol::Nonterminal('S'), SymbolSet::singleton(Symbol::Terminal('a')));
    let parser = LL1Parser::build(grammar, first, FirstSets::new()).unwrap();
    assert_eq!(parser.table().len(), 1);
    assert!(!parser.parse("b"));
}

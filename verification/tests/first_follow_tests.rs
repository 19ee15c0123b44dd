use cfg_parser::first_follow::{compute_first_sets, compute_follow_sets, first_of_string, FirstSets};
use cfg_parser::symbol_set::SymbolSet;
use cfg_parser::grammar::Grammar;
use cfg_parser::symbol::Symbol;

#[test]
fn test_first_sets_simple() {
    let lines = vec![
        "2".to_string(),
        "S -> AB".to_string(),
        "A -> a".to_string(),
    ];

    let grammar = Grammar::parse(&lines).unwrap();
    let first_sets = compute_first_sets(&grammar);

    let first_a = first_sets.get(&Symbol::Nonterminal('A')).unwrap();
    assert!(first_a.contains(&Symbol::Terminal('a')));
}

#[test]
fn test_follow_sets_simple() {
    let lines = vec![
        "2".to_string(),
        "S -> AB".to_string(),
        "A -> a".to_string(),
    ];

    let grammar = Grammar::parse(&lines).unwrap();
    let first_sets = compute_first_sets(&grammar);
    let follow_sets = compute_follow_sets(&grammar, &first_sets);

    let follow_s = follow_sets.get(&Symbol::Nonterminal('S')).unwrap();
    assert!(follow_s.contains(&Symbol::EndMarker));
}

#[test]
fn test_first_with_epsilon() {
    let lines = vec![
        "2".to_string(),
        "S -> AB".to_string(),
        "A -> a e".to_string(),
    ];

    let grammar = Grammar::parse(&lines).unwrap();
    let first_sets = compute_first_sets(&grammar);

    let first_a = first_sets.get(&Symbol::Nonterminal('A')).unwrap();
    assert!(first_a.contains(&Symbol::Terminal('a')));
    assert!(first_a.contains(&Symbol::Epsilon));
}

#[test]
fn test_first_of_string() {
    let lines = vec![
        "2".to_string(),
        "S -> AB".to_string(),
        "A -> a".to_string(),
    ];

    let grammar = Grammar::parse(&lines).unwrap();
    let first_sets = compute_first_sets(&grammar);

    let symbols = vec![Symbol::Nonterminal('A'), Symbol::Nonterminal('B')];
    let first = first_of_string(&first_sets, &symbols);

    assert!(first.contains(&Symbol::Terminal('a')));
}

#[test]
fn test_follow_propagation() {
    let lines = vec![
        "3".to_string(),
        "S -> AB".to_string(),
        "A -> a".to_string(),
        "B -> b".to_string(),
    ];

    let grammar = Grammar::parse(&lines).unwrap();
    let first_sets = compute_first_sets(&grammar);
    let follow_sets = compute_follow_sets(&grammar, &first_sets);

    let follow_a = follow_sets.get(&Symbol::Nonterminal('A')).unwrap();
    assert!(follow_a.contains(&Symbol::Terminal('b')));
}

#[test]
fn test_complex_first_follow() {
    let lines = vec![
        "3".to_string(),
        "S -> AB".to_string(),
        "A -> aA d".to_string(),
        "B -> bBc e".to_string(),
    ];

    let grammar = Grammar::parse(&lines).unwrap();
    let first_sets = compute_first_sets(&grammar);
    let follow_sets = compute_follow_sets(&grammar, &first_sets);

    let first_s = first_sets.get(&Symbol::Nonterminal('S')).unwrap();
    assert!(first_s.contains(&Symbol::Terminal('a')));
    assert!(first_s.contains(&Symbol::Terminal('d')));

    let follow_a = follow_sets.get(&Symbol::Nonterminal('A')).unwrap();
    assert!(follow_a.contains(&Symbol::Terminal('b')));
    assert!(follow_a.contains(&Symbol::EndMarker));
}

fn grammar_of(text: &[&str]) -> Grammar {
    let lines: Vec<String> = text.iter().map(|line| line.to_string()).collect();
    Grammar::parse(&lines).unwrap()
}

fn sorted(set: &SymbolSet) -> Vec<Symbol> {
    let mut members = set.to_vec();
    members.sort();
    members
}

fn set_of(symbols: &[Symbol]) -> SymbolSet {
    let mut set = SymbolSet::new();
    for symbol in symbols {
        set.insert(*symbol);
    }
    set
}

const A: Symbol = Symbol::Nonterminal('A');
const B: Symbol = Symbol::Nonterminal('B');
const S: Symbol = Symbol::Nonterminal('S');

#[test]
fn first_of_a_symbol_that_is_no_nonterminal_is_the_symbol() {
    let grammar = grammar_of(&["3", "S -> AB", "A -> aA d", "B -> bBc e"]);
    let first = compute_first_sets(&grammar);
    for terminal in ['a', 'b', 'c', 'd'] {
        let symbol = Symbol::Terminal(terminal);
        assert_eq!(first.get(&symbol).unwrap().to_vec(), vec![symbol]);
    }
    assert_eq!(first.get(&Symbol::Epsilon).unwrap().to_vec(), vec![Symbol::Epsilon]);
    assert_eq!(first.get(&Symbol::EndMarker).unwrap().to_vec(), vec![Symbol::EndMarker]);
    assert!(first.get(&Symbol::Terminal('x')).is_none());
}

#[test]
fn first_sets_are_the_least_solution() {
    let grammar = grammar_of(&["3", "S -> AB", "A -> aA d", "B -> bBc e"]);
    let first = compute_first_sets(&grammar);
    assert_eq!(sorted(first.get(&S).unwrap()), vec![Symbol::Terminal('a'), Symbol::Terminal('d')]);
    assert_eq!(sorted(first.get(&A).unwrap()), vec![Symbol::Terminal('a'), Symbol::Terminal('d')]);
    assert_eq!(sorted(first.get(&B).unwrap()), vec![Symbol::Epsilon, Symbol::Terminal('b')]);
}

#[test]
fn first_of_a_nonterminal_without_a_finite_derivation_is_empty() {
    let grammar = grammar_of(&["2", "S -> Sa", "A -> a"]);
    let first = compute_first_sets(&grammar);
    assert!(first.get(&S).unwrap().is_empty());
    assert_eq!(first.get(&A).unwrap().to_vec(), vec![Symbol::Terminal('a')]);
}

#[test]
fn first_passes_the_empty_string_through_a_chain() {
    let grammar = grammar_of(&["3", "S -> ABc", "A -> e a", "B -> A"]);
    let first = compute_first_sets(&grammar);
    assert_eq!(sorted(first.get(&A).unwrap()), vec![Symbol::Epsilon, Symbol::Terminal('a')]);
    assert_eq!(sorted(first.get(&B).unwrap()), vec![Symbol::Epsilon, Symbol::Terminal('a')]);
    assert_eq!(sorted(first.get(&S).unwrap()), vec![Symbol::Terminal('a'), Symbol::Terminal('c')]);
}

#[test]
fn follow_of_the_start_symbol_holds_the_end_marker() {
    for text in [
        vec!["1", "S -> a"],
        vec!["1", "A -> a"],
        vec!["2", "S -> Sa", "A -> a"],
        vec!["3", "S -> S+T T", "T -> T*F F", "F -> (S) i"],
    ] {
        let grammar = grammar_of(&text);
        let first = compute_first_sets(&grammar);
        let follow = compute_follow_sets(&grammar, &first);
        assert!(follow.get(&grammar.start_symbol()).unwrap().contains(&Symbol::EndMarker));
    }
}

#[test]
fn follow_sets_are_the_least_solution() {
    let grammar = grammar_of(&["3", "S -> AB", "A -> aA d", "B -> bBc e"]);
    let first = compute_first_sets(&grammar);
    let follow = compute_follow_sets(&grammar, &first);
    assert_eq!(sorted(follow.get(&S).unwrap()), vec![Symbol::EndMarker]);
    assert_eq!(sorted(follow.get(&A).unwrap()), vec![Symbol::Terminal('b'), Symbol::EndMarker]);
    assert_eq!(sorted(follow.get(&B).unwrap()), vec![Symbol::Terminal('c'), Symbol::EndMarker]);
    assert!(follow.get(&Symbol::Terminal('a')).is_none());
}

#[test]
fn follow_sets_of_the_expression_grammar() {
    let grammar = grammar_of(&["3", "S -> S+T T", "T -> T*F F", "F -> (S) i"]);
    let first = compute_first_sets(&grammar);
    let follow = compute_follow_sets(&grammar, &first);
    let plus = Symbol::Terminal('+');
    let times = Symbol::Terminal('*');
    let close = Symbol::Terminal(')');
    assert_eq!(sorted(follow.get(&S).unwrap()), vec![close, plus, Symbol::EndMarker]);
    assert_eq!(sorted(follow.get(&Symbol::Nonterminal('T')).unwrap()), vec![close, times, plus, Symbol::EndMarker]);
    assert_eq!(sorted(follow.get(&Symbol::Nonterminal('F')).unwrap()), vec![close, times, plus, Symbol::EndMarker]);
}

#[test]
fn computing_the_sets_again_gives_the_same_sets() {
    let grammar = grammar_of(&["3", "S -> AB", "A -> aA d e", "B -> bBc e"]);
    let first = compute_first_sets(&grammar);
    let again = compute_first_sets(&grammar);
    let follow = compute_follow_sets(&grammar, &first);
    let follow_again = compute_follow_sets(&grammar, &again);
    for symbol in [S, A, B, Symbol::Terminal('a'), Symbol::Epsilon, Symbol::EndMarker] {
        assert_eq!(sorted(first.get(&symbol).unwrap()), sorted(again.get(&symbol).unwrap()));
    }
    for symbol in [S, A, B] {
        assert_eq!(sorted(follow.get(&symbol).unwrap()), sorted(follow_again.get(&symbol).unwrap()));
    }
}

#[test]
fn first_of_a_sequence_stops_at_the_first_symbol_that_is_not_nullable() {
    let mut first = FirstSets::new();
    first.insert(A, set_of(&[Symbol::Terminal('a'), Symbol::Epsilon]));
    first.insert(B, set_of(&[Symbol::Terminal('b')]));
    first.insert(Symbol::Terminal('c'), set_of(&[Symbol::Terminal('c')]));
    assert_eq!(sorted(&first_of_string(&first, &[])), vec![Symbol::Epsilon]);
    assert_eq!(sorted(&first_of_string(&first, &[A])), vec![Symbol::Epsilon, Symbol::Terminal('a')]);
    assert_eq!(sorted(&first_of_string(&first, &[A, A])), vec![Symbol::Epsilon, Symbol::Terminal('a')]);
    assert_eq!(sorted(&first_of_string(&first, &[A, B])), vec![Symbol::Terminal('a'), Symbol::Terminal('b')]);
    assert_eq!(
        sorted(&first_of_string(&first, &[A, B, Symbol::Terminal('c')])),
        vec![Symbol::Terminal('a'), Symbol::Terminal('b')]
    );
    assert_eq!(sorted(&first_of_string(&first, &[B, A])), vec![Symbol::Terminal('b')]);
    assert_eq!(sorted(&first_of_string(&first, &[Symbol::Terminal('x'), A])), Vec::<Symbol>::new());
}

#[test]
fn follow_is_computed_by_the_given_first_sets() {
    let grammar = grammar_of(&["1", "S -> AB"]);
    let mut first = FirstSets::new();
    first.insert(B, set_of(&[Symbol::Terminal('x'), Symbol::Epsilon]));
    let follow = compute_follow_sets(&grammar, &first);
    assert_eq!(sorted(follow.get(&A).unwrap()), vec![Symbol::Terminal('x'), Symbol::EndMarker]);
    assert_eq!(sorted(follow.get(&B).unwrap()), vec![Symbol::EndMarker]);
}

#[test]
fn symbol_sets_and_maps_hold_what_was_inserted() {
    let mut set = SymbolSet::new();
    assert!(set.is_empty());
    assert!(set.insert(A));
    assert!(!set.insert(A));
    assert!(set.insert(B));
    assert_eq!(set.len(), 2);
    assert_eq!(set.get(0), A);
    assert_eq!(set.get(1), B);
    assert_eq!(set.clone().to_vec(), vec![A, B]);
    assert_eq!(SymbolSet::singleton(S).to_vec(), vec![S]);
    let mut other = set_of(&[B, Symbol::Epsilon, S]);
    assert!(set.absorb(&other, true));
    assert_eq!(set.to_vec(), vec![A, B, S]);
    assert!(!set.absorb(&other, true));
    assert!(set.absorb(&other, false));
    assert_eq!(set.to_vec(), vec![A, B, S, Symbol::Epsilon]);
    assert!(!other.absorb(&SymbolSet::new(), false));

    let mut map = FirstSets::new();
    assert!(!map.contains_key(&A));
    map.insert_all(&set_of(&[A, B]), true);
    assert_eq!(map.get(&A).unwrap().to_vec(), vec![A]);
    map.insert_all(&set_of(&[B, S]), false);
    assert!(map.get(&B).unwrap().is_empty());
    assert!(map.contains_key(&S));
    assert!(map.absorb(S, &set_of(&[A, Symbol::Epsilon]), true));
    assert_eq!(map.get(&S).unwrap().to_vec(), vec![A]);
    assert!(!map.absorb(S, &set_of(&[A]), false));
    assert!(map.absorb(Symbol::EndMarker, &set_of(&[A]), false));
    assert_eq!(map.get(&Symbol::EndMarker).unwrap().to_vec(), vec![A]);
    assert!(!map.absorb(Symbol::Epsilon, &SymbolSet::new(), false));
    assert!(map.get(&Symbol::Epsilon).unwrap().is_empty());
}

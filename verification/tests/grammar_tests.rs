use cfg_parser::error::GrammarError;
use cfg_parser::grammar::{Grammar, Production};
use cfg_parser::symbol::Symbol;

fn lines(text: &[&str]) -> Vec<String> {
    text.iter().map(|line| line.to_string()).collect()
}

#[test]
fn grammar_test_parse_simple_grammar() {
    let lines = vec![
        "2".to_string(),
        "S -> AB".to_string(),
        "A -> a".to_string(),
    ];

    let grammar = Grammar::parse(&lines).unwrap();
    assert_eq!(grammar.all_productions().len(), 2);
    assert!(grammar.nonterminals().contains(&Symbol::Nonterminal('S')));
    assert!(grammar.terminals().contains(&Symbol::Terminal('a')));
}

#[test]
fn grammar_test_parse_alternatives() {
    let lines = vec!["1".to_string(), "S -> a b c".to_string()];

    let grammar = Grammar::parse(&lines).unwrap();
    assert_eq!(grammar.all_productions().len(), 3);
}

#[test]
fn grammar_tests_test_parse_simple_grammar() {
    let lines = vec![
        "2".to_string(),
        "S -> AB".to_string(),
        "A -> a".to_string(),
    ];

    let grammar = Grammar::parse(&lines).unwrap();
    assert_eq!(grammar.all_productions().len(), 2);
    assert!(grammar.nonterminals().contains(&Symbol::Nonterminal('S')));
    assert!(grammar.terminals().contains(&Symbol::Terminal('a')));
}

#[test]
fn grammar_tests_test_parse_alternatives() {
    let lines = vec!["1".to_string(), "S -> a b c".to_string()];

    let grammar = Grammar::parse(&lines).unwrap();
    assert_eq!(grammar.all_productions().len(), 3);
}

#[test]
fn test_empty_grammar_error() {
    let lines: Vec<String> = vec![];
    let result = Grammar::parse(&lines);
    assert!(result.is_err());
}

#[test]
fn test_get_productions() {
    let lines = vec![
        "2".to_string(),
        "S -> AB AC".to_string(),
        "A -> a".to_string(),
    ];

    let grammar = Grammar::parse(&lines).unwrap();
    let s_prods = grammar.get_productions(Symbol::Nonterminal('S'));
    assert_eq!(s_prods.len(), 2);
}

#[test]
fn test_start_symbol() {
    let lines = vec!["1".to_string(), "S -> a".to_string()];

    let grammar = Grammar::parse(&lines).unwrap();
    assert_eq!(grammar.start_symbol(), Symbol::Nonterminal('S'));
}

#[test]
fn test_epsilon_production() {
    let lines = vec!["1".to_string(), "S -> e".to_string()];

    let grammar = Grammar::parse(&lines).unwrap();
    let prods = grammar.get_productions(Symbol::Nonterminal('S'));
    assert_eq!(prods[0].rhs, vec![Symbol::Epsilon]);
}

#[test]
fn test_complex_grammar() {
    let lines = vec![
        "3".to_string(),
        "S -> S+T T".to_string(),
        "T -> T*F F".to_string(),
        "F -> (S) i".to_string(),
    ];

    let grammar = Grammar::parse(&lines).unwrap();
    assert_eq!(grammar.all_productions().len(), 6);
    assert!(grammar.terminals().contains(&Symbol::Terminal('+')));
    assert!(grammar.terminals().contains(&Symbol::Terminal('*')));
    assert!(grammar.terminals().contains(&Symbol::Terminal('(')));
    assert!(grammar.terminals().contains(&Symbol::Terminal(')')));
    assert!(grammar.terminals().contains(&Symbol::Terminal('i')));
}

#[test]
fn productions_keep_the_order_of_declaration() {
    let grammar = Grammar::parse(&lines(&["2", "S -> AB c", "A -> a e"])).unwrap();
    let s = Symbol::Nonterminal('S');
    let a = Symbol::Nonterminal('A');
    let expected = vec![
        Production::new(s, vec![a, Symbol::Nonterminal('B')]),
        Production::new(s, vec![Symbol::Terminal('c')]),
        Production::new(a, vec![Symbol::Terminal('a')]),
        Production::new(a, vec![Symbol::Epsilon]),
    ];
    assert_eq!(grammar.all_productions(), expected.as_slice());
    assert_eq!(grammar.get_productions(s), &expected[0..2]);
    assert_eq!(grammar.get_productions(a), &expected[2..4]);
}

#[test]
fn a_nonterminal_of_a_right_hand_side_alone_has_no_production() {
    let grammar = Grammar::parse(&lines(&["1", "S -> AB"])).unwrap();
    assert!(grammar.nonterminals().contains(&Symbol::Nonterminal('A')));
    assert!(grammar.nonterminals().contains(&Symbol::Nonterminal('B')));
    assert_eq!(grammar.nonterminals().len(), 3);
    assert!(grammar.get_productions(Symbol::Nonterminal('A')).is_empty());
    assert!(grammar.get_productions(Symbol::Terminal('a')).is_empty());
    assert!(grammar.terminals().is_empty());
}

#[test]
fn the_symbol_sets_hold_the_symbols_of_the_productions() {
    let grammar = Grammar::parse(&lines(&["2", "S -> aAe$ b", "B -> e"])).unwrap();
    let mut nonterminals = grammar.nonterminals().to_vec();
    nonterminals.sort();
    assert_eq!(
        nonterminals,
        vec![Symbol::Nonterminal('A'), Symbol::Nonterminal('B'), Symbol::Nonterminal('S')]
    );
    let mut terminals = grammar.terminals().to_vec();
    terminals.sort();
    assert_eq!(terminals, vec![Symbol::Terminal('a'), Symbol::Terminal('b')]);
}

#[test]
fn the_start_symbol_does_not_depend_on_the_text() {
    let grammar = Grammar::parse(&lines(&["1", "A -> a"])).unwrap();
    assert_eq!(grammar.start_symbol(), Symbol::Nonterminal('S'));
    assert!(!grammar.nonterminals().contains(&Symbol::Nonterminal('S')));
}

#[test]
fn only_the_lines_that_the_count_covers_are_read() {
    let grammar = Grammar::parse(&lines(&["1", "S -> a", "this is no production"])).unwrap();
    assert_eq!(grammar.all_productions().len(), 1);
}

#[test]
fn white_space_around_the_parts_is_ignored() {
    let grammar = Grammar::parse(&lines(&[" \t+2 \n", "  S->ab\t c  ", "A  ->\u{a0}d\u{3000}"])).unwrap();
    let s = Symbol::Nonterminal('S');
    let expected = vec![
        Production::new(s, vec![Symbol::Terminal('a'), Symbol::Terminal('b')]),
        Production::new(s, vec![Symbol::Terminal('c')]),
        Production::new(Symbol::Nonterminal('A'), vec![Symbol::Terminal('d')]),
    ];
    assert_eq!(grammar.all_productions(), expected.as_slice());
}

#[test]
fn only_the_first_character_of_the_left_side_counts() {
    let grammar = Grammar::parse(&lines(&["1", "Sx -> a"])).unwrap();
    assert_eq!(grammar.all_productions()[0].lhs, Symbol::Nonterminal('S'));
}

#[test]
fn no_line_is_empty_input() {
    assert!(matches!(Grammar::parse(&[]), Err(GrammarError::EmptyInput)));
}

#[test]
fn no_production_is_empty_input() {
    assert!(matches!(Grammar::parse(&lines(&["0"])), Err(GrammarError::EmptyInput)));
    assert!(matches!(Grammar::parse(&lines(&["1", "S ->"])), Err(GrammarError::EmptyInput)));
    assert!(matches!(Grammar::parse(&lines(&["1", "S ->   "])), Err(GrammarError::EmptyInput)));
}

#[test]
fn a_first_line_that_is_no_count_is_an_invalid_format() {
    for text in ["", "  ", "x", "-1", "+", "-", "1 2", "1.5", "++1", "99999999999999999999999999", "12a", "٣"] {
        let expected = format!("Invalid number: {}", text.trim().parse::<usize>().unwrap_err());
        match Grammar::parse(&lines(&[text, "S -> a"])) {
            Err(GrammarError::InvalidFormat(message)) => assert_eq!(message, expected),
            _ => panic!("accepted {:?}", text),
        }
    }
    let large = format!("{}0x", usize::MAX);
    let expected = format!("Invalid number: {}", large.parse::<usize>().unwrap_err());
    match Grammar::parse(&lines(&[&large])) {
        Err(GrammarError::InvalidFormat(message)) => assert_eq!(message, expected),
        _ => panic!("accepted {:?}", large),
    }
}

#[test]
fn a_count_is_read_as_the_standard_library_reads_it() {
    for text in ["1", "+1", "01", "0001", " 1 ", "\t1\n"] {
        assert_eq!(text.trim().parse::<usize>(), Ok(1));
        let grammar = Grammar::parse(&lines(&[text, "S -> a"])).unwrap();
        assert_eq!(grammar.all_productions().len(), 1);
    }
    let largest = usize::MAX.to_string();
    match Grammar::parse(&lines(&[&largest, "S -> a"])) {
        Err(GrammarError::NotEnoughProductions { expected, actual }) => {
            assert_eq!(expected, usize::MAX);
            assert_eq!(actual, 1);
        },
        _ => panic!("the largest count was not read"),
    }
}

#[test]
fn fewer_lines_than_the_count_are_not_enough() {
    match Grammar::parse(&lines(&["3", "S -> a", "A -> b"])) {
        Err(GrammarError::NotEnoughProductions { expected, actual }) => {
            assert_eq!(expected, 3);
            assert_eq!(actual, 2);
        },
        _ => panic!("two lines passed for three"),
    }
    match Grammar::parse(&lines(&["1"])) {
        Err(GrammarError::NotEnoughProductions { expected, actual }) => {
            assert_eq!(expected, 1);
            assert_eq!(actual, 0);
        },
        _ => panic!("no line passed for one"),
    }
}

#[test]
fn a_line_without_one_arrow_is_an_invalid_production() {
    for line in ["S a", "S -> a -> b", "S - > a", "S >- a", "", "->->", "S ->-> a"] {
        match Grammar::parse(&lines(&["1", line])) {
            Err(GrammarError::InvalidProduction(text)) => assert_eq!(text, line),
            _ => panic!("accepted {:?}", line),
        }
    }
}

#[test]
fn an_arrow_may_touch_other_hyphens_and_signs() {
    let grammar = Grammar::parse(&lines(&["1", "S -->>"])).unwrap();
    assert_eq!(grammar.all_productions().len(), 1);
    assert_eq!(grammar.all_productions()[0].rhs, vec![Symbol::Terminal('>')]);
    let grammar = Grammar::parse(&lines(&["1", "S->-"])).unwrap();
    assert_eq!(grammar.all_productions()[0].rhs, vec![Symbol::Terminal('-')]);
}

#[test]
fn a_line_without_a_left_side_is_an_invalid_production() {
    for line in ["-> a", "   -> a b", "\t->"] {
        match Grammar::parse(&lines(&["1", line])) {
            Err(GrammarError::InvalidProduction(text)) => assert_eq!(text, "Empty left-hand side"),
            _ => panic!("accepted {:?}", line),
        }
    }
}

#[test]
fn a_left_side_that_is_no_uppercase_letter_is_an_invalid_production() {
    for line in ["s -> a", "e -> a", "$ -> a", "1 -> a", "É -> a", "- -> a"] {
        match Grammar::parse(&lines(&["1", line])) {
            Err(GrammarError::InvalidProduction(text)) => assert_eq!(text, line),
            _ => panic!("accepted {:?}", line),
        }
    }
}

#[test]
fn the_first_line_that_is_refused_is_reported() {
    match Grammar::parse(&lines(&["3", "S -> a", "b", "-> c"])) {
        Err(GrammarError::InvalidProduction(text)) => assert_eq!(text, "b"),
        _ => panic!("accepted a line without an arrow"),
    }
}

#[test]
fn productions_are_compared_and_displayed_by_their_sides() {
    let s = Symbol::Nonterminal('S');
    let one = Production::new(s, vec![Symbol::Terminal('a'), Symbol::Nonterminal('B')]);
    let same = Production::new(s, vec![Symbol::Terminal('a'), Symbol::Nonterminal('B')]);
    let shorter = Production::new(s, vec![Symbol::Terminal('a')]);
    let other = Production::new(Symbol::Nonterminal('T'), vec![Symbol::Terminal('a'), Symbol::Nonterminal('B')]);
    let empty = Production::new(s, vec![Symbol::Epsilon]);
    assert!(one.same(&same));
    assert!(!one.same(&shorter));
    assert!(!one.same(&other));
    assert!(!shorter.same(&one));
    assert_eq!(one.clone(), one);
    assert_eq!(one.to_string(), "S → aB");
    assert_eq!(empty.to_string(), "S → ε");
    assert!(empty.is_empty_rule());
    assert!(!one.is_empty_rule());
    assert!(!Production::new(s, vec![Symbol::Epsilon, Symbol::Epsilon]).is_empty_rule());
    assert_eq!(Production::new(s, vec![Symbol::Epsilon, Symbol::EndMarker]).to_string(), "S → ε$");
}

#[test]
fn a_grammar_is_displayed_one_production_on_a_line() {
    let grammar = Grammar::parse(&lines(&["2", "S -> AB e", "A -> a"])).unwrap();
    assert_eq!(grammar.to_string(), "S → AB\nS → ε\nA → a\n");
}

#[test]
fn a_copy_of_a_grammar_has_the_same_productions_and_symbols() {
    let grammar = Grammar::parse(&lines(&["2", "S -> AB e", "A -> a"])).unwrap();
    let copy = grammar.clone();
    assert_eq!(copy.all_productions(), grammar.all_productions());
    assert_eq!(copy.nonterminals().to_vec(), grammar.nonterminals().to_vec());
    assert_eq!(copy.terminals().to_vec(), grammar.terminals().to_vec());
    assert_eq!(copy.start_symbol(), grammar.start_symbol());
    let s = Symbol::Nonterminal('S');
    assert_eq!(copy.get_productions(s), grammar.get_productions(s));
    assert!(copy.get_productions(Symbol::Nonterminal('B')).is_empty());
}

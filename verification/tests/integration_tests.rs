use cfg_parser::first_follow::{compute_first_sets, compute_follow_sets};
use cfg_parser::grammar::Grammar;
use cfg_parser::ll1::LL1Parser;
use cfg_parser::slr1::SLR1Parser;

#[test]
fn test_example1_slr1_grammar() {
    let lines = vec![
        "3".to_string(),
        "S -> S+T T".to_string(),
        "T -> T*F F".to_string(),
        "F -> (S) i".to_string(),
    ];

    let grammar = Grammar::parse(&lines).unwrap();
    let first_sets = compute_first_sets(&grammar);
    let follow_sets = compute_follow_sets(&grammar, &first_sets);

    let slr1_result = SLR1Parser::build(grammar.clone(), follow_sets.clone());
    assert!(slr1_result.is_ok(), "Grammar should be SLR(1)");

    let ll1_result = LL1Parser::build(grammar, first_sets, follow_sets);
    assert!(ll1_result.is_err(), "Grammar should not be LL(1)");

    let parser = slr1_result.unwrap();
    assert!(parser.parse("i+i"), "Should accept 'i+i'");
    assert!(parser.parse("(i)"), "Should accept '(i)'");
    assert!(!parser.parse("(i+i)*i)"), "Should reject '(i+i)*i)'");
}

#[test]
fn test_example2_both_ll1_and_slr1() {
    let lines = vec![
        "3".to_string(),
        "S -> AB".to_string(),
        "A -> aA d".to_string(),
        "B -> bBc e".to_string(),
    ];

    let grammar = Grammar::parse(&lines).unwrap();
    let first_sets = compute_first_sets(&grammar);
    let follow_sets = compute_follow_sets(&grammar, &first_sets);

    let ll1_result = LL1Parser::build(grammar.clone(), first_sets.clone(), follow_sets.clone());
    let slr1_result = SLR1Parser::build(grammar, follow_sets);

    assert!(ll1_result.is_ok(), "Grammar should be LL(1)");
    assert!(slr1_result.is_ok(), "Grammar should be SLR(1)");

    let ll1_parser = ll1_result.unwrap();
    assert!(ll1_parser.parse("d"), "LL(1): Should accept 'd'");
    assert!(ll1_parser.parse("adbc"), "LL(1): Should accept 'adbc'");
    assert!(!ll1_parser.parse("a"), "LL(1): Should reject 'a'");

    let slr1_parser = slr1_result.unwrap();
    assert!(slr1_parser.parse("d"), "SLR(1): Should accept 'd'");
    assert!(slr1_parser.parse("adbc"), "SLR(1): Should accept 'adbc'");
    assert!(!slr1_parser.parse("a"), "SLR(1): Should reject 'a'");
}

#[test]
fn test_example3_neither_ll1_nor_slr1() {
    let lines = vec![
        "2".to_string(),
        "S -> A".to_string(),
        "A -> A b".to_string(),
    ];

    let grammar = Grammar::parse(&lines).unwrap();
    let first_sets = compute_first_sets(&grammar);
    let follow_sets = compute_follow_sets(&grammar, &first_sets);

    let ll1_result = LL1Parser::build(grammar.clone(), first_sets, follow_sets.clone());
    let slr1_result = SLR1Parser::build(grammar, follow_sets);

    assert!(ll1_result.is_err(), "Grammar should not be LL(1)");
    assert!(slr1_result.is_err(), "Grammar should not be SLR(1)");
}

#[test]
fn test_complex_expression_parsing() {
    let lines = vec![
        "3".to_string(),
        "S -> S+T T".to_string(),
        "T -> T*F F".to_string(),
        "F -> (S) i".to_string(),
    ];

    let grammar = Grammar::parse(&lines).unwrap();
    let first_sets = compute_first_sets(&grammar);
    let follow_sets = compute_follow_sets(&grammar, &first_sets);
    let parser = SLR1Parser::build(grammar, follow_sets).unwrap();

    assert!(parser.parse("i"));
    assert!(parser.parse("i+i+i"));
    assert!(parser.parse("i*i*i"));
    assert!(parser.parse("i+i*i+i"));
    assert!(parser.parse("(i+i)*(i+i)"));
    assert!(parser.parse("((i))"));

    assert!(!parser.parse(""));
    assert!(!parser.parse("("));
    assert!(!parser.parse(")"));
    assert!(!parser.parse("i+"));
    assert!(!parser.parse("+i"));
    assert!(!parser.parse("i++i"));
}

#[test]
fn test_epsilon_productions() {
    let lines = vec![
        "3".to_string(),
        "S -> AB".to_string(),
        "A -> aA d".to_string(),
        "B -> bBc e".to_string(),
    ];

    let grammar = Grammar::parse(&lines).unwrap();
    let first_sets = compute_first_sets(&grammar);
    let follow_sets = compute_follow_sets(&grammar, &first_sets);

    let ll1_parser = LL1Parser::build(grammar.clone(), first_sets.clone(), follow_sets.clone()).unwrap();
    let slr1_parser = SLR1Parser::build(grammar, follow_sets).unwrap();

    assert!(ll1_parser.parse("d"));
    assert!(slr1_parser.parse("d"));

    assert!(ll1_parser.parse("ad"));
    assert!(slr1_parser.parse("ad"));
}

fn recognizers(text: &[&str]) -> (Option<LL1Parser>, Option<SLR1Parser>) {
    let lines: Vec<String> = text.iter().map(|line| line.to_string()).collect();
    let grammar = Grammar::parse(&lines).unwrap();
    let first_sets = compute_first_sets(&grammar);
    let follow_sets = compute_follow_sets(&grammar, &first_sets);
    let top_down = LL1Parser::build(grammar.clone(), first_sets, follow_sets.clone()).ok();
    let bottom_up = SLR1Parser::build(grammar, follow_sets).ok();
    (top_down, bottom_up)
}

#[test]
fn both_recognizers_agree_on_a_grammar_of_both_classes() {
    let (top_down, bottom_up) = recognizers(&["3", "S -> AB", "A -> aA d", "B -> bBc e"]);
    let top_down = top_down.unwrap();
    let bottom_up = bottom_up.unwrap();
    for text in ["d", "adbc", "ad", "aad", "dbc"] {
        assert!(top_down.parse(text));
        assert!(bottom_up.parse(text));
    }
    for text in ["a", "b", "abc", "dd"] {
        assert!(!top_down.parse(text));
        assert!(!bottom_up.parse(text));
    }
    for text in ["", "dbbcc", "aaadbbbccc", "dbcc", "dbbc", "da", "e", "de", "x", "dx"] {
        assert_eq!(top_down.parse(text), bottom_up.parse(text));
    }
}

#[test]
fn the_expression_grammar_is_bottom_up_only() {
    let (top_down, bottom_up) = recognizers(&["3", "S -> S+T T", "T -> T*F F", "F -> (S) i"]);
    assert!(top_down.is_none());
    let bottom_up = bottom_up.unwrap();
    for text in ["i", "i+i", "i*i", "i+i*i", "(i+i)*(i+i)", "((i))"] {
        assert!(bottom_up.parse(text));
    }
    for text in ["", "(", ")", "i+", "+i", "i++i", "(i+i)*i)"] {
        assert!(!bottom_up.parse(text));
    }
}

#[test]
fn left_recursion_without_a_guard_is_in_neither_class() {
    let (top_down, bottom_up) = recognizers(&["2", "S -> A", "A -> A b"]);
    assert!(top_down.is_none());
    assert!(bottom_up.is_none());
}

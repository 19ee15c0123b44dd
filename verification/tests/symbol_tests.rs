use cfg_parser::symbol::{string_to_symbols, symbols_to_string, Symbol};

#[test]
fn test_symbol_from_char() {
    assert!(Symbol::from_char('A').is_nonterminal());
    assert!(Symbol::from_char('a').is_terminal());
    assert!(Symbol::from_char('e').is_epsilon());
    assert!(Symbol::from_char('$').is_end_marker());
    assert!(Symbol::from_char('+').is_terminal());
}

#[test]
fn test_symbol_ordering() {
    assert!(Symbol::Epsilon < Symbol::Terminal('a'));
    assert!(Symbol::Terminal('a') < Symbol::Nonterminal('A'));
    assert!(Symbol::Nonterminal('A') < Symbol::EndMarker);
}

#[test]
fn test_string_conversion() {
    let symbols = string_to_symbols("AaB");
    assert_eq!(symbols.len(), 3);
    assert!(symbols[0].is_nonterminal());
    assert!(symbols[1].is_terminal());
    assert!(symbols[2].is_nonterminal());
}

#[test]
fn test_symbols_to_string() {
    let symbols = vec![
        Symbol::Nonterminal('S'),
        Symbol::Terminal('a'),
        Symbol::EndMarker,
    ];
    let s = symbols_to_string(&symbols);
    assert_eq!(s, "Sa$");
}

#[test]
fn test_symbol_equality() {
    assert_eq!(Symbol::Terminal('a'), Symbol::Terminal('a'));
    assert_ne!(Symbol::Terminal('a'), Symbol::Terminal('b'));
    assert_ne!(Symbol::Terminal('a'), Symbol::Nonterminal('A'));
}

#[test]
fn test_epsilon_special_case() {
    let epsilon = Symbol::from_char('e');
    assert!(epsilon.is_epsilon());
    assert!(!epsilon.is_terminal());
    assert!(!epsilon.is_nonterminal());
}

#[test]
fn classification_of_each_kind_is_exact() {
    assert_eq!(Symbol::from_char('A'), Symbol::Nonterminal('A'));
    assert_eq!(Symbol::from_char('Z'), Symbol::Nonterminal('Z'));
    assert_eq!(Symbol::from_char('e'), Symbol::Epsilon);
    assert_eq!(Symbol::from_char('$'), Symbol::EndMarker);
    assert_eq!(Symbol::from_char('a'), Symbol::Terminal('a'));
    assert_eq!(Symbol::from_char('7'), Symbol::Terminal('7'));
    assert_eq!(Symbol::from_char('@'), Symbol::Terminal('@'));
    assert_eq!(Symbol::from_char('['), Symbol::Terminal('['));
    assert_eq!(Symbol::from_char('É'), Symbol::Terminal('É'));
    assert_eq!(Symbol::from_char(' '), Symbol::Terminal(' '));
}

#[test]
fn as_char_gives_the_stored_character_only() {
    assert_eq!(Symbol::Terminal('x').as_char(), Some('x'));
    assert_eq!(Symbol::Nonterminal('X').as_char(), Some('X'));
    assert_eq!(Symbol::Epsilon.as_char(), None);
    assert_eq!(Symbol::EndMarker.as_char(), None);
}

#[test]
fn symbols_are_displayed_as_their_glyphs() {
    assert_eq!(Symbol::Terminal('x').to_string(), "x");
    assert_eq!(Symbol::Nonterminal('X').to_string(), "X");
    assert_eq!(Symbol::Epsilon.to_string(), "ε");
    assert_eq!(Symbol::EndMarker.to_string(), "$");
    assert_eq!(Symbol::Epsilon.to_char(), 'ε');
    let symbols = vec![Symbol::Epsilon, Symbol::Terminal('b'), Symbol::EndMarker];
    assert_eq!(symbols_to_string(&symbols), "εb$");
    assert_eq!(symbols_to_string(&[]), "");
}

#[test]
fn string_to_symbols_classifies_each_character() {
    assert_eq!(
        string_to_symbols("aAe$+"),
        vec![
            Symbol::Terminal('a'),
            Symbol::Nonterminal('A'),
            Symbol::Epsilon,
            Symbol::EndMarker,
            Symbol::Terminal('+'),
        ]
    );
    assert_eq!(string_to_symbols(""), Vec::<Symbol>::new());
    assert_eq!(string_to_symbols("é→"), vec![Symbol::Terminal('é'), Symbol::Terminal('→')]);
}

#[test]
fn order_is_by_kind_then_by_character() {
    let ordered = vec![
        Symbol::Epsilon,
        Symbol::Terminal('a'),
        Symbol::Terminal('b'),
        Symbol::Nonterminal('A'),
        Symbol::Nonterminal('B'),
        Symbol::EndMarker,
    ];
    for i in 0..ordered.len() {
        for j in 0..ordered.len() {
            assert_eq!(ordered[i] < ordered[j], i < j);
            assert_eq!(ordered[i] > ordered[j], i > j);
            assert_eq!(ordered[i] <= ordered[j], i <= j);
            assert_eq!(ordered[i].partial_cmp(&ordered[j]), Some(i.cmp(&j)));
            assert_eq!(ordered[i].cmp(&ordered[j]), i.cmp(&j));
        }
    }
    let mut shuffled = vec![
        Symbol::EndMarker,
        Symbol::Nonterminal('B'),
        Symbol::Terminal('b'),
        Symbol::Epsilon,
        Symbol::Nonterminal('A'),
        Symbol::Terminal('a'),
    ];
    shuffled.sort();
    assert_eq!(shuffled, ordered);
}

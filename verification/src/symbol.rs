//! The grammar alphabet: terminals, nonterminals, the empty string and the
//! end-of-input marker.

use vstd::prelude::*;

verus! {

/// A symbol of a context-free grammar.
///
/// The variants are declared in their display order: the empty string comes
/// first, then the terminals, then the nonterminals, then the end marker.
#[derive(Debug, Clone, Copy, PartialEq, Eq, Ord, Hash, Structural)]
pub enum Symbol {
    /// The empty string.
    Epsilon,
    /// A terminal: any character that is not reserved for another variant.
    Terminal(char),
    /// A nonterminal, written as an uppercase ASCII letter.
    Nonterminal(char),
    /// The end-of-input marker.
    EndMarker,
}

/// The character that denotes the empty string in grammar text.
pub const EPSILON_CHAR: char = 'e';

/// The character that denotes the end of input.
pub const END_MARKER_CHAR: char = '$';

/// The glyph that the empty string is displayed as.
pub const EPSILON_GLYPH: char = 'ε';

/// Whether `c` is an uppercase ASCII letter.
pub open spec fn is_upper(c: char) -> bool {
    'A' <= c && c <= 'Z'
}

/// The symbol that a character of grammar text stands for.
pub open spec fn classify(c: char) -> Symbol {
    if is_upper(c) {
        Symbol::Nonterminal(c)
    } else if c == EPSILON_CHAR {
        Symbol::Epsilon
    } else if c == END_MARKER_CHAR {
        Symbol::EndMarker
    } else {
        Symbol::Terminal(c)
    }
}

/// The symbols of a text, character by character.
pub open spec fn classify_all(s: Seq<char>) -> Seq<Symbol> {
    Seq::new(s.len(), |i: int| classify(s[i]))
}

impl Symbol {
    /// The character a symbol is displayed as.
    pub open spec fn glyph(self) -> char {
        match self {
            Symbol::Terminal(c) => c,
            Symbol::Nonterminal(c) => c,
            Symbol::Epsilon => EPSILON_GLYPH,
            Symbol::EndMarker => END_MARKER_CHAR,
        }
    }

    /// The place of the symbol's kind in the order of symbols.
    pub open spec fn rank(self) -> nat {
        match self {
            Symbol::Epsilon => 0,
            Symbol::Terminal(_) => 1,
            Symbol::Nonterminal(_) => 2,
            Symbol::EndMarker => 3,
        }
    }

    /// Whether the symbol comes before `other` in the order of symbols: the
    /// empty string, the terminals by character, the nonterminals by
    /// character, the end marker.
    pub open spec fn precedes(self, other: Symbol) -> bool {
        self.rank() < other.rank() || (self.rank() == other.rank() && match (self, other) {
            (Symbol::Terminal(a), Symbol::Terminal(b)) => a < b,
            (Symbol::Nonterminal(a), Symbol::Nonterminal(b)) => a < b,
            _ => false,
        })
    }

    /// Whether the symbol is the classification of some character.
    pub open spec fn is_classified(self) -> bool {
        match self {
            Symbol::Terminal(c) => !is_upper(c) && c != EPSILON_CHAR && c != END_MARKER_CHAR,
            Symbol::Nonterminal(c) => is_upper(c),
            Symbol::Epsilon => true,
            Symbol::EndMarker => true,
        }
    }

    /// Classifies a character of grammar text.
    pub fn from_char(c: char) -> (sym: Symbol)
        ensures
            sym == classify(c),
            sym.is_classified(),
    {
        if 'A' <= c && c <= 'Z' {
            Symbol::Nonterminal(c)
        } else if c == EPSILON_CHAR {
            Symbol::Epsilon
        } else if c == END_MARKER_CHAR {
            Symbol::EndMarker
        } else {
            Symbol::Terminal(c)
        }
    }

    /// Whether the symbol is a terminal.
    pub fn is_terminal(&self) -> (b: bool)
        ensures
            b == (*self is Terminal),
    {
        match self {
            Symbol::Terminal(_) => true,
            _ => false,
        }
    }

    /// Whether the symbol is a nonterminal.
    pub fn is_nonterminal(&self) -> (b: bool)
        ensures
            b == (*self is Nonterminal),
    {
        match self {
            Symbol::Nonterminal(_) => true,
            _ => false,
        }
    }

    /// Whether the symbol is the empty string.
    pub fn is_epsilon(&self) -> (b: bool)
        ensures
            b == (*self is Epsilon),
    {
        match self {
            Symbol::Epsilon => true,
            _ => false,
        }
    }

    /// Whether the symbol is the end marker.
    pub fn is_end_marker(&self) -> (b: bool)
        ensures
            b == (*self is EndMarker),
    {
        match self {
            Symbol::EndMarker => true,
            _ => false,
        }
    }

    /// The character a terminal or nonterminal was written as.
    pub fn as_char(&self) -> (c: Option<char>)
        ensures
            c == match *self {
                Symbol::Terminal(x) => Some(x),
                Symbol::Nonterminal(x) => Some(x),
                Symbol::Epsilon => None::<char>,
                Symbol::EndMarker => None::<char>,
            },
    {
        match self {
            Symbol::Terminal(c) => Some(*c),
            Symbol::Nonterminal(c) => Some(*c),
            Symbol::Epsilon => None,
            Symbol::EndMarker => None,
        }
    }

    /// The symbol as text: its glyph.
    pub fn to_string(&self) -> (s: String)
        ensures
            s@ == seq![self.glyph()],
    {
        let mut s = String::new();
        s.push(self.to_char());
        assert(s@ =~= seq![self.glyph()]);
        s
    }

    /// The character the symbol is displayed as.
    pub fn to_char(&self) -> (c: char)
        ensures
            c == self.glyph(),
    {
        match self {
            Symbol::Terminal(c) => *c,
            Symbol::Nonterminal(c) => *c,
            Symbol::Epsilon => EPSILON_GLYPH,
            Symbol::EndMarker => END_MARKER_CHAR,
        }
    }
}

/// `String::push` appends its character to the end of the string.
pub assume_specification[ String::push ](s: &mut String, ch: char)
    ensures
        final(s)@ == old(s)@.push(ch),
;

/// The glyphs of a sequence of symbols.
pub open spec fn glyphs(symbols: Seq<Symbol>) -> Seq<char> {
    Seq::new(symbols.len(), |i: int| symbols[i].glyph())
}

/// Classifies each character of `s`.
pub fn string_to_symbols(s: &str) -> (symbols: Vec<Symbol>)
    ensures
        symbols@ == classify_all(s@),
        forall|i: int| 0 <= i < symbols@.len() ==> (#[trigger] symbols@[i]).is_classified(),
{
    let mut symbols: Vec<Symbol> = Vec::new();
    for c in iter: s.chars()
        invariant
            iter.seq() == s@,
            symbols@ == classify_all(s@.take(iter.index() as int)),
            forall|j: int| 0 <= j < symbols@.len() ==> (#[trigger] symbols@[j]).is_classified(),
    {
        proof {
            let i = iter.index() as int;
            assert(classify_all(s@.take(i + 1)) =~= classify_all(s@.take(i)).push(classify(s@[i])));
        }
        symbols.push(Symbol::from_char(c));
    }
    proof {
        assert(s@.take(s@.len() as int) =~= s@);
    }
    symbols
}

/// Writes each symbol of `symbols` as its glyph.
pub fn symbols_to_string(symbols: &[Symbol]) -> (s: String)
    ensures
        s@ == glyphs(symbols@),
{
    let mut s = String::new();
    let mut i: usize = 0;
    while i < symbols.len()
        invariant
            i <= symbols.len(),
            s@ == glyphs(symbols@.take(i as int)),
        decreases symbols.len() - i,
    {
        s.push(symbols[i].to_char());
        assert(glyphs(symbols@.take(i as int + 1)) =~= glyphs(symbols@.take(i as int)).push(
            symbols@[i as int].glyph(),
        ));
        i += 1;
    }
    assert(symbols@.take(i as int) =~= symbols@);
    s
}

} // verus!

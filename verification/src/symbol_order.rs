//! The order of symbols: the empty string first, then the terminals by
//! character, then the nonterminals by character, then the end marker.

use std::cmp::Ordering;
use vstd::prelude::*;
use vstd::std_specs::cmp::PartialOrdSpecImpl;
use crate::symbol::Symbol;

verus! {

impl PartialOrd for Symbol {
    fn partial_cmp(&self, other: &Symbol) -> (r: Option<Ordering>) {
        match (self, other) {
            (Symbol::Epsilon, Symbol::Epsilon) => Some(Ordering::Equal),
            (Symbol::Epsilon, _) => Some(Ordering::Less),
            (_, Symbol::Epsilon) => Some(Ordering::Greater),
            (Symbol::EndMarker, Symbol::EndMarker) => Some(Ordering::Equal),
            (Symbol::EndMarker, _) => Some(Ordering::Greater),
            (_, Symbol::EndMarker) => Some(Ordering::Less),
            (Symbol::Terminal(_), Symbol::Nonterminal(_)) => Some(Ordering::Less),
            (Symbol::Nonterminal(_), Symbol::Terminal(_)) => Some(Ordering::Greater),
            (Symbol::Terminal(a), Symbol::Terminal(b)) => {
                if *a < *b {
                    Some(Ordering::Less)
                } else if *a == *b {
                    Some(Ordering::Equal)
                } else {
                    Some(Ordering::Greater)
                }
            },
            (Symbol::Nonterminal(a), Symbol::Nonterminal(b)) => {
                if *a < *b {
                    Some(Ordering::Less)
                } else if *a == *b {
                    Some(Ordering::Equal)
                } else {
                    Some(Ordering::Greater)
                }
            },
        }
    }
}

impl PartialOrdSpecImpl for Symbol {
    open spec fn obeys_partial_cmp_spec() -> bool {
        true
    }

    open spec fn partial_cmp_spec(&self, other: &Symbol) -> Option<Ordering> {
        if self.precedes(*other) {
            Some(Ordering::Less)
        } else if *self == *other {
            Some(Ordering::Equal)
        } else {
            Some(Ordering::Greater)
        }
    }
}

} // verus!

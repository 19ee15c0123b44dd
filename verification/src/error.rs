//! The failures of grammar construction and of the two table builders.

use vstd::prelude::*;

verus! {

/// Why a grammar could not be read, or a recognizer not be built.
#[derive(Debug)]
pub enum GrammarError {
    /// The first line is not a count of production lines.
    InvalidFormat(String),
    /// A production line is malformed.
    InvalidProduction(String),
    /// There is no line, or no production.
    EmptyInput,
    /// Fewer production lines follow the count than it announces.
    NotEnoughProductions { expected: usize, actual: usize },
    /// Two different productions claim one cell of the LL(1) table.
    LL1Conflict { nonterminal: String, terminal: String, prod1: String, prod2: String },
    /// A shift and another action claim one cell of the SLR(1) table.
    SLR1ShiftReduceConflict { state: usize, symbol: String },
    /// Two reductions claim one cell of the SLR(1) table.
    SLR1ReduceReduceConflict { state: usize, symbol: String, prod1: String, prod2: String },
    /// Input could not be read.
    Io(String),
    /// Input could not be parsed.
    ParseError(String),
}

} // verus!

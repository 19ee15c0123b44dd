//! Classification of context-free grammars as LL(1) and SLR(1), with
//! table-driven recognizers for the grammars that qualify.
//!
//! A grammar is read from text (`grammar`, `text`) over an alphabet of
//! single characters (`symbol`). Its FIRST and FOLLOW sets are the least
//! solutions of their rules (`first_follow`). By them the LL(1) table is
//! built (`ll1`), and the SLR(1) tables (`slr1`) on the canonical collection
//! of sets of LR(0) items (`lr0`). Each build yields a recognizer or the
//! first conflict (`error`). What the recognizers accept is related to what
//! the grammar derives in `ll1_language` and `slr1_language`, and the two
//! recognizers to each other in `agreement`.

pub mod agreement;
pub mod error;
pub mod first_follow;
pub mod grammar;
pub mod ll1;
pub mod ll1_language;
pub mod lr0;
pub mod slr1;
pub mod slr1_language;
pub mod state_map;
pub mod symbol;
pub mod symbol_order;
pub mod symbol_set;
pub mod text;

pub use error::GrammarError;
pub use grammar::{Grammar, Production};
pub use ll1::LL1Parser;
pub use slr1::SLR1Parser;
pub use symbol::Symbol;

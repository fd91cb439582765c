//! Canonical LR(1) parsing-table construction.
//!
//! The crate models a context-free grammar as an ordered list of production
//! rules over tagged terminal / nonterminal symbols, computes the FIRST set
//! of every nonterminal, builds the canonical collection of LR(1) item sets
//! together with its `goto` transition map, and derives the ACTION table a
//! shift-reduce driver would consult.

pub mod laws;
pub mod parser;
pub mod rule;

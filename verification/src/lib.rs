//! Aho-Corasick multi-pattern string matching automaton.
use vstd::prelude::*;

pub mod automaton;
pub mod laws;
mod lemmas;
mod links;
pub mod spec;
mod trie;

pub use crate::automaton::AhoCorasick;

verus! {

/// A pattern occurrence found in the text.
#[derive(Debug, Clone, Copy, PartialEq, Eq, Structural)]
pub struct Match {
    /// Index of the matched pattern (order it was inserted).
    pub pattern_id: usize,
    /// Start position in the text (inclusive).
    pub start: usize,
    /// End position in the text (exclusive).
    pub end: usize,
}

} // verus!

//! Approximate string matching: Levenshtein distance, an incremental
//! edit-distance automaton, and two indexes (a BK-tree and a trie) that
//! answer best-match queries within a bounded number of edits.
pub mod bits;
pub mod bktree;
pub mod deltas;
pub mod edits;
pub mod levenshtein;
pub mod listing;
pub mod metric;
pub mod myers;
pub mod trie;

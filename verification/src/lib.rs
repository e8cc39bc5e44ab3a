//! Counting induced subgraphs (network motifs) of a fixed size in a directed
//! host graph.
//!
//! Query patterns are organised in a g-trie: a prefix tree over the rows of
//! canonical adjacency matrices, so that patterns sharing a prefix are stored
//! once.  A single backtracking traversal of the trie against the host graph
//! yields the count of every stored pattern simultaneously.  Symmetry-breaking
//! conditions attached to the trie nodes ensure each induced occurrence is
//! counted exactly once per pattern.

pub mod bitgraph;
pub mod bits;
pub mod census;
pub mod gtrie;
pub mod io;
pub mod isomorphism;
pub mod node;
pub mod symmetry;

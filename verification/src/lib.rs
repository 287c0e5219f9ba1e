//! Maximal-clique enumeration for undirected graphs of `u32` vertex
//! identifiers, by the pivoted Bron-Kerbosch backtracking search.
//!
//! [`graph`] holds the adjacency model built symmetrically from an edge
//! list, [`vset`] the sorted vertex sets the search works on, [`search`] the
//! engine with its correctness contract, and [`stats`] the per-node records
//! that cliques are joined back onto.

pub mod graph;
pub mod search;
pub mod stats;
pub mod vset;

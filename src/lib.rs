//! Exact-length simple paths in undirected, unweighted graphs.
pub mod exact;
pub mod graph;
pub mod search;
pub mod uniform;
pub mod yen;

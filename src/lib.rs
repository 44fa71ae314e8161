//! Compressed-sparse-row adjacency built from an unordered edge list, with
//! directed and undirected graph views on top of it.

pub mod csr;
pub mod edges;
pub mod graph;

pub use csr::{prefix_sum, sort_targets, CSR};
pub use edges::{Direction, EdgeList};
pub use graph::{DirectedCSRGraph, UndirectedCSRGraph};

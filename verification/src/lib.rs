//! Descriptive statistics over a static, directed graph given as an edge list:
//! out-degrees, clustering, breadth-first distances, paths and the diameter.
//!
//! Nodes are the integers `0..n`. A graph is modelled by its adjacency
//! sequence, a `Seq<Seq<usize>>` with one list of successors per node, and
//! every contract in this crate is stated over that model.

pub mod clustering;
pub mod discovery;
pub mod edge_list;
pub mod error;
pub mod graph;
pub mod metrics;
pub mod sampler;
mod search;
pub mod traversal;
pub mod tree;
pub mod walk;

//! A graph stored as one list of outgoing edges per node.
pub mod edge;
pub mod node;
pub mod graph;
pub mod iter;

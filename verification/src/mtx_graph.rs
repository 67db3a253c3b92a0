//! A graph stored as a square matrix of edge weights.
pub mod frontier;
pub mod graph;
pub mod iter;
pub mod path;

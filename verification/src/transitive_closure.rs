//! Reachability matrices and strongly connected components.
pub mod mtx;
pub mod bfs;
pub mod tarjan;
pub mod purdoms;

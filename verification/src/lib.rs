//! Graph algorithms over two interchangeable graph representations.
//!
//! [`list_graph`] stores, per node, a growing list of outgoing edges;
//! [`mtx_graph`] stores a flat row-major matrix of edge weights.
//! [`reach`] holds the mathematical model both are measured against: a
//! directed graph as a sequence of successor sets, walks through it, and
//! reachability. [`search`] describes a traversal in progress, and
//! [`orientation`] the tag that tells directed from undirected graphs.
//! [`transitive_closure`] computes reachability matrices and strongly
//! connected components.
pub mod orientation;
pub mod reach;
pub mod search;
pub mod list_graph;
pub mod mtx_graph;
pub mod transitive_closure;

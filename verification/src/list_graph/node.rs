//! A node with its payload and its outgoing edges.
use vstd::prelude::*;
use super::edge::Edge;

verus! {

/// A node: the value it carries and its outgoing edges, oldest first.
pub struct Node<T, W> {
    pub data: T,
    pub edges: Vec<Edge<W>>,
}

impl<T, W> Node<T, W> {
    /// A node that carries `data` and has the given outgoing edges.
    pub fn new(data: T, edges: Vec<Edge<W>>) -> (n: Self)
        ensures
            n == (Node { data, edges }),
    {
        Self { data, edges }
    }
}

} // verus!

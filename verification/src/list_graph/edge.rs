//! An outgoing edge of a node.
use vstd::prelude::*;

verus! {

/// An edge to the node with index `next`, carrying `weight`.
pub struct Edge<W> {
    pub weight: W,
    pub next: usize,
}

impl<W> Edge<W> {
    /// An edge with the given weight to the node `next`.
    pub fn new(weight: W, next: usize) -> (e: Self)
        ensures
            e == (Edge { weight, next }),
    {
        Self { weight, next }
    }
}

} // verus!

//! The type-level tag that says whether a graph's edges have a direction.
use vstd::prelude::*;

verus! {

/// Implemented by the marker types that tag a graph as directed or
/// undirected. An undirected graph keeps its edges symmetric.
pub trait Orientation {
    /// `true` for a tag whose graphs hold one-way edges.
    spec fn directed() -> bool;
}

} // verus!

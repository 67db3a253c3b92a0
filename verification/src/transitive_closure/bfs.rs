//! The transitive closure by one traversal per node.
use vstd::prelude::*;
use std::hash::Hash;
use super::mtx::{closure_of, square_of, TransitiveClosureMtx};
use crate::list_graph::graph::Graph;
use crate::mtx_graph::graph::{Graph as MtxGraph, GraphIdx};
use crate::orientation::Orientation;
use crate::search::lemma_contains_push;

verus! {

/// Computes the transitive closure matrix of a given graph by doing a
/// breadth-first traversal from each node.
///
/// The cell in row `i` and column `j` of the result is `true` exactly
/// where `j` is reached from `i`; every node reaches itself.
pub fn bfs_compute_closure_mtx<V, D: Orientation>(graph: &Graph<V, D>) -> (mtx: TransitiveClosureMtx)
    requires
        graph.wf(),
    ensures
        closure_of(mtx@, graph.adjacency()),
{
    let n = graph.len();
    let ghost g = graph.adjacency();
    let mut mtx = TransitiveClosureMtx::from_len(n);
    let mut y: usize = 0;
    while y < n
        invariant
            y <= n,
            n == graph@.len(),
            g == graph.adjacency(),
            graph.wf(),
            square_of(mtx@, n as nat),
            forall|i: int, j: int|
                0 <= i < y && 0 <= j < n ==> mtx@[i][j] == crate::reach::reachable(g, i, j),
            forall|i: int, j: int| y <= i < n && 0 <= j < n ==> !mtx@[i][j],
        decreases n - y,
    {
        let mut it = graph.bfs(y);
        loop
            invariant
                y < n,
                n == graph@.len(),
                g == graph.adjacency(),
                it.wf(),
                it.graph() == *graph,
                it@.origin == y,
                square_of(mtx@, n as nat),
                forall|i: int, j: int|
                    0 <= i < y && 0 <= j < n ==> mtx@[i][j] == crate::reach::reachable(g, i, j),
                forall|j: usize| j < n ==> mtx@[y as int][j as int] == it@.yielded.contains(j),
                forall|i: int, j: int| y < i < n && 0 <= j < n ==> !mtx@[i][j],
            ensures
                it.wf(),
                it.graph() == *graph,
                it@.origin == y,
                it@.done(),
                square_of(mtx@, n as nat),
                forall|i: int, j: int|
                    0 <= i < y && 0 <= j < n ==> mtx@[i][j] == crate::reach::reachable(g, i, j),
                forall|j: usize| j < n ==> mtx@[y as int][j as int] == it@.yielded.contains(j),
                forall|i: int, j: int| y < i < n && 0 <= j < n ==> !mtx@[i][j],
            decreases n - it@.yielded.len(),
        {
            let ghost before = it@;
            proof {
                before.lemma_yield_bound(g);
            }
            match it.next() {
                None => {
                    break ;
                },
                Some(x) => {
                    proof {
                        assert(before.frontier.contains(x));
                        assert(before.visited.contains(x));
                        assert forall|j: usize| j < n implies it@.yielded.contains(j) == (
                        before.yielded.contains(j) || j == x) by {
                            lemma_contains_push(before.yielded, x, j);
                        }
                    }
                    let ghost prev = mtx@;
                    assert(prev[y as int].len() == n);
                    mtx.set(y, x, true);
                    proof {
                        assert forall|j: usize| j < n implies mtx@[y as int][j as int]
                            == it@.yielded.contains(j) by {
                            assert(prev[y as int][j as int] == before.yielded.contains(j));
                        }
                    }
                },
            }
        }
        proof {
            graph.lemma_targets(y);
            it@.lemma_done(g);
            assert forall|i: int, j: int| 0 <= i < y + 1 && 0 <= j < n implies mtx@[i][j]
                == crate::reach::reachable(g, i, j) by {
                if i == y {
                    assert(mtx@[y as int][j] == it@.yielded.contains(j as usize));
                }
            }
        }
        y += 1;
    }
    mtx
}

/// Computes the transitive closure matrix of a given adjacency-matrix
/// graph by doing a breadth-first traversal from each node.
///
/// The cell in row `i` and column `j` of the result is `true` exactly
/// where `j` is reached from `i`; every node reaches itself.
pub fn bfs_compute_closure_of_matrix<T, D, W>(graph: &MtxGraph<T, D, W>) -> (mtx:
    TransitiveClosureMtx) where T: Hash + Eq + Clone, D: Clone + Orientation, W: Clone
    requires
        graph.wf(),
    ensures
        closure_of(mtx@, graph.adjacency()),
{
    let n = graph.nodes();
    let ghost g = graph.adjacency();
    let mut mtx = TransitiveClosureMtx::from_len(n);
    proof {
        graph.lemma_shape();
    }
    let mut y: usize = 0;
    while y < n
        invariant
            y <= n,
            n == graph@.len(),
            g == graph.adjacency(),
            graph.wf(),
            square_of(mtx@, n as nat),
            forall|i: int, j: int|
                0 <= i < y && 0 <= j < n ==> mtx@[i][j] == crate::reach::reachable(g, i, j),
            forall|i: int, j: int| y <= i < n && 0 <= j < n ==> !mtx@[i][j],
        decreases n - y,
    {
        let mut it = graph.bfs(GraphIdx(y));
        loop
            invariant
                y < n,
                n == graph@.len(),
                g == graph.adjacency(),
                g.len() == n,
                it.wf(),
                it.graph() == *graph,
                it@.origin == y,
                square_of(mtx@, n as nat),
                forall|i: int, j: int|
                    0 <= i < y && 0 <= j < n ==> mtx@[i][j] == crate::reach::reachable(g, i, j),
                forall|j: usize| j < n ==> mtx@[y as int][j as int] == it@.yielded.contains(j),
                forall|i: int, j: int| y < i < n && 0 <= j < n ==> !mtx@[i][j],
            ensures
                it.wf(),
                it.graph() == *graph,
                it@.origin == y,
                it@.done(),
                square_of(mtx@, n as nat),
                forall|i: int, j: int|
                    0 <= i < y && 0 <= j < n ==> mtx@[i][j] == crate::reach::reachable(g, i, j),
                forall|j: usize| j < n ==> mtx@[y as int][j as int] == it@.yielded.contains(j),
                forall|i: int, j: int| y < i < n && 0 <= j < n ==> !mtx@[i][j],
            decreases n - it@.yielded.len(),
        {
            let ghost before = it@;
            proof {
                before.lemma_yield_bound(g);
            }
            match it.next() {
                None => {
                    break ;
                },
                Some(x) => {
                    proof {
                        assert(before.frontier.contains(x.0));
                        assert(before.visited.contains(x.0));
                        assert forall|j: usize| j < n implies it@.yielded.contains(j) == (
                        before.yielded.contains(j) || j == x.0) by {
                            lemma_contains_push(before.yielded, x.0, j);
                        }
                    }
                    let ghost prev = mtx@;
                    assert(prev[y as int].len() == n);
                    mtx.set(y, x.0, true);
                    proof {
                        assert forall|j: usize| j < n implies mtx@[y as int][j as int]
                            == it@.yielded.contains(j) by {
                            assert(prev[y as int][j as int] == before.yielded.contains(j));
                        }
                    }
                },
            }
        }
        proof {
            it@.lemma_done(g);
            assert forall|i: int, j: int| 0 <= i < y + 1 && 0 <= j < n implies mtx@[i][j]
                == crate::reach::reachable(g, i, j) by {
                if i == y {
                    assert(mtx@[y as int][j] == it@.yielded.contains(j as usize));
                }
            }
        }
        y += 1;
    }
    mtx
}

} // verus!

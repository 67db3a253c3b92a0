//! The mathematical model of a directed graph, and reachability in it.
//!
//! A graph on the nodes `0..g.len()` is a sequence of successor sets:
//! `g[a]` holds the nodes that `a` has an edge to. A walk is a non-empty
//! sequence of nodes in which each is followed by one of its successors, so
//! every node reaches itself by the walk of length one.
use vstd::prelude::*;

verus! {

/// There is an edge from `a` to `b`, and both are nodes of `g`.
pub open spec fn arc(g: Seq<Set<int>>, a: int, b: int) -> bool {
    0 <= a < g.len() && 0 <= b < g.len() && g[a].contains(b)
}

/// The `i`-th step of `p` follows an edge of `g`.
pub open spec fn step_ok(g: Seq<Set<int>>, p: Seq<int>, i: int) -> bool {
    arc(g, p[i], p[i + 1])
}

/// `p` is a walk in `g`: it is not empty, starts at a node, and every step
/// follows an edge.
pub open spec fn is_walk(g: Seq<Set<int>>, p: Seq<int>) -> bool {
    &&& p.len() > 0
    &&& 0 <= p[0] < g.len()
    &&& forall|i: int| 0 <= i < p.len() - 1 ==> #[trigger] step_ok(g, p, i)
}

/// `p` is a walk in `g` that starts at `a` and ends at `b`.
pub open spec fn walk_between(g: Seq<Set<int>>, p: Seq<int>, a: int, b: int) -> bool {
    is_walk(g, p) && p[0] == a && p[p.len() - 1] == b
}

/// `b` can be reached from `a` by a walk of zero or more edges.
pub open spec fn reachable(g: Seq<Set<int>>, a: int, b: int) -> bool {
    exists|p: Seq<int>| #[trigger] walk_between(g, p, a, b)
}

/// `a` and `b` reach each other: they lie in one strongly connected
/// component.
pub open spec fn tied(g: Seq<Set<int>>, a: int, b: int) -> bool {
    reachable(g, a, b) && reachable(g, b, a)
}

/// Every successor of a node is itself a node.
pub open spec fn closed_graph(g: Seq<Set<int>>) -> bool {
    forall|a: int, b: int| 0 <= a < g.len() && #[trigger] g[a].contains(b) ==> 0 <= b < g.len()
}

/// Every node on a walk is a node of the graph.
pub proof fn lemma_walk_nodes(g: Seq<Set<int>>, p: Seq<int>, i: int)
    requires
        is_walk(g, p),
        0 <= i < p.len(),
    ensures
        0 <= p[i] < g.len(),
    decreases i,
{
    if i > 0 {
        lemma_walk_nodes(g, p, i - 1);
        assert(step_ok(g, p, i - 1));
    }
}

/// Reachability only relates nodes of the graph.
pub proof fn lemma_reach_nodes(g: Seq<Set<int>>, a: int, b: int)
    requires
        reachable(g, a, b),
    ensures
        0 <= a < g.len(),
        0 <= b < g.len(),
{
    let p = choose|p: Seq<int>| #[trigger] walk_between(g, p, a, b);
    lemma_walk_nodes(g, p, p.len() - 1);
}

/// Every node reaches itself.
pub proof fn lemma_reach_self(g: Seq<Set<int>>, a: int)
    requires
        0 <= a < g.len(),
    ensures
        reachable(g, a, a),
{
    let p = seq![a];
    assert(walk_between(g, p, a, a));
}

/// A walk can be extended by one more edge.
pub proof fn lemma_reach_extend(g: Seq<Set<int>>, a: int, b: int, c: int)
    requires
        reachable(g, a, b),
        arc(g, b, c),
    ensures
        reachable(g, a, c),
{
    let p = choose|p: Seq<int>| #[trigger] walk_between(g, p, a, b);
    let q = p.push(c);
    assert forall|i: int| 0 <= i < q.len() - 1 implies #[trigger] step_ok(g, q, i) by {
        if i < p.len() - 1 {
            assert(step_ok(g, p, i));
        }
    }
    assert(walk_between(g, q, a, c));
}

/// An edge is a walk.
pub proof fn lemma_reach_arc(g: Seq<Set<int>>, a: int, b: int)
    requires
        arc(g, a, b),
    ensures
        reachable(g, a, b),
{
    lemma_reach_self(g, a);
    lemma_reach_extend(g, a, a, b);
}

/// Walks compose.
pub proof fn lemma_reach_trans(g: Seq<Set<int>>, a: int, b: int, c: int)
    requires
        reachable(g, a, b),
        reachable(g, b, c),
    ensures
        reachable(g, a, c),
{
    let p = choose|p: Seq<int>| #[trigger] walk_between(g, p, a, b);
    let q = choose|q: Seq<int>| #[trigger] walk_between(g, q, b, c);
    let r = p + q.subrange(1, q.len() as int);
    assert forall|i: int| 0 <= i < r.len() - 1 implies #[trigger] step_ok(g, r, i) by {
        if i < p.len() - 1 {
            assert(step_ok(g, p, i));
        } else {
            assert(step_ok(g, q, i - p.len() + 1));
        }
    }
    assert(walk_between(g, r, a, c));
}

/// A walk with at least one edge starts with an edge to a node that
/// reaches the end.
pub proof fn lemma_reach_first_step(g: Seq<Set<int>>, a: int, b: int) -> (c: int)
    requires
        reachable(g, a, b),
        a != b,
    ensures
        arc(g, a, c),
        reachable(g, c, b),
{
    let p = choose|p: Seq<int>| #[trigger] walk_between(g, p, a, b);
    assert(step_ok(g, p, 0));
    let q = p.subrange(1, p.len() as int);
    assert forall|i: int| 0 <= i < q.len() - 1 implies #[trigger] step_ok(g, q, i) by {
        assert(step_ok(g, p, i + 1));
    }
    assert(walk_between(g, q, p[1], b));
    p[1]
}

/// A walk that starts inside a set closed under edges stays inside it.
pub proof fn lemma_walk_stays(g: Seq<Set<int>>, p: Seq<int>, s: Set<int>, i: int)
    requires
        is_walk(g, p),
        s.contains(p[0]),
        forall|x: int, y: int| s.contains(x) && arc(g, x, y) ==> s.contains(y),
        0 <= i < p.len(),
    ensures
        s.contains(p[i]),
    decreases i,
{
    if i > 0 {
        lemma_walk_stays(g, p, s, i - 1);
        assert(step_ok(g, p, i - 1));
    }
}

/// A set that holds `a` and is closed under edges holds everything that
/// `a` reaches.
pub proof fn lemma_reach_closed(g: Seq<Set<int>>, a: int, s: Set<int>)
    requires
        s.contains(a),
        forall|x: int, y: int| s.contains(x) && arc(g, x, y) ==> s.contains(y),
    ensures
        forall|b: int| reachable(g, a, b) ==> s.contains(b),
{
    assert forall|b: int| reachable(g, a, b) implies s.contains(b) by {
        let p = choose|p: Seq<int>| #[trigger] walk_between(g, p, a, b);
        lemma_walk_stays(g, p, s, p.len() - 1);
    }
}

} // verus!

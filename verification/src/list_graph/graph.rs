//! The adjacency-list graph.
use vstd::prelude::*;
use std::marker::PhantomData;
use super::edge::Edge;
use super::node::Node;
use super::iter::BFS;
use crate::orientation::Orientation;
use crate::reach::{arc, closed_graph};
use crate::search::{lemma_contains_push, lists_successors};

verus! {

/// Tags a graph whose edges go one way.
#[derive(Debug, Clone, Copy)]
pub struct Directed;

/// Tags a graph in which every edge is stored in both directions.
#[derive(Debug, Clone, Copy)]
pub struct Undirected;

impl Orientation for Directed {
    open spec fn directed() -> bool {
        true
    }
}

impl Orientation for Undirected {
    open spec fn directed() -> bool {
        false
    }
}

/// A graph that keeps, for each node, its payload and the list of its
/// outgoing edges. Nodes are numbered from zero in the order in which they
/// were added, and are never removed.
///
/// Adding an edge that is already there adds a second record of it.
pub struct Graph<V, D = Undirected, E = u32> {
    nodes: Vec<Node<V, E>>,
    pd: PhantomData<D>,
}

impl<V, D, E> View for Graph<V, D, E> {
    type V = Seq<Node<V, E>>;

    /// The nodes in index order.
    closed spec fn view(&self) -> Seq<Node<V, E>> {
        self.nodes@
    }
}

/// The edge `e` with its destination replaced by the representative that
/// `rep` gives for it.
pub open spec fn redirected<E>(e: Edge<E>, rep: Seq<usize>) -> Edge<E> {
    Edge { weight: e.weight, next: rep[e.next as int] }
}

/// The edges of `edges` from position `from` on, the last first, each led
/// on to the representative of its destination, without those that would
/// lead to `x` itself.
pub open spec fn kept<E>(edges: Seq<Edge<E>>, rep: Seq<usize>, x: usize, from: int) -> Seq<Edge<E>>
    decreases edges.len() - from,
{
    if from < 0 || from >= edges.len() {
        Seq::empty()
    } else if rep[edges[from].next as int] == x {
        kept(edges, rep, x, from + 1)
    } else {
        kept(edges, rep, x, from + 1).push(redirected(edges[from], rep))
    }
}

/// The edges that the node `x` has after the first `upto` nodes handed
/// their edges on to their representatives: those of the nodes that `x`
/// stands for, node by node in ascending order.
pub open spec fn gathered<E>(outs: Seq<Seq<Edge<E>>>, rep: Seq<usize>, x: usize, upto: int) -> Seq<
    Edge<E>,
>
    decreases upto,
{
    if upto <= 0 {
        Seq::empty()
    } else if rep[upto - 1] == x {
        gathered(outs, rep, x, upto - 1) + kept(outs[upto - 1], rep, x, 0)
    } else {
        gathered(outs, rep, x, upto - 1)
    }
}

/// The edge at position `k` of node `a` has been handed on, as `e`, to the
/// node `x` that stands for `a`. Edges are handed on node by node, and
/// within a node from the last to the first: those of the nodes before
/// `cur` are done, and of `cur` those from position `rem` on.
spec fn carried_by<E>(
    outs: Seq<Seq<Edge<E>>>,
    rep: Seq<usize>,
    cur: int,
    rem: int,
    x: int,
    e: Edge<E>,
    a: int,
    k: int,
) -> bool {
    &&& 0 <= a < outs.len()
    &&& 0 <= k < outs[a].len()
    &&& a < cur || (a == cur && k >= rem)
    &&& rep[a] == x
    &&& e == redirected(outs[a][k], rep)
    &&& e.next != x
}

spec fn carried<E>(outs: Seq<Seq<Edge<E>>>, rep: Seq<usize>, cur: int, rem: int, x: int, e: Edge<E>) -> bool {
    exists|a: int, k: int| #[trigger] carried_by(outs, rep, cur, rem, x, e, a, k)
}

/// Some edge of `edges` leads to `b`.
pub open spec fn leads_to<E>(edges: Seq<Edge<E>>, b: int) -> bool {
    exists|k: int| 0 <= k < edges.len() && (#[trigger] edges[k]).next == b
}

impl<V, D, E> Graph<V, D, E> {
    /// The number of nodes.
    pub open spec fn spec_len(&self) -> nat {
        self@.len()
    }

    /// The outgoing edges of node `a`, oldest first.
    pub open spec fn out(&self, a: int) -> Seq<Edge<E>> {
        self@[a].edges@
    }

    /// The destinations of the outgoing edges of node `a`, oldest first.
    pub open spec fn targets(&self, a: int) -> Seq<usize> {
        Seq::new(self.out(a).len(), |k: int| self.out(a)[k].next)
    }

    /// The destinations of the edges of every node: one list per node.
    pub open spec fn successors(&self) -> Seq<Seq<usize>> {
        Seq::new(self.spec_len(), |a: int| self.targets(a))
    }

    /// Node `a` has an edge with weight `w` to node `b`.
    pub open spec fn has_link(&self, a: usize, b: usize, w: E) -> bool {
        a < self.spec_len() && self.out(a as int).contains(Edge { weight: w, next: b })
    }

    /// The edges of every node: one list per node.
    pub open spec fn all_edges(&self) -> Seq<Seq<Edge<E>>> {
        Seq::new(self.spec_len(), |a: int| self.out(a))
    }

    /// When every node is replaced by the representative that `rep` gives
    /// for it, and edges from a node to itself are dropped, an edge with
    /// weight `w` leads from `x` to `y`.
    pub open spec fn quotient_link(&self, rep: Seq<usize>, x: usize, y: usize, w: E) -> bool {
        x != y && exists|a: usize, b: usize|
            #[trigger] self.has_link(a, b, w) && rep[a as int] == x && rep[b as int] == y
    }

    /// The graph as a sequence of successor sets.
    pub open spec fn adjacency(&self) -> Seq<Set<int>> {
        Seq::new(self.spec_len(), |a: int| Set::new(|b: int| leads_to(self.out(a), b)))
    }

    /// Every edge leads to a node of the graph.
    pub open spec fn in_bounds(&self) -> bool {
        forall|a: int, k: int|
            0 <= a < self.spec_len() && 0 <= k < self.out(a).len() ==> (#[trigger] self.out(
                a,
            )[k]).next < self.spec_len()
    }

    /// Every edge has its reverse, with the same weight.
    pub open spec fn symmetric(&self) -> bool {
        forall|a: usize, b: usize, w: E| #[trigger] self.has_link(a, b, w) ==> self.has_link(b, a, w)
    }

    /// The destinations of the edges of a node are its successors in the
    /// model.
    pub proof fn lemma_targets(&self, a: usize)
        requires
            self.in_bounds(),
            a < self.spec_len(),
        ensures
            lists_successors(self.adjacency(), a, self.targets(a as int)),
            closed_graph(self.adjacency()),
    {
        let g = self.adjacency();
        let ts = self.targets(a as int);
        assert forall|t: usize| ts.contains(t) <==> arc(g, a as int, t as int) by {
            if ts.contains(t) {
                let k = choose|k: int| 0 <= k < ts.len() && ts[k] == t;
                assert(self.out(a as int)[k].next == t);
                assert(leads_to(self.out(a as int), t as int));
            }
            if arc(g, a as int, t as int) {
                let k = choose|k: int|
                    0 <= k < self.out(a as int).len() && (#[trigger] self.out(a as int)[k]).next
                        == t as int;
                assert(ts[k] == t);
            }
        }
        assert forall|x: int, y: int| 0 <= x < g.len() && #[trigger] g[x].contains(y) implies 0
            <= y < g.len() by {
            let k = choose|k: int|
                0 <= k < self.out(x).len() && (#[trigger] self.out(x)[k]).next == y;
        }
    }
}

impl<V, D: Orientation, E> Graph<V, D, E> {
    /// The graph is well formed: its edges lead to its own nodes, and if
    /// it is undirected every edge has its reverse.
    pub open spec fn wf(&self) -> bool {
        &&& self.in_bounds()
        &&& !D::directed() ==> self.symmetric()
    }

    /// A graph without nodes.
    pub fn new() -> (g: Self)
        ensures
            g.wf(),
            g@.len() == 0,
    {
        Self { nodes: Vec::new(), pd: PhantomData }
    }

    /// Adds a node that carries `val` and has no edges. Returns its index,
    /// which is the number of nodes that were there before.
    pub fn add_node(&mut self, val: V) -> (idx: usize)
        requires
            old(self).wf(),
        ensures
            final(self).wf(),
            idx == old(self)@.len(),
            final(self)@.len() == old(self)@.len() + 1,
            forall|i: int| 0 <= i < old(self)@.len() ==> final(self)@[i] == old(self)@[i],
            final(self)@[idx as int].data == val,
            final(self).out(idx as int) == Seq::<Edge<E>>::empty(),
    {
        self.nodes.push(Node::new(val, Vec::new()));
        proof {
            let idx = old(self)@.len() as int;
            assert(self@ =~= old(self)@.push(self@[idx]));
            assert forall|a: int, k: int|
                0 <= a < self.spec_len() && 0 <= k < self.out(a).len() implies (#[trigger] self.out(
                a,
            )[k]).next < self.spec_len() by {
                assert(self.out(a) == old(self).out(a));
                assert(old(self).out(a)[k].next < old(self).spec_len());
            }
            assert forall|a: usize, b: usize, w: E| #[trigger]
                self.has_link(a, b, w) implies old(self).has_link(a, b, w) by {}
            assert forall|a: usize, b: usize, w: E| #[trigger]
                old(self).has_link(a, b, w) implies self.has_link(a, b, w) by {}
            if !D::directed() {
                assert forall|a: usize, b: usize, w: E| #[trigger]
                    self.has_link(a, b, w) implies self.has_link(b, a, w) by {
                    assert(old(self).has_link(a, b, w));
                    assert(old(self).has_link(b, a, w));
                }
            }
        }
        self.nodes.len() - 1
    }

    /// The outgoing edges of node `idx`, oldest first.
    pub fn edges(&self, idx: usize) -> (r: &[Edge<E>])
        requires
            idx < self@.len(),
        ensures
            r@ == self.out(idx as int),
    {
        self.nodes[idx].edges.as_slice()
    }

    /// The node with the given index.
    pub fn node(&self, index: usize) -> (r: &Node<V, E>)
        requires
            index < self@.len(),
        ensures
            *r == self@[index as int],
    {
        &self.nodes[index]
    }

    /// All nodes, in index order.
    pub fn nodes(&self) -> (r: &[Node<V, E>])
        ensures
            r@ == self@,
    {
        self.nodes.as_slice()
    }

    /// The destinations of the outgoing edges of node `idx`, in the order
    /// in which the edges were added.
    pub fn neighbors(&self, idx: usize) -> (r: Vec<usize>)
        requires
            idx < self@.len(),
        ensures
            r@ == self.targets(idx as int),
    {
        let edges = self.edges(idx);
        let mut out: Vec<usize> = Vec::new();
        let mut k: usize = 0;
        while k < edges.len()
            invariant
                k <= edges.len(),
                edges@ == self.out(idx as int),
                out@ == self.targets(idx as int).take(k as int),
            decreases edges.len() - k,
        {
            out.push(edges[k].next);
            k += 1;
            assert(out@ =~= self.targets(idx as int).take(k as int));
        }
        assert(out@ =~= self.targets(idx as int));
        out
    }

    /// Replaces every node by its representative: `rep` gives, for each
    /// node, the node that stands for it. Afterwards every edge leads from
    /// the representative of its old source to the representative of its
    /// old destination, with its weight; edges that would lead from a node
    /// to itself are dropped. The nodes stay, with their values; one that
    /// another node stands for is left without edges. A representative
    /// gets the edges of the nodes that it stands for node by node, in
    /// ascending order of the nodes, and of each node the last edge first.
    pub fn condense(&mut self, rep: &[usize])
        requires
            old(self).wf(),
            rep@.len() == old(self)@.len(),
            forall|i: int| 0 <= i < rep@.len() ==> (#[trigger] rep@[i]) < rep@.len(),
        ensures
            final(self).wf(),
            final(self)@.len() == old(self)@.len(),
            forall|i: int|
                0 <= i < old(self)@.len() ==> (#[trigger] final(self)@[i]).data == old(self)@[i].data,
            forall|x: usize, y: usize, w: E| #[trigger]
                final(self).has_link(x, y, w) <==> old(self).quotient_link(rep@, x, y, w),
            forall|x: int|
                0 <= x < old(self)@.len() ==> #[trigger] final(self).out(x) == gathered(
                    old(self).all_edges(),
                    rep@,
                    x as usize,
                    old(self)@.len() as int,
                ),
    {
        let n = self.nodes.len();
        let ghost outs = self.all_edges();
        let ghost r = rep@;
        let mut fresh: Vec<Vec<Edge<E>>> = Vec::new();
        let mut i: usize = 0;
        while i < n
            invariant
                i <= n,
                fresh@.len() == i,
                forall|x: int| 0 <= x < i ==> (#[trigger] fresh@[x])@.len() == 0,
            decreases n - i,
        {
            fresh.push(Vec::new());
            i += 1;
        }
        let mut cur: usize = 0;
        while cur < n
            invariant
                cur <= n,
                n == self@.len(),
                n == old(self)@.len(),
                outs == old(self).all_edges(),
                old(self).in_bounds(),
                r == rep@,
                r.len() == n,
                forall|i: int| 0 <= i < r.len() ==> (#[trigger] r[i]) < r.len(),
                fresh@.len() == n,
                forall|a: int| 0 <= a < n ==> (#[trigger] self@[a]).data == old(self)@[a].data,
                forall|a: int| cur <= a < n ==> (#[trigger] self@[a]).edges@ == outs[a],
                forall|x: int|
                    0 <= x < n ==> (#[trigger] fresh@[x])@ == gathered(
                        outs,
                        r,
                        x as usize,
                        cur as int,
                    ),
                forall|x: int, e: Edge<E>|
                    0 <= x < n ==> (#[trigger] fresh@[x]@.contains(e) <==> carried(
                        outs,
                        r,
                        cur as int,
                        if cur < n {
                            outs[cur as int].len() as int
                        } else {
                            0
                        },
                        x,
                        e,
                    )),
            decreases n - cur,
        {
            let mut taken: Vec<Edge<E>> = Vec::new();
            let node = &mut self.nodes[cur];
            core::mem::swap(&mut node.edges, &mut taken);
            let keep = rep[cur];
            assert(r[cur as int] < r.len());
            proof {
                assert forall|x: int| 0 <= x < n implies (#[trigger] fresh@[x])@ == gathered(
                    outs,
                    r,
                    x as usize,
                    cur as int,
                ) + (if x == keep {
                    kept(outs[cur as int], r, keep, taken@.len() as int)
                } else {
                    Seq::empty()
                }) by {
                    assert(gathered(outs, r, x as usize, cur as int) + Seq::<Edge<E>>::empty()
                        =~= gathered(outs, r, x as usize, cur as int));
                }
            }
            while taken.len() > 0
                invariant
                    cur < n,
                    n == self@.len(),
                    n == old(self)@.len(),
                    outs == old(self).all_edges(),
                    old(self).in_bounds(),
                    r == rep@,
                    r.len() == n,
                    forall|i: int| 0 <= i < r.len() ==> (#[trigger] r[i]) < r.len(),
                    keep == r[cur as int],
                    fresh@.len() == n,
                    taken@ == outs[cur as int].take(taken@.len() as int),
                    taken@.len() <= outs[cur as int].len(),
                    forall|a: int| 0 <= a < n ==> (#[trigger] self@[a]).data == old(self)@[a].data,
                    forall|a: int| cur < a < n ==> (#[trigger] self@[a]).edges@ == outs[a],
                    forall|x: int|
                        0 <= x < n ==> (#[trigger] fresh@[x])@ == gathered(
                            outs,
                            r,
                            x as usize,
                            cur as int,
                        ) + (if x == keep {
                            kept(outs[cur as int], r, keep, taken@.len() as int)
                        } else {
                            Seq::empty()
                        }),
                    forall|x: int, e: Edge<E>|
                        0 <= x < n ==> (#[trigger] fresh@[x]@.contains(e) <==> carried(
                            outs,
                            r,
                            cur as int,
                            taken@.len() as int,
                            x,
                            e,
                        )),
                decreases taken@.len(),
            {
                let ghost rem = taken@.len() as int;
                let ghost held = fresh@;
                let edge = taken.pop().unwrap();
                proof {
                    assert(edge == outs[cur as int][rem - 1]);
                    assert(old(self).out(cur as int)[rem - 1].next < n);
                    assert(taken@ =~= outs[cur as int].take(rem - 1));
                }
                let to = rep[edge.next];
                if to != keep {
                    let moved = Edge::new(edge.weight, to);
                    let list = &mut fresh[keep];
                    list.push(moved);
                    proof {
                        assert(moved == redirected(outs[cur as int][rem - 1], r));
                        assert forall|x: int| 0 <= x < n implies (#[trigger] fresh@[x])@
                            == gathered(outs, r, x as usize, cur as int) + (if x == keep {
                            kept(outs[cur as int], r, keep, rem - 1)
                        } else {
                            Seq::empty()
                        }) by {
                            if x == keep {
                                let base = gathered(outs, r, x as usize, cur as int);
                                let part = kept(outs[cur as int], r, keep, rem);
                                assert(fresh@[x]@ == held[x]@.push(moved));
                                assert((base + part).push(moved) =~= base + part.push(moved));
                            } else {
                                assert(fresh@[x] == held[x]);
                            }
                        }
                        assert forall|x: int, e: Edge<E>| 0 <= x < n implies (
                        #[trigger] fresh@[x]@.contains(e) <==> carried(
                            outs,
                            r,
                            cur as int,
                            rem - 1,
                            x,
                            e,
                        )) by {
                            if x == keep {
                                lemma_contains_push(held[x]@, moved, e);
                            } else {
                                assert(fresh@[x] == held[x]);
                            }
                            assert(held[x]@.contains(e) <==> carried(outs, r, cur as int, rem, x, e));
                            if carried(outs, r, cur as int, rem, x, e) {
                                let (a, k) = choose|a: int, k: int| #[trigger]
                                    carried_by(outs, r, cur as int, rem, x, e, a, k);
                                assert(carried_by(outs, r, cur as int, rem - 1, x, e, a, k));
                            }
                            if x == keep && e == moved {
                                assert(carried_by(
                                    outs,
                                    r,
                                    cur as int,
                                    rem - 1,
                                    x,
                                    e,
                                    cur as int,
                                    rem - 1,
                                ));
                            }
                            if carried(outs, r, cur as int, rem - 1, x, e) {
                                let (a, k) = choose|a: int, k: int| #[trigger]
                                    carried_by(outs, r, cur as int, rem - 1, x, e, a, k);
                                if a == cur && k == rem - 1 {
                                } else {
                                    assert(carried_by(outs, r, cur as int, rem, x, e, a, k));
                                }
                            }
                        }
                    }
                } else {
                    proof {
                        assert(kept(outs[cur as int], r, keep, rem - 1) == kept(
                            outs[cur as int],
                            r,
                            keep,
                            rem,
                        ));
                        assert forall|x: int, e: Edge<E>| 0 <= x < n implies (
                        #[trigger] fresh@[x]@.contains(e) <==> carried(
                            outs,
                            r,
                            cur as int,
                            rem - 1,
                            x,
                            e,
                        )) by {
                            assert(held[x]@.contains(e) <==> carried(outs, r, cur as int, rem, x, e));
                            if carried(outs, r, cur as int, rem, x, e) {
                                let (a, k) = choose|a: int, k: int| #[trigger]
                                    carried_by(outs, r, cur as int, rem, x, e, a, k);
                                assert(carried_by(outs, r, cur as int, rem - 1, x, e, a, k));
                            }
                            if carried(outs, r, cur as int, rem - 1, x, e) {
                                let (a, k) = choose|a: int, k: int| #[trigger]
                                    carried_by(outs, r, cur as int, rem - 1, x, e, a, k);
                                if a == cur && k == rem - 1 {
                                } else {
                                    assert(carried_by(outs, r, cur as int, rem, x, e, a, k));
                                }
                            }
                        }
                    }
                }
            }
            proof {
                assert forall|x: int| 0 <= x < n implies (#[trigger] fresh@[x])@ == gathered(
                    outs,
                    r,
                    x as usize,
                    cur + 1,
                ) by {
                    if x != keep {
                        assert(gathered(outs, r, x as usize, cur as int) + Seq::<Edge<E>>::empty()
                            =~= gathered(outs, r, x as usize, cur as int));
                    }
                }
                let next_rem = if cur + 1 < n {
                    outs[cur + 1].len() as int
                } else {
                    0
                };
                assert forall|x: int, e: Edge<E>| 0 <= x < n implies (#[trigger] fresh@[x]@.contains(
                    e,
                ) <==> carried(outs, r, cur + 1, next_rem, x, e)) by {
                    if carried(outs, r, cur as int, 0, x, e) {
                        let (a, k) = choose|a: int, k: int| #[trigger]
                            carried_by(outs, r, cur as int, 0, x, e, a, k);
                        assert(carried_by(outs, r, cur + 1, next_rem, x, e, a, k));
                    }
                    if carried(outs, r, cur + 1, next_rem, x, e) {
                        let (a, k) = choose|a: int, k: int| #[trigger]
                            carried_by(outs, r, cur + 1, next_rem, x, e, a, k);
                        assert(carried_by(outs, r, cur as int, 0, x, e, a, k));
                    }
                }
            }
            cur += 1;
        }
        let ghost lists = fresh@;
        assert forall|a: int| 0 <= a < n implies (#[trigger] lists[a])@ == gathered(
            outs,
            r,
            a as usize,
            n as int,
        ) by {
            assert(fresh@[a]@ == gathered(outs, r, a as usize, cur as int));
        }
        let mut x: usize = n;
        while x > 0
            invariant
                x <= n,
                n == self@.len(),
                n == old(self)@.len(),
                fresh@ == lists.take(x as int),
                lists.len() == n,
                old(self).in_bounds(),
                forall|a: int| 0 <= a < n ==> (#[trigger] self@[a]).data == old(self)@[a].data,
                forall|a: int| x <= a < n ==> (#[trigger] self@[a]).edges@ == lists[a]@,
            decreases x,
        {
            x -= 1;
            let list = match fresh.pop() {
                Some(l) => l,
                None => Vec::new(),
            };
            let node = &mut self.nodes[x];
            node.edges = list;
            assert(fresh@ =~= lists.take(x as int));
        }
        proof {
            assert forall|p: usize, q: usize, w: E| #[trigger]
                self.has_link(p, q, w) <==> old(self).quotient_link(r, p, q, w) by {
                let e = Edge { weight: w, next: q };
                if self.has_link(p, q, w) {
                    assert(lists[p as int]@.contains(e));
                    assert(carried(outs, r, n as int, 0, p as int, e));
                    let (a, k) = choose|a: int, k: int| #[trigger]
                        carried_by(outs, r, n as int, 0, p as int, e, a, k);
                    let b = outs[a][k].next;
                    assert(old(self).out(a).contains(outs[a][k]));
                    assert(old(self).has_link(a as usize, b, w));
                }
                if old(self).quotient_link(r, p, q, w) {
                    let (a, b) = choose|a: usize, b: usize|
                        #[trigger] old(self).has_link(a, b, w) && r[a as int] == p && r[b as int]
                            == q;
                    let k = choose|k: int|
                        0 <= k < old(self).out(a as int).len() && old(self).out(a as int)[k] == (
                        Edge { weight: w, next: b });
                    assert(carried_by(outs, r, n as int, 0, p as int, e, a as int, k));
                    assert(carried(outs, r, n as int, 0, p as int, e));
                    assert(lists[p as int]@.contains(e));
                }
            }
            assert forall|a: int, k: int|
                0 <= a < self.spec_len() && 0 <= k < self.out(a).len() implies (#[trigger] self.out(
                a,
            )[k]).next < self.spec_len() by {
                let e = self.out(a)[k];
                assert(lists[a]@.contains(e));
                assert(carried(outs, r, n as int, 0, a, e));
                let (a0, k0) = choose|a0: int, k0: int| #[trigger]
                    carried_by(outs, r, n as int, 0, a, e, a0, k0);
                assert(old(self).out(a0)[k0].next < n);
            }
            if !D::directed() {
                assert forall|p: usize, q: usize, w: E| #[trigger]
                    self.has_link(p, q, w) implies self.has_link(q, p, w) by {
                    assert(old(self).quotient_link(r, p, q, w));
                    let (a, b) = choose|a: usize, b: usize|
                        #[trigger] old(self).has_link(a, b, w) && r[a as int] == p && r[b as int]
                            == q;
                    assert(old(self).has_link(b, a, w));
                    assert(old(self).quotient_link(r, q, p, w));
                }
            }
        }
    }

    /// The number of nodes.
    pub fn len(&self) -> (n: usize)
        ensures
            n == self@.len(),
    {
        self.nodes.len()
    }

    /// A breadth-first traversal from `start`.
    pub fn bfs(&self, start: usize) -> (it: BFS<'_, V, D, E>)
        requires
            self.wf(),
            start < self@.len(),
        ensures
            it.wf(),
            it.graph() == *self,
            it@ == crate::search::Search::start(start),
    {
        BFS::new(self, start)
    }
}

impl<V, E> Graph<V, Directed, E> {
    /// Adds an edge from `from` to `to`, after the edges that `from`
    /// already has.
    pub fn add_edge(&mut self, from: usize, to: usize, weight: E)
        requires
            old(self).wf(),
            from < old(self)@.len(),
            to < old(self)@.len(),
        ensures
            final(self).wf(),
            final(self)@.len() == old(self)@.len(),
            final(self).out(from as int) == old(self).out(from as int).push(
                Edge { weight, next: to },
            ),
            final(self)@[from as int].data == old(self)@[from as int].data,
            forall|i: int| 0 <= i < old(self)@.len() && i != from ==> final(self)@[i] == old(self)@[i],
            final(self).has_link(from, to, weight),
    {
        let node = &mut self.nodes[from];
        node.edges.push(Edge::new(weight, to));
        proof {
            let e = Edge { weight, next: to };
            assert(self.out(from as int) == old(self).out(from as int).push(e));
            assert(self.out(from as int)[old(self).out(from as int).len() as int] == e);
            assert forall|a: int, k: int|
                0 <= a < self.spec_len() && 0 <= k < self.out(a).len() implies (#[trigger] self.out(
                a,
            )[k]).next < self.spec_len() by {
                if a != from {
                    assert(self@[a] == old(self)@[a]);
                }
                if k < old(self).out(a).len() {
                    assert(self.out(a)[k] == old(self).out(a)[k]);
                }
            }
        }
    }
}

impl<V, E> Graph<V, Undirected, E> where E: Copy {
    /// Adds an edge between `a` and `b`: one record in the list of `a` and
    /// one in the list of `b`, both with the given weight.
    pub fn add_edge(&mut self, a: usize, b: usize, weight: E)
        requires
            old(self).wf(),
            a < old(self)@.len(),
            b < old(self)@.len(),
        ensures
            final(self).wf(),
            final(self)@.len() == old(self)@.len(),
            a != b ==> final(self).out(a as int) == old(self).out(a as int).push(
                Edge { weight, next: b },
            ) && final(self).out(b as int) == old(self).out(b as int).push(
                Edge { weight, next: a },
            ),
            a == b ==> final(self).out(a as int) == old(self).out(a as int).push(
                Edge { weight, next: a },
            ).push(Edge { weight, next: a }),
            forall|i: int|
                0 <= i < old(self)@.len() ==> (#[trigger] final(self)@[i]).data == old(self)@[i].data,
            forall|i: int|
                0 <= i < old(self)@.len() && i != a && i != b ==> final(self)@[i] == old(self)@[i],
            final(self).has_link(a, b, weight),
            final(self).has_link(b, a, weight),
    {
        let node_a = &mut self.nodes[a];
        node_a.edges.push(Edge::new(weight, b));
        let ghost mid = self@;
        let node_b = &mut self.nodes[b];
        node_b.edges.push(Edge::new(weight, a));
        proof {
            let ab = Edge { weight, next: b };
            let ba = Edge { weight, next: a };
            let n = old(self)@.len();
            assert(mid.len() == n);
            assert(mid[a as int].edges@ == old(self).out(a as int).push(ab));
            assert(self.out(b as int) == mid[b as int].edges@.push(ba));
            assert forall|x: usize, y: usize, w: E| #[trigger]
                self.has_link(x, y, w) <==> old(self).has_link(x, y, w) || (x == a && y == b && w
                    == weight) || (x == b && y == a && w == weight) by {
                let e = Edge { weight: w, next: y };
                if x < n {
                    if x == a && x == b {
                        lemma_contains_push(old(self).out(a as int), ab, e);
                        lemma_contains_push(old(self).out(a as int).push(ab), ba, e);
                    } else if x == a {
                        assert(self.out(a as int) == mid[a as int].edges@);
                        lemma_contains_push(old(self).out(a as int), ab, e);
                    } else if x == b {
                        assert(mid[b as int] == old(self)@[b as int]);
                        lemma_contains_push(old(self).out(b as int), ba, e);
                    } else {
                        assert(self@[x as int] == old(self)@[x as int]);
                    }
                }
            }
            assert forall|x: usize, y: usize, w: E| #[trigger]
                self.has_link(x, y, w) implies self.has_link(y, x, w) by {
                if old(self).has_link(x, y, w) {
                    assert(old(self).has_link(y, x, w));
                }
            }
            assert forall|x: int, k: int|
                0 <= x < self.spec_len() && 0 <= k < self.out(x).len() implies (#[trigger] self.out(
                x,
            )[k]).next < self.spec_len() by {
                if x != a && x != b {
                    assert(self@[x] == old(self)@[x]);
                }
                if k < old(self).out(x).len() {
                    assert(self.out(x)[k] == old(self).out(x)[k]);
                }
            }
        }
    }
}

impl<V, D, E> vstd::std_specs::core::IndexSpecImpl<usize> for Graph<V, D, E> {
    /// A graph is indexed by the index of one of its nodes.
    open spec fn index_req(&self, index: &usize) -> bool {
        *index < self@.len()
    }
}

impl<V, D, E> std::ops::Index<usize> for Graph<V, D, E> {
    type Output = Node<V, E>;

    /// The node with the given index.
    fn index(&self, index: usize) -> (r: &Node<V, E>)
        ensures
            *r == self@[index as int],
    {
        &self.nodes[index]
    }
}

/// In a well-formed undirected graph an edge from `a` to `b` exists exactly
/// when one from `b` to `a` does, and with the same weights.
pub proof fn lemma_undirected_symmetric<V, E>(g: Graph<V, Undirected, E>, a: usize, b: usize, w: E)
    requires
        g.wf(),
    ensures
        g.has_link(a, b, w) == g.has_link(b, a, w),
        arc(g.adjacency(), a as int, b as int) == arc(g.adjacency(), b as int, a as int),
{
    if arc(g.adjacency(), a as int, b as int) {
        let k = choose|k: int|
            0 <= k < g.out(a as int).len() && (#[trigger] g.out(a as int)[k]).next == b as int;
        let e = g.out(a as int)[k];
        assert(g.has_link(a, b, e.weight));
        assert(g.has_link(b, a, e.weight));
        let j = choose|j: int|
            0 <= j < g.out(b as int).len() && g.out(b as int)[j] == (Edge {
                weight: e.weight,
                next: a,
            });
        assert(g.out(b as int)[j].next == a);
        assert(leads_to(g.out(b as int), a as int));
    }
    if arc(g.adjacency(), b as int, a as int) {
        let k = choose|k: int|
            0 <= k < g.out(b as int).len() && (#[trigger] g.out(b as int)[k]).next == a as int;
        let e = g.out(b as int)[k];
        assert(g.has_link(b, a, e.weight));
        assert(g.has_link(a, b, e.weight));
        let j = choose|j: int|
            0 <= j < g.out(a as int).len() && g.out(a as int)[j] == (Edge {
                weight: e.weight,
                next: b,
            });
        assert(g.out(a as int)[j].next == b);
        assert(leads_to(g.out(a as int), b as int));
    }
    if g.has_link(a, b, w) {
        assert(g.has_link(b, a, w));
    }
    if g.has_link(b, a, w) {
        assert(g.has_link(a, b, w));
    }
}

} // verus!

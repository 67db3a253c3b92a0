//! Cheapest walks in an adjacency-matrix graph.
use vstd::prelude::*;
use std::collections::HashMap;
use std::hash::Hash;
use super::frontier::{Frontier, QueueNode};
use super::graph::{adjacency_of, square, Graph, GraphIdx};
use crate::orientation::Orientation;
use crate::reach::{arc, is_walk, step_ok, walk_between};
use crate::search::{lemma_distinct_nodes_len, lemma_no_dup_push};

verus! {

/// The sum of the weights along the walk `p` in the matrix `m`.
pub open spec fn walk_cost(m: Seq<Seq<usize>>, p: Seq<int>) -> int
    decreases p.len(),
{
    if p.len() <= 1 {
        0
    } else {
        walk_cost(m, p.drop_last()) + m[p[p.len() - 2]][p[p.len() - 1]]
    }
}

/// No walk from `s` to `v` costs less than `c`.
pub open spec fn cheapest(m: Seq<Seq<usize>>, s: int, v: int, c: int) -> bool {
    forall|q: Seq<int>| #[trigger] walk_between(adjacency_of(m), q, s, v) ==> walk_cost(m, q) >= c
}

/// Some walk from `s` to `v` costs at most `b`.
pub open spec fn within(m: Seq<Seq<usize>>, s: int, v: int, b: int) -> bool {
    exists|q: Seq<int>| #[trigger] walk_between(adjacency_of(m), q, s, v) && walk_cost(m, q) <= b
}

/// The search radius that a cost cutoff stands for. Costs are kept as
/// `i32`, so without a cutoff the search reaches as far as that type can
/// count.
pub open spec fn radius(max_cost: Option<i32>) -> int {
    match max_cost {
        Some(max) => max as int,
        None => i32::MAX as int,
    }
}

/// In the predecessor map, the `i`-th node of `p` was reached from the one
/// before it.
pub open spec fn link_ok(pred: Map<usize, Option<GraphIdx>>, p: Seq<int>, i: int) -> bool {
    pred.contains_key(p[i] as usize) && pred[p[i] as usize] == Some(GraphIdx(p[i - 1] as usize))
}

/// Every node of `p` after the first was reached from the one before it.
pub open spec fn follows(pred: Map<usize, Option<GraphIdx>>, p: Seq<int>) -> bool {
    forall|i: int| 1 <= i < p.len() ==> #[trigger] link_ok(pred, p, i)
}

/// `p` is the walk from `s` to `v` that the predecessor map records.
pub open spec fn route_to(
    m: Seq<Seq<usize>>,
    pred: Map<usize, Option<GraphIdx>>,
    s: int,
    v: int,
    p: Seq<int>,
) -> bool {
    walk_between(adjacency_of(m), p, s, v) && follows(pred, p)
}

/// The predecessor map records a walk from `s` to `v`.
pub open spec fn recorded(m: Seq<Seq<usize>>, pred: Map<usize, Option<GraphIdx>>, s: int, v: int) -> bool {
    exists|p: Seq<int>| #[trigger] route_to(m, pred, s, v, p)
}

/// The predecessor map records a walk from `s` to `v` and one from `s` to
/// `t`, and the node from which `v` was reached lies no further from `s`
/// than `t`.
pub open spec fn reached_before(
    m: Seq<Seq<usize>>,
    pred: Map<usize, Option<GraphIdx>>,
    s: int,
    v: int,
    t: int,
) -> bool {
    exists|p: Seq<int>, q: Seq<int>|
        #![trigger route_to(m, pred, s, v, p), route_to(m, pred, s, t, q)]
        route_to(m, pred, s, v, p) && route_to(m, pred, s, t, q) && p.len() >= 2 && walk_cost(
            m,
            p.drop_last(),
        ) <= walk_cost(m, q)
}

/// The predecessor map records a walk from `s` to `v`, and no walk from
/// `s` to `v` is cheaper than it.
pub open spec fn recorded_cheapest(
    m: Seq<Seq<usize>>,
    pred: Map<usize, Option<GraphIdx>>,
    s: int,
    v: int,
) -> bool {
    exists|p: Seq<int>| #[trigger] route_to(m, pred, s, v, p) && cheapest(m, s, v, walk_cost(m, p))
}

/// The walk that starts at `start` and goes on through the nodes of
/// `path`.
pub open spec fn path_nodes(start: GraphIdx, path: Seq<GraphIdx>) -> Seq<int> {
    seq![start.0 as int] + Seq::new(path.len(), |i: int| path[i].0 as int)
}

/// A node whose cheapest walk costs more than the cutoff is not within the
/// cutoff, so a search with that cutoff leaves it out.
pub proof fn lemma_beyond_cutoff(m: Seq<Seq<usize>>, s: int, v: int, c: int, max: int)
    requires
        cheapest(m, s, v, c),
        max < c,
    ensures
        !within(m, s, v, max),
{
}

/// Two walks between the same nodes of which none is undercut cost the
/// same: the path that a search with a target finds costs what the walk
/// costs that a search without a target records.
pub proof fn lemma_cheapest_agree(m: Seq<Seq<usize>>, s: int, v: int, p: Seq<int>, q: Seq<int>)
    requires
        walk_between(adjacency_of(m), p, s, v),
        walk_between(adjacency_of(m), q, s, v),
        cheapest(m, s, v, walk_cost(m, p)),
        cheapest(m, s, v, walk_cost(m, q)),
    ensures
        walk_cost(m, p) == walk_cost(m, q),
{
}

/// Dropping the last edge of a walk leaves a walk that costs no more.
pub proof fn lemma_cost_prefix(m: Seq<Seq<usize>>, p: Seq<int>, k: int)
    requires
        1 <= k <= p.len(),
    ensures
        0 <= walk_cost(m, p.take(k)) <= walk_cost(m, p),
    decreases p.len(),
{
    if k == p.len() {
        assert(p.take(k) =~= p);
        if p.len() > 1 {
            lemma_cost_prefix(m, p.drop_last(), k - 1);
        }
    } else {
        lemma_cost_prefix(m, p.drop_last(), k);
        assert(p.drop_last().take(k) =~= p.take(k));
    }
}

/// The cost of a prefix grows by the weight of the edge it is extended by.
pub proof fn lemma_cost_step(m: Seq<Seq<usize>>, p: Seq<int>, k: int)
    requires
        1 <= k < p.len(),
    ensures
        walk_cost(m, p.take(k + 1)) == walk_cost(m, p.take(k)) + m[p[k - 1]][p[k]],
{
    assert(p.take(k + 1).drop_last() =~= p.take(k));
}

/// No entry of `queue` weighs less than `e`.
spec fn least(queue: Seq<QueueNode>, e: QueueNode) -> bool {
    forall|x: QueueNode| #[trigger] queue.contains(x) ==> e.weight <= x.weight
}

/// `after` holds the entries of `queue` without `e`, or without one of
/// several entries equal to `e`.
spec fn taken(queue: Seq<QueueNode>, after: Seq<QueueNode>, e: QueueNode) -> bool {
    &&& forall|x: QueueNode| #[trigger] after.contains(x) ==> queue.contains(x)
    &&& forall|x: QueueNode| queue.contains(x) && x != e ==> #[trigger] after.contains(x)
}

/// `after` holds the entries of `queue` and `e`.
spec fn added(queue: Seq<QueueNode>, after: Seq<QueueNode>, e: QueueNode) -> bool {
    forall|x: QueueNode| #[trigger] after.contains(x) <==> queue.contains(x) || x == e
}

/// What the search has found out so far.
struct Tables {
    cost: Map<usize, i32>,
    pred: Map<usize, Option<GraphIdx>>,
    queue: Seq<QueueNode>,
    settled: Set<usize>,
    route: Map<usize, Seq<int>>,
}

spec fn inner_settled(t: Tables, v: usize, i: int) -> bool {
    t.settled.contains(t.route[v][i] as usize)
}

/// What is known of a node that has a cost.
spec fn known(m: Seq<Seq<usize>>, s: usize, b: int, t: Tables, v: usize) -> bool {
    &&& v < m.len()
    &&& 0 <= t.cost[v]
    &&& v != s ==> t.cost[v] <= b
    &&& t.route.contains_key(v)
    &&& route_to(m, t.pred, s as int, v as int, t.route[v])
    &&& walk_cost(m, t.route[v]) == t.cost[v]
    &&& forall|i: int| 0 <= i < t.route[v].len() - 1 ==> #[trigger] inner_settled(t, v, i)
    &&& v != s ==> t.route[v].len() >= 2 && walk_cost(m, t.route[v].drop_last()) == t.cost[t.route[v][t.route[v].len()
        - 2] as usize]
}

/// The edge from `x` to `v`, if it is there and leads to a cost inside
/// the radius, has been looked at.
spec fn relaxed(m: Seq<Seq<usize>>, b: int, t: Tables, x: usize, v: usize) -> bool {
    m[x as int][v as int] > 0 && t.cost[x] + m[x as int][v as int] <= b ==> t.cost.contains_key(v)
        && t.cost[v] <= t.cost[x] + m[x as int][v as int]
}

/// The entry of `v` at its current cost.
spec fn entry_of(t: Tables, v: usize) -> QueueNode {
    QueueNode { idx: GraphIdx(v), weight: t.cost[v] }
}

/// The frontier holds `v` with its current cost.
spec fn queued(t: Tables, v: usize) -> bool {
    t.queue.contains(entry_of(t, v))
}

spec fn entry_ok(t: Tables, e: QueueNode) -> bool {
    &&& t.cost.contains_key(e.idx.0)
    &&& e.weight >= t.cost[e.idx.0]
    &&& forall|x: usize| #[trigger] t.settled.contains(x) ==> t.cost[x] <= e.weight
}

/// What holds while the row of `cur` is looked at, up to column `j`. With
/// `j` the number of nodes it holds between two rows.
spec fn inv(m: Seq<Seq<usize>>, s: usize, b: int, t: Tables, cur: usize, j: int) -> bool {
    &&& square(m)
    &&& s < m.len() <= usize::MAX
    &&& 0 <= j <= m.len()
    &&& forall|v: usize| #[trigger] t.cost.contains_key(v) <==> t.pred.contains_key(v)
    &&& t.cost.contains_key(s)
    &&& t.cost[s] == 0
    &&& t.pred[s] is None
    &&& forall|v: usize| #[trigger] t.cost.contains_key(v) ==> known(m, s, b, t, v)
    &&& forall|x: usize| #[trigger]
        t.settled.contains(x) ==> t.cost.contains_key(x) && cheapest(
            m,
            s as int,
            x as int,
            t.cost[x] as int,
        ) && (j < m.len() ==> t.cost[x] <= t.cost[cur])
    &&& j < m.len() ==> t.settled.contains(cur)
    &&& forall|x: usize, v: usize|
        t.settled.contains(x) && v < m.len() && (x != cur || v < j) ==> #[trigger] relaxed(
            m,
            b,
            t,
            x,
            v,
        )
    &&& forall|v: usize| t.cost.contains_key(v) && !t.settled.contains(v) ==> #[trigger] queued(t, v)
    &&& forall|e: QueueNode| #[trigger] t.queue.contains(e) ==> entry_ok(t, e)
}

spec fn initial(s: usize, queue: Seq<QueueNode>) -> Tables {
    Tables {
        cost: Map::empty().insert(s, 0i32),
        pred: Map::empty().insert(s, None::<GraphIdx>),
        queue,
        settled: Set::empty(),
        route: Map::empty().insert(s, seq![s as int]),
    }
}

proof fn lemma_initial(m: Seq<Seq<usize>>, s: usize, b: int, queue: Seq<QueueNode>)
    requires
        square(m),
        s < m.len() <= usize::MAX,
        added(Seq::empty(), queue, QueueNode { idx: GraphIdx(s), weight: 0i32 }),
    ensures
        inv(m, s, b, initial(s, queue), s, m.len() as int),
{
    let t = initial(s, queue);
    let p = seq![s as int];
    assert(walk_between(adjacency_of(m), p, s as int, s as int));
    assert(known(m, s, b, t, s));
    assert(queue.contains(entry_of(t, s)));
    assert(queued(t, s));
    assert forall|e: QueueNode| #[trigger] t.queue.contains(e) implies entry_ok(t, e) by {
        assert(e == entry_of(t, s));
    }
}

/// An unsettled node that leaves the frontier as one of least weight has
/// its final cost: no walk to it is cheaper.
proof fn lemma_front_cheapest(
    m: Seq<Seq<usize>>,
    s: usize,
    b: int,
    t: Tables,
    cur: usize,
    e: QueueNode,
    q: Seq<int>,
    k: int,
)
    requires
        inv(m, s, b, t, cur, m.len() as int),
        t.queue.contains(e),
        least(t.queue, e),
        !t.settled.contains(e.idx.0),
        is_walk(adjacency_of(m), q),
        q[0] == s,
        0 <= k < q.len(),
    ensures
        walk_cost(m, q.take(k + 1)) >= e.weight || (t.settled.contains(q[k] as usize)
            && t.cost[q[k] as usize] <= walk_cost(m, q.take(k + 1))),
        e.weight == t.cost[e.idx.0],
    decreases k,
{
    let g = adjacency_of(m);
    let u = e.idx.0;
    assert(entry_ok(t, e));
    assert(known(m, s, b, t, u));
    assert(queued(t, u));
    assert(t.queue.contains(entry_of(t, u)));
    assert(e.weight <= entry_of(t, u).weight);
    assert(e.weight == t.cost[u]);
    if k == 0 {
        assert(q.take(1).len() == 1);
        if !t.settled.contains(s) {
            assert(queued(t, s));
            assert(t.queue.contains(entry_of(t, s)));
            assert(e.weight <= entry_of(t, s).weight);
        }
    } else {
        lemma_front_cheapest(m, s, b, t, cur, e, q, k - 1);
        lemma_cost_step(m, q, k);
        let before = walk_cost(m, q.take(k));
        let after = walk_cost(m, q.take(k + 1));
        assert(step_ok(g, q, k - 1));
        let x = q[k - 1] as usize;
        let y = q[k] as usize;
        let w = m[x as int][y as int];
        assert(after == before + w);
        if before >= e.weight {
        } else {
            assert(t.settled.contains(x));
            assert(relaxed(m, b, t, x, y));
            if t.cost[x] + w > b {
                if u != s {
                    assert(after > b);
                }
            } else {
                assert(t.cost.contains_key(y));
                if !t.settled.contains(y) {
                    assert(queued(t, y));
                    assert(t.queue.contains(entry_of(t, y)));
                    assert(e.weight <= entry_of(t, y).weight);
                }
            }
        }
    }
}

/// The tables after an entry left the frontier and its node was settled.
spec fn settle(t: Tables, e: QueueNode, queue: Seq<QueueNode>) -> Tables {
    Tables { cost: t.cost, pred: t.pred, queue, settled: t.settled.insert(e.idx.0), route: t.route }
}

/// The tables after an entry left the frontier.
spec fn discard(t: Tables, queue: Seq<QueueNode>) -> Tables {
    Tables { cost: t.cost, pred: t.pred, queue, settled: t.settled, route: t.route }
}

/// The tables after the edge from `u` to `v` gave `v` the cost `c`.
spec fn relax(t: Tables, u: usize, v: usize, c: i32, queue: Seq<QueueNode>) -> Tables {
    Tables {
        cost: t.cost.insert(v, c),
        pred: t.pred.insert(v, Some(GraphIdx(u))),
        queue,
        settled: t.settled,
        route: t.route.insert(v, t.route[u].push(v as int)),
    }
}

proof fn lemma_pop_fresh(
    m: Seq<Seq<usize>>,
    s: usize,
    b: int,
    t: Tables,
    cur: usize,
    e: QueueNode,
    queue: Seq<QueueNode>,
)
    requires
        inv(m, s, b, t, cur, m.len() as int),
        t.queue.contains(e),
        least(t.queue, e),
        taken(t.queue, queue, e),
        !t.settled.contains(e.idx.0),
    ensures
        inv(m, s, b, settle(t, e, queue), e.idx.0, 0),
        e.weight == t.cost[e.idx.0],
        cheapest(m, s as int, e.idx.0 as int, e.weight as int),
{
    let g = adjacency_of(m);
    let u = e.idx.0;
    let n = settle(t, e, queue);
    assert(entry_ok(t, e));
    assert(known(m, s, b, t, u));
    let stay = seq![s as int];
    assert(walk_between(g, stay, s as int, s as int));
    lemma_front_cheapest(m, s, b, t, cur, e, stay, 0);
    assert forall|q: Seq<int>| #[trigger] walk_between(g, q, s as int, u as int) implies walk_cost(
        m,
        q,
    ) >= t.cost[u] by {
        lemma_front_cheapest(m, s, b, t, cur, e, q, q.len() - 1);
        assert(q.take(q.len() as int) =~= q);
    }
    assert forall|v: usize| #[trigger] n.cost.contains_key(v) implies known(m, s, b, n, v) by {
        assert(known(m, s, b, t, v));
        assert forall|k: int| 0 <= k < n.route[v].len() - 1 implies #[trigger] inner_settled(
            n,
            v,
            k,
        ) by {
            assert(inner_settled(t, v, k));
        }
    }
    assert forall|x: usize| #[trigger] n.settled.contains(x) implies n.cost.contains_key(x)
        && cheapest(m, s as int, x as int, n.cost[x] as int) && (0 < m.len() ==> n.cost[x]
        <= n.cost[u]) by {
        if x != u {
            assert(t.settled.contains(x));
        }
    }
    assert forall|x: usize, v: usize|
        n.settled.contains(x) && v < m.len() && (x != u || v < 0) implies #[trigger] relaxed(
        m,
        b,
        n,
        x,
        v,
    ) by {
        assert(t.settled.contains(x));
        assert(relaxed(m, b, t, x, v));
    }
    assert forall|v: usize| n.cost.contains_key(v) && !n.settled.contains(v) implies #[trigger] queued(
        n,
        v,
    ) by {
        assert(queued(t, v));
        assert(entry_of(t, v) != e);
        assert(queue.contains(entry_of(t, v)));
    }
    assert forall|x: QueueNode| #[trigger] n.queue.contains(x) implies entry_ok(n, x) by {
        assert(t.queue.contains(x));
        assert(entry_ok(t, x));
        assert forall|y: usize| #[trigger] n.settled.contains(y) implies n.cost[y] <= x.weight by {
            if y != u {
                assert(t.settled.contains(y));
            }
        }
    }
}

proof fn lemma_pop_stale(
    m: Seq<Seq<usize>>,
    s: usize,
    b: int,
    t: Tables,
    cur: usize,
    e: QueueNode,
    queue: Seq<QueueNode>,
)
    requires
        inv(m, s, b, t, cur, m.len() as int),
        t.queue.contains(e),
        taken(t.queue, queue, e),
        t.settled.contains(e.idx.0),
    ensures
        inv(m, s, b, discard(t, queue), cur, m.len() as int),
{
    let n = discard(t, queue);
    assert forall|v: usize| #[trigger] n.cost.contains_key(v) implies known(m, s, b, n, v) by {
        assert(known(m, s, b, t, v));
        assert forall|k: int| 0 <= k < n.route[v].len() - 1 implies #[trigger] inner_settled(
            n,
            v,
            k,
        ) by {
            assert(inner_settled(t, v, k));
        }
    }
    assert forall|x: usize, v: usize|
        n.settled.contains(x) && v < m.len() implies #[trigger] relaxed(m, b, n, x, v) by {
        assert(relaxed(m, b, t, x, v));
    }
    assert forall|v: usize| n.cost.contains_key(v) && !n.settled.contains(v) implies #[trigger] queued(
        n,
        v,
    ) by {
        assert(queued(t, v));
        assert(entry_of(t, v) != e);
        assert(queue.contains(entry_of(t, v)));
    }
    assert forall|x: QueueNode| #[trigger] n.queue.contains(x) implies entry_ok(n, x) by {
        assert(t.queue.contains(x));
        assert(entry_ok(t, x));
    }
}

proof fn lemma_skip(m: Seq<Seq<usize>>, s: usize, b: int, t: Tables, u: usize, j: usize)
    requires
        inv(m, s, b, t, u, j as int),
        j < m.len(),
        relaxed(m, b, t, u, j),
    ensures
        inv(m, s, b, t, u, j + 1),
{
    assert forall|x: usize, v: usize|
        t.settled.contains(x) && v < m.len() && (x != u || v < j + 1) implies #[trigger] relaxed(
        m,
        b,
        t,
        x,
        v,
    ) by {}
}

proof fn lemma_relax(
    m: Seq<Seq<usize>>,
    s: usize,
    b: int,
    t: Tables,
    u: usize,
    j: usize,
    c: i32,
    queue: Seq<QueueNode>,
)
    requires
        inv(m, s, b, t, u, j as int),
        j < m.len(),
        m[u as int][j as int] > 0,
        c == t.cost[u] + m[u as int][j as int],
        c <= b,
        !t.cost.contains_key(j) || c < t.cost[j],
        added(t.queue, queue, QueueNode { idx: GraphIdx(j), weight: c }),
    ensures
        inv(m, s, b, relax(t, u, j, c, queue), u, j + 1),
{
    let g = adjacency_of(m);
    let n = relax(t, u, j, c, queue);
    let w = m[u as int][j as int];
    let fresh = QueueNode { idx: GraphIdx(j), weight: c };
    assert(t.settled.contains(u));
    assert(known(m, s, b, t, u));
    assert(m[u as int].len() == m.len());
    assert(arc(g, u as int, j as int));
    if t.settled.contains(j) {
        assert(t.cost[j] <= t.cost[u]);
    }
    assert(!t.settled.contains(j));
    assert(j != s);
    assert(j != u);
    let ru = t.route[u];
    let rj = ru.push(j as int);
    assert forall|k: int| 0 <= k < ru.len() implies t.settled.contains(#[trigger] ru[k] as usize)
        && ru[k] != j by {
        if k < ru.len() - 1 {
            assert(inner_settled(t, u, k));
        }
    }
    // every recorded walk still follows the new predecessors
    assert forall|v: usize| #[trigger] n.cost.contains_key(v) implies known(m, s, b, n, v) by {
        if v == j {
            assert forall|k: int| 0 <= k < rj.len() - 1 implies #[trigger] step_ok(g, rj, k) by {
                if k < ru.len() - 1 {
                    assert(step_ok(g, ru, k));
                }
            }
            assert(walk_between(g, rj, s as int, j as int));
            assert forall|k: int| 1 <= k < rj.len() implies #[trigger] link_ok(n.pred, rj, k) by {
                if k < ru.len() {
                    assert(link_ok(t.pred, ru, k));
                    assert(ru[k] != j);
                }
            }
            assert(rj.drop_last() =~= ru);
            assert(walk_cost(m, rj) == walk_cost(m, ru) + w);
            assert(rj[rj.len() - 2] == u);
            assert forall|k: int| 0 <= k < n.route[v].len() - 1 implies #[trigger] inner_settled(
                n,
                v,
                k,
            ) by {
                assert(t.settled.contains(ru[k] as usize));
            }
        } else {
            assert(known(m, s, b, t, v));
            let rv = t.route[v];
            assert(n.route[v] == rv);
            if v != s {
                assert(inner_settled(t, v, rv.len() - 2));
            }
            assert forall|k: int| 1 <= k < rv.len() implies #[trigger] link_ok(n.pred, rv, k) by {
                assert(link_ok(t.pred, rv, k));
                if k < rv.len() - 1 {
                    assert(inner_settled(t, v, k));
                }
            }
            assert forall|k: int| 0 <= k < n.route[v].len() - 1 implies #[trigger] inner_settled(
                n,
                v,
                k,
            ) by {
                assert(inner_settled(t, v, k));
            }
        }
    }
    assert forall|x: usize| #[trigger] n.settled.contains(x) implies n.cost.contains_key(x)
        && cheapest(m, s as int, x as int, n.cost[x] as int) && (j + 1 < m.len() ==> n.cost[x]
        <= n.cost[u]) by {
        assert(t.settled.contains(x));
    }
    assert forall|x: usize, v: usize|
        n.settled.contains(x) && v < m.len() && (x != u || v < j + 1) implies #[trigger] relaxed(
        m,
        b,
        n,
        x,
        v,
    ) by {
        assert(t.settled.contains(x));
        if x == u && v == j {
        } else {
            assert(relaxed(m, b, t, x, v));
        }
    }
    assert forall|v: usize| n.cost.contains_key(v) && !n.settled.contains(v) implies #[trigger] queued(
        n,
        v,
    ) by {
        if v == j {
            assert(entry_of(n, v) == fresh);
            assert(queue.contains(fresh));
        } else {
            assert(queued(t, v));
            assert(entry_of(n, v) == entry_of(t, v));
            assert(queue.contains(entry_of(t, v)));
        }
    }
    assert forall|x: QueueNode| #[trigger] n.queue.contains(x) implies entry_ok(n, x) by {
        if t.queue.contains(x) {
            assert(entry_ok(t, x));
        } else {
            assert(x == fresh);
            assert forall|y: usize| #[trigger] n.settled.contains(y) implies n.cost[y] <= c by {
                assert(t.settled.contains(y));
            }
        }
    }
}

/// Once the frontier is empty, every node inside the radius is settled.
proof fn lemma_exhausted(
    m: Seq<Seq<usize>>,
    s: usize,
    b: int,
    t: Tables,
    cur: usize,
    q: Seq<int>,
    k: int,
)
    requires
        inv(m, s, b, t, cur, m.len() as int),
        t.queue.len() == 0,
        is_walk(adjacency_of(m), q),
        q[0] == s,
        walk_cost(m, q) <= b,
        0 <= k < q.len(),
    ensures
        t.settled.contains(q[k] as usize),
        t.cost[q[k] as usize] <= walk_cost(m, q.take(k + 1)),
    decreases k,
{
    let g = adjacency_of(m);
    if k == 0 {
        if !t.settled.contains(s) {
            assert(queued(t, s));
        }
        assert(q.take(1).len() == 1);
    } else {
        lemma_exhausted(m, s, b, t, cur, q, k - 1);
        lemma_cost_step(m, q, k);
        lemma_cost_prefix(m, q, k + 1);
        assert(step_ok(g, q, k - 1));
        let x = q[k - 1] as usize;
        let y = q[k] as usize;
        assert(relaxed(m, b, t, x, y));
        if !t.settled.contains(y) {
            assert(queued(t, y));
        }
    }
}

impl<T, D, W> Graph<T, D, W> where T: Hash + Eq + Clone, D: Clone + Orientation, W: Clone {
    /// Implementation of Dijkstra's path finding algorithm.
    ///
    /// The `max_cost` determines how far out to discover nodes, computed
    /// via edge weights: a node enters the result only by a walk that
    /// costs no more. If no max is provided, the search goes as far as
    /// costs can be counted in an `i32`.
    ///
    /// If a `target` is provided, the search halts when the target node is
    /// taken from the frontier; its recorded walk is then a cheapest one,
    /// and no node has been recorded that was reached from a node further
    /// away than the target.
    ///
    /// Returns, for each node discovered, the node it was reached from, and
    /// `None` for `start`. The keys are the indices of the nodes as
    /// numbers.
    pub fn dijkstra(&self, start: GraphIdx, max_cost: Option<i32>, target: Option<GraphIdx>) -> (came_from:
        HashMap<usize, Option<GraphIdx>>)
        requires
            self.wf(),
            start.0 < self@.len(),
        ensures
            came_from@.contains_key(start.0),
            came_from@[start.0] is None,
            forall|v: usize| #[trigger]
                came_from@.contains_key(v) ==> v < self@.len() && recorded(
                    self@,
                    came_from@,
                    start.0 as int,
                    v as int,
                ) && (v != start.0 ==> within(self@, start.0 as int, v as int, radius(max_cost))),
            match target {
                Some(t) => t == start || within(self@, start.0 as int, t.0 as int, radius(max_cost))
                    ==> came_from@.contains_key(t.0) && recorded_cheapest(
                    self@,
                    came_from@,
                    start.0 as int,
                    t.0 as int,
                ),
                None => true,
            },
            match target {
                Some(t) => came_from@.contains_key(t.0) ==> forall|v: usize| #[trigger]
                    came_from@.contains_key(v) && v != start.0 ==> reached_before(
                        self@,
                        came_from@,
                        start.0 as int,
                        v as int,
                        t.0 as int,
                    ),
                None => true,
            },
            (match target {
                Some(t) => !came_from@.contains_key(t.0),
                None => true,
            }) ==> forall|v: usize| #[trigger]
                came_from@.contains_key(v) <==> v == start.0 || within(
                    self@,
                    start.0 as int,
                    v as int,
                    radius(max_cost),
                ),
            (match target {
                Some(t) => !came_from@.contains_key(t.0),
                None => true,
            }) ==> forall|v: usize| #[trigger]
                came_from@.contains_key(v) ==> recorded_cheapest(
                    self@,
                    came_from@,
                    start.0 as int,
                    v as int,
                ),
    {
        let n = self.nodes();
        let ghost m = self@;
        let ghost s = start.0;
        let ghost b = radius(max_cost);
        proof {
            self.lemma_shape();
        }
        let mut frontier = Frontier::new();
        let ghost f_new = frontier;
        let ghost none = frontier.entries();
        frontier.push(QueueNode::new(start, 0));
        let mut came_from: HashMap<usize, Option<GraphIdx>> = HashMap::new();
        came_from.insert(start.0, None);
        let mut cost_so_far: HashMap<usize, i32> = HashMap::new();
        cost_so_far.insert(start.0, 0);
        let ghost mut settled: Set<usize> = Set::empty();
        let ghost mut route: Map<usize, Seq<int>> = Map::empty().insert(s, seq![s as int]);
        let ghost mut order: Seq<usize> = Seq::empty();
        let ghost mut cur: usize = s;
        let ghost mut hit: bool = false;
        proof {
            assert(none =~= Seq::<QueueNode>::empty());
            assert forall|x: QueueNode| #[trigger]
                frontier.entries().contains(x) <==> Seq::<QueueNode>::empty().contains(x) || x == (
                QueueNode { idx: GraphIdx(s), weight: 0i32 }) by {
                assert(frontier.holds(x) <==> f_new.holds(x) || x == (QueueNode {
                    idx: GraphIdx(s),
                    weight: 0i32,
                }));
            }
            lemma_initial(m, s, b, frontier.entries());
        }
        loop
            invariant_except_break
                !hit,
                inv(
                    m,
                    s,
                    b,
                    Tables {
                        cost: cost_so_far@,
                        pred: came_from@,
                        queue: frontier.entries(),
                        settled,
                        route,
                    },
                    cur,
                    n as int,
                ),
                order.no_duplicates(),
                forall|x: usize| order.contains(x) <==> settled.contains(x),
            invariant
                n == m.len(),
                m == self@,
                s == start.0,
                b == radius(max_cost),
                self.wf(),
                frontier.wf(),
                came_from@.contains_key(s),
                came_from@[s] is None,
                forall|v: usize| #[trigger] cost_so_far@.contains_key(v) <==> came_from@.contains_key(v),
                forall|v: usize| #[trigger]
                    cost_so_far@.contains_key(v) ==> known(
                        m,
                        s,
                        b,
                        Tables {
                            cost: cost_so_far@,
                            pred: came_from@,
                            queue: frontier.entries(),
                            settled,
                            route,
                        },
                        v,
                    ),
                hit ==> exists|t: GraphIdx|
                    target == Some(t) && cost_so_far@.contains_key(t.0) && cheapest(
                        m,
                        s as int,
                        t.0 as int,
                        cost_so_far@[t.0] as int,
                    ),
                hit ==> exists|t: GraphIdx|
                    target == Some(t) && forall|x: usize| #[trigger]
                        settled.contains(x) ==> cost_so_far@[x] <= cost_so_far@[t.0],
                forall|t: GraphIdx| target == Some(t) ==> !settled.contains(t.0),
            ensures
                !hit ==> frontier.entries().len() == 0 && inv(
                    m,
                    s,
                    b,
                    Tables {
                        cost: cost_so_far@,
                        pred: came_from@,
                        queue: frontier.entries(),
                        settled,
                        route,
                    },
                    cur,
                    n as int,
                ),
            decreases n - order.len(), frontier.entries().len(),
        {
            let ghost t0 = Tables {
                cost: cost_so_far@,
                pred: came_from@,
                queue: frontier.entries(),
                settled,
                route,
            };
            proof {
                assert forall|k: int| 0 <= k < order.len() implies order[k] < n by {
                    assert(order.contains(order[k]));
                    assert(t0.settled.contains(order[k]));
                    assert(t0.cost.contains_key(order[k]));
                    assert(known(m, s, b, t0, order[k]));
                }
                lemma_distinct_nodes_len(order, n as nat);
            }
            let ghost f0 = frontier;
            let current = match frontier.pop() {
                None => {
                    break ;
                },
                Some(found) => found,
            };
            let ghost u = current.idx.0;
            let ghost fresh = !settled.contains(u);
            let ghost left = frontier.entries();
            proof {
                assert(t0.queue.contains(current));
                assert(entry_ok(t0, current));
                assert forall|x: QueueNode| #[trigger] t0.queue.contains(x)
                    implies current.weight <= x.weight by {
                    assert(f0.holds(x));
                }
                assert forall|x: QueueNode| #[trigger] left.contains(x) implies t0.queue.contains(
                    x,
                ) by {
                    assert(frontier.holds(x));
                }
                assert forall|x: QueueNode| t0.queue.contains(x) && x != current implies #[trigger] left.contains(
                    x,
                ) by {
                    assert(f0.holds(x));
                    assert(frontier.holds(x));
                }
                if fresh {
                    lemma_pop_fresh(m, s, b, t0, cur, current, left);
                } else {
                    lemma_pop_stale(m, s, b, t0, cur, current, left);
                }
            }
            let reached = match target {
                Some(t) => t.0 == current.idx.0,
                None => false,
            };
            if reached {
                proof {
                    hit = true;
                    assert(target == Some(current.idx));
                    assert(fresh);
                    assert forall|x: usize| #[trigger] settled.contains(x)
                        implies cost_so_far@[x] <= cost_so_far@[current.idx.0] by {
                        assert(settle(t0, current, left).settled.contains(x));
                    }
                    let left = Tables {
                        cost: cost_so_far@,
                        pred: came_from@,
                        queue: frontier.entries(),
                        settled,
                        route,
                    };
                    assert forall|v: usize| #[trigger] cost_so_far@.contains_key(v) implies known(
                        m,
                        s,
                        b,
                        left,
                        v,
                    ) by {
                        assert(known(m, s, b, t0, v));
                        assert forall|k: int| 0 <= k < left.route[v].len() - 1 implies #[trigger] inner_settled(
                            left,
                            v,
                            k,
                        ) by {
                            assert(inner_settled(t0, v, k));
                        }
                    }
                }
                break ;
            }
            proof {
                if fresh {
                    settled = settled.insert(u);
                    lemma_no_dup_push(order, u);
                    assert forall|x: usize| order.push(u).contains(x) <==> settled.contains(x) by {
                        crate::search::lemma_contains_push(order, u, x);
                    }
                    assert forall|k: int| 0 <= k < order.push(u).len() implies order.push(u)[k]
                        < n by {
                        let x = order.push(u)[k];
                        assert(order.push(u).contains(x));
                        assert(settle(t0, current, left).settled.contains(x));
                        assert(settle(t0, current, left).cost.contains_key(x));
                        assert(known(m, s, b, settle(t0, current, left), x));
                    }
                    lemma_distinct_nodes_len(order.push(u), n as nat);
                    order = order.push(u);
                    cur = u;
                }
                assert(known(m, s, b, t0, u));
            }
            let base: i32 = match cost_so_far.get(&current.idx.0) {
                Some(c) => *c,
                None => 0,
            };
            let edges = self.edges(current.idx);
            let ghost queue_len = frontier.entries().len();
            let mut j: usize = 0;
            while j < n
                invariant
                    j <= n,
                    n == m.len(),
                    m == self@,
                    s == start.0,
                    b == radius(max_cost),
                    edges@ == m[u as int],
                    u == current.idx.0,
                    u < n,
                    fresh ==> cur == u,
                    cost_so_far@.contains_key(u),
                    base == cost_so_far@[u],
                    !fresh ==> frontier.entries().len() == queue_len,
                    frontier.wf(),
                    !fresh ==> settled.contains(u),
                    inv(
                        m,
                        s,
                        b,
                        Tables {
                            cost: cost_so_far@,
                            pred: came_from@,
                            queue: frontier.entries(),
                            settled,
                            route,
                        },
                        cur,
                        if fresh {
                            j as int
                        } else {
                            n as int
                        },
                    ),
                decreases n - j,
            {
                let ghost t1 = Tables {
                    cost: cost_so_far@,
                    pred: came_from@,
                    queue: frontier.entries(),
                    settled,
                    route,
                };
                let w = edges[j];
                let ghost mut done = false;
                proof {
                    assert(m[u as int].len() == n);
                    if !fresh {
                        assert(settled.contains(u));
                        assert(relaxed(m, b, t1, u, j));
                    }
                }
                if w > 0 && w <= i32::MAX as usize {
                    match base.checked_add(w as i32) {
                        Some(new_cost) => {
                            let better = match cost_so_far.get(&j) {
                                None => true,
                                Some(c) => new_cost < *c,
                            };
                            let allowed = match max_cost {
                                None => true,
                                Some(max) => new_cost <= max,
                            };
                            if better && allowed {
                                let ghost f1 = frontier;
                                cost_so_far.insert(j, new_cost);
                                came_from.insert(j, Some(current.idx));
                                frontier.push(QueueNode::new(GraphIdx(j), new_cost));
                                proof {
                                    assert(fresh);
                                    let more = frontier.entries();
                                    assert forall|x: QueueNode| #[trigger]
                                        more.contains(x) <==> t1.queue.contains(x) || x == (
                                        QueueNode { idx: GraphIdx(j), weight: new_cost }) by {
                                        assert(frontier.holds(x) <==> f1.holds(x) || x == (
                                        QueueNode { idx: GraphIdx(j), weight: new_cost }));
                                    }
                                    lemma_relax(m, s, b, t1, u, j, new_cost, more);
                                    route = route.insert(j, route[u].push(j as int));
                                    done = true;
                                    assert(known(m, s, b, relax(t1, u, j, new_cost, more), u));
                                }
                            }
                        },
                        None => {},
                    }
                }
                proof {
                    if !done && fresh {
                        lemma_skip(m, s, b, t1, u, j);
                    }
                }
                j += 1;
            }
        }
        proof {
            let t = Tables {
                cost: cost_so_far@,
                pred: came_from@,
                queue: frontier.entries(),
                settled,
                route,
            };
            let g = adjacency_of(m);
            assert(cost_so_far@.contains_key(s));
            assert forall|v: usize| #[trigger] came_from@.contains_key(v) implies v < m.len()
                && recorded(m, came_from@, s as int, v as int) && (v != s ==> within(
                m,
                s as int,
                v as int,
                b,
            )) by {
                assert(cost_so_far@.contains_key(v));
                assert(known(m, s, b, t, v));
                assert(route_to(m, came_from@, s as int, v as int, route[v]));
                assert(walk_between(g, route[v], s as int, v as int));
            }
            if hit {
                let tt = choose|tt: GraphIdx|
                    target == Some(tt) && cost_so_far@.contains_key(tt.0) && cheapest(
                        m,
                        s as int,
                        tt.0 as int,
                        cost_so_far@[tt.0] as int,
                    );
                assert(known(m, s, b, t, tt.0));
                assert(route_to(m, came_from@, s as int, tt.0 as int, route[tt.0]));
                assert(recorded_cheapest(m, came_from@, s as int, tt.0 as int));
                assert(came_from@.contains_key(tt.0));
                let t2 = choose|t2: GraphIdx|
                    target == Some(t2) && forall|x: usize| #[trigger]
                        settled.contains(x) ==> cost_so_far@[x] <= cost_so_far@[t2.0];
                assert(t2 == tt);
                assert forall|v: usize| #[trigger] came_from@.contains_key(v) && v != s
                    implies reached_before(m, came_from@, s as int, v as int, tt.0 as int) by {
                    assert(cost_so_far@.contains_key(v));
                    assert(known(m, s, b, t, v));
                    let p = route[v];
                    let q = route[tt.0];
                    assert(inner_settled(t, v, p.len() - 2));
                    let u = p[p.len() - 2] as usize;
                    assert(settled.contains(u));
                    assert(route_to(m, came_from@, s as int, v as int, p) && route_to(
                        m,
                        came_from@,
                        s as int,
                        tt.0 as int,
                        q,
                    ));
                }
            } else {
                assert forall|v: usize| #[trigger] within(m, s as int, v as int, b)
                    implies came_from@.contains_key(v) by {
                    let q = choose|q: Seq<int>| #[trigger]
                        walk_between(g, q, s as int, v as int) && walk_cost(m, q) <= b;
                    lemma_exhausted(m, s, b, t, cur, q, q.len() - 1);
                    assert(t.settled.contains(v));
                    assert(t.cost.contains_key(v));
                }
                assert forall|v: usize| #[trigger] came_from@.contains_key(v)
                    implies recorded_cheapest(m, came_from@, s as int, v as int) by {
                    assert(cost_so_far@.contains_key(v));
                    assert(known(m, s, b, t, v));
                    if !settled.contains(v) {
                        assert(queued(t, v));
                    }
                    assert(t.settled.contains(v));
                    assert(cheapest(m, s as int, v as int, t.cost[v] as int));
                    assert(walk_cost(m, route[v]) == t.cost[v]);
                    assert(route_to(m, came_from@, s as int, v as int, route[v]));
                }
                match target {
                    Some(tt) => {
                        if tt == start {
                            assert(came_from@.contains_key(tt.0));
                        }
                        if came_from@.contains_key(tt.0) {
                            assert(cost_so_far@.contains_key(tt.0));
                            if !settled.contains(tt.0) {
                                assert(queued(t, tt.0));
                            }
                        }
                    },
                    None => {},
                }
            }
        }
        came_from
    }

    /// Calculates a cheapest path from a starting node to a target node, if
    /// there is one that costs no more than an `i32` can count. Internally
    /// utilizes Dijkstra's algorithm for path finding.
    ///
    /// The path is returned in walking order: it leaves out `start`, begins
    /// with the node that follows it and ends with `target`. It is empty
    /// where `target` is `start`.
    pub fn path_to(&self, start: GraphIdx, target: GraphIdx) -> (r: Option<Vec<GraphIdx>>)
        requires
            self.wf(),
            start.0 < self@.len(),
        ensures
            r is Some <==> target == start || within(
                self@,
                start.0 as int,
                target.0 as int,
                i32::MAX as int,
            ),
            match r {
                Some(path) => {
                    &&& walk_between(
                        self.adjacency(),
                        path_nodes(start, path@),
                        start.0 as int,
                        target.0 as int,
                    )
                    &&& cheapest(
                        self@,
                        start.0 as int,
                        target.0 as int,
                        walk_cost(self@, path_nodes(start, path@)),
                    )
                },
                None => true,
            },
    {
        let came_from = self.dijkstra(start, None, Some(target));
        if !came_from.contains_key(&target.0) {
            return None;
        }
        let ghost m = self@;
        let ghost p = choose|p: Seq<int>| #[trigger]
            route_to(m, came_from@, start.0 as int, target.0 as int, p) && cheapest(
                m,
                start.0 as int,
                target.0 as int,
                walk_cost(m, p),
            );
        let ghost mut k: int = p.len() - 1;
        let mut curr = target;
        let mut path = Vec::<GraphIdx>::new();
        proof {
            assert(came_from@.contains_key(target.0));
            assert(recorded_cheapest(m, came_from@, start.0 as int, target.0 as int));
            assert(recorded(m, came_from@, start.0 as int, target.0 as int));
            if target != start {
                assert(within(m, start.0 as int, target.0 as int, i32::MAX as int));
            }
        }
        while curr != start
            invariant
                0 <= k < p.len(),
                curr.0 == p[k],
                route_to(m, came_from@, start.0 as int, target.0 as int, p),
                m == self@,
                self.wf(),
                came_from@[start.0] is None,
                came_from@.contains_key(start.0),
                path@.len() == p.len() - 1 - k,
                forall|i: int| 0 <= i < path@.len() ==> (#[trigger] path@[i]).0 == p[p.len() - 1 - i],
            decreases k,
        {
            proof {
                assert(k >= 1);
                assert(link_ok(came_from@, p, k));
                self.lemma_shape();
                crate::reach::lemma_walk_nodes(adjacency_of(m), p, k - 1);
                crate::reach::lemma_walk_nodes(adjacency_of(m), p, k);
            }
            path.push(curr);
            match came_from.get(&curr.0) {
                None => {
                    return None;
                },
                Some(next) => {
                    match next {
                        None => {
                            return None;
                        },
                        Some(nx) => {
                            curr = *nx;
                        },
                    }
                },
            }
            proof {
                k = k - 1;
            }
        }
        proof {
            if k > 0 {
                assert(link_ok(came_from@, p, k));
            }
        }
        let mut out = Vec::<GraphIdx>::new();
        let mut i: usize = path.len();
        while i > 0
            invariant
                i <= path@.len(),
                path@.len() == p.len() - 1,
                out@.len() == path@.len() - i,
                forall|a: int| 0 <= a < path@.len() ==> (#[trigger] path@[a]).0 == p[p.len() - 1 - a],
                forall|a: int| 0 <= a < out@.len() ==> (#[trigger] out@[a]).0 == p[a + 1],
            decreases i,
        {
            i -= 1;
            out.push(path[i]);
        }
        proof {
            assert(path_nodes(start, out@) =~= p);
        }
        Some(out)
    }
}

} // verus!

//! Strongly connected components by Tarjan's algorithm.
use vstd::prelude::*;
use crate::list_graph::graph::Graph;
use crate::orientation::Orientation;
use crate::reach::{
    arc,
    lemma_reach_arc,
    lemma_reach_closed,
    lemma_reach_extend,
    lemma_reach_self,
    lemma_reach_trans,
    reachable,
    tied,
};
use crate::search::{lemma_distinct_nodes_len, lists_successors};

verus! {

/// `tg` lists, for each node of `g`, its successors.
pub open spec fn lists(g: Seq<Set<int>>, tg: Seq<Seq<usize>>) -> bool {
    &&& g.len() == tg.len()
    &&& forall|a: usize| a < g.len() ==> #[trigger] lists_successors(g, a, tg[a as int])
}

/// `labels` names the strongly connected components of `g`: two nodes have
/// the same label exactly when each reaches the other.
pub open spec fn components(labels: Seq<usize>, g: Seq<Set<int>>) -> bool {
    &&& labels.len() == g.len()
    &&& forall|x: int, y: int|
        0 <= x < g.len() && 0 <= y < g.len() ==> (labels[x] == labels[y] <==> tied(g, x, y))
}

/// The bookkeeping of the algorithm, as a mathematical value.
pub struct Scc {
    /// The number of nodes discovered so far.
    pub id: usize,
    /// The discovery index of each node, or `-1` where it is not
    /// discovered yet. The first node discovered has index one.
    pub ids: Seq<isize>,
    /// The low-link value of each node.
    pub low: Seq<usize>,
    /// Whether each node is on the stack.
    pub on_stack: Seq<bool>,
    /// The nodes whose component is not complete yet, oldest first.
    pub stack: Seq<usize>,
    /// The nodes in the order of their discovery.
    pub disc: Seq<usize>,
}

/// The node was discovered and has left the stack: its component is
/// complete.
pub open spec fn done(t: Scc, x: usize) -> bool {
    x < t.ids.len() && t.ids[x as int] != -1 && !t.on_stack[x as int]
}

/// No list of successors is longer than a `usize` can count.
pub open spec fn bounded(tg: Seq<Seq<usize>>) -> bool {
    forall|a: int| 0 <= a < tg.len() ==> (#[trigger] tg[a]).len() <= usize::MAX
}

spec fn shape(g: Seq<Set<int>>, tg: Seq<Seq<usize>>, t: Scc) -> bool {
    &&& lists(g, tg)
    &&& bounded(tg)
    &&& t.ids.len() == g.len()
    &&& t.low.len() == g.len()
    &&& t.on_stack.len() == g.len()
    &&& g.len() <= isize::MAX
    &&& t.id == t.disc.len()
}

spec fn numbering(t: Scc) -> bool {
    &&& forall|i: int|
        0 <= i < t.disc.len() ==> (#[trigger] t.disc[i]) < t.ids.len() && t.ids[t.disc[i] as int]
            == i + 1
    &&& forall|x: usize|
        x < t.ids.len() ==> (#[trigger] t.ids[x as int]) == -1 || (1 <= t.ids[x as int] <= t.id
            && t.disc[t.ids[x as int] - 1] == x)
}

spec fn stack_ok(t: Scc) -> bool {
    &&& forall|q: int|
        0 <= q < t.stack.len() ==> (#[trigger] t.stack[q]) < t.ids.len()
            && t.on_stack[t.stack[q] as int] && t.ids[t.stack[q] as int] >= 1
    &&& forall|x: usize| x < t.ids.len() && #[trigger] t.on_stack[x as int] ==> t.stack.contains(x)
    &&& forall|p: int, q: int| 0 <= p < q < t.stack.len() ==> #[trigger] ord(t, p, q)
}

/// The node at position `p` of the stack was discovered before the one at
/// position `q`.
spec fn ord(t: Scc, p: int, q: int) -> bool {
    t.ids[t.stack[p] as int] < t.ids[t.stack[q] as int]
}

spec fn same_label(t: Scc, x: usize, y: usize) -> bool {
    t.low[x as int] == t.low[y as int]
}

spec fn pos_low(g: Seq<Set<int>>, t: Scc, q: int, pz: int) -> bool {
    &&& 0 <= pz <= q
    &&& t.ids[t.stack[pz] as int] == t.low[t.stack[q] as int]
    &&& reachable(g, t.stack[q] as int, t.stack[pz] as int)
}

spec fn has_low(g: Seq<Set<int>>, t: Scc, q: int) -> bool {
    exists|pz: int| #[trigger] pos_low(g, t, q, pz)
}

spec fn low_ok(g: Seq<Set<int>>, t: Scc) -> bool {
    forall|q: int| 0 <= q < t.stack.len() ==> #[trigger] has_low(g, t, q)
}

spec fn closed_done(g: Seq<Set<int>>, t: Scc) -> bool {
    forall|x: usize, y: usize| done(t, x) && #[trigger] arc(g, x as int, y as int) ==> done(t, y)
}

spec fn labels_ok(g: Seq<Set<int>>, t: Scc) -> bool {
    forall|x: usize, y: usize|
        done(t, x) && done(t, y) ==> (#[trigger] same_label(t, x, y) <==> tied(
            g,
            x as int,
            y as int,
        ))
}

spec fn src_of(t: Scc, x: usize, r: usize) -> bool {
    done(t, r) && t.ids[r as int] == t.low[x as int]
}

spec fn has_src(t: Scc, x: usize) -> bool {
    exists|r: usize| #[trigger] src_of(t, x, r)
}

spec fn label_src(t: Scc) -> bool {
    forall|x: usize| #[trigger] done(t, x) ==> has_src(t, x)
}

/// What holds of the bookkeeping at every moment.
spec fn base(g: Seq<Set<int>>, tg: Seq<Seq<usize>>, t: Scc) -> bool {
    &&& shape(g, tg, t)
    &&& numbering(t)
    &&& stack_ok(t)
    &&& low_ok(g, t)
    &&& closed_done(g, t)
    &&& labels_ok(g, t)
    &&& label_src(t)
}

/// The stack position `q` belongs to the frame `k`: it lies at or above
/// the node of that frame and below the node of the next one.
spec fn owns(fp: Seq<int>, len: int, k: int, q: int) -> bool {
    0 <= k < fp.len() && fp[k] <= q < len && (k + 1 < fp.len() ==> q < fp[k + 1])
}

spec fn link(tg: Seq<Seq<usize>>, fr: Seq<(usize, usize)>, fp: Seq<int>, k: int) -> bool {
    &&& fp[k] < fp[k + 1]
    &&& fr[k].1 < tg[fr[k].0 as int].len()
    &&& tg[fr[k].0 as int][fr[k].1 as int] == fr[k + 1].0
}

spec fn frames_shape(tg: Seq<Seq<usize>>, t: Scc, fr: Seq<(usize, usize)>, fp: Seq<int>) -> bool {
    &&& fr.len() == fp.len()
    &&& (fr.len() == 0 <==> t.stack.len() == 0)
    &&& fr.len() > 0 ==> fp[0] == 0
    &&& forall|k: int|
        0 <= k < fr.len() ==> 0 <= (#[trigger] fp[k]) < t.stack.len() && t.stack[fp[k]] == fr[k].0
            && fr[k].1 <= tg[fr[k].0 as int].len()
    &&& forall|k: int| 0 <= k < fr.len() - 1 ==> #[trigger] link(tg, fr, fp, k)
}

spec fn owner_tied(g: Seq<Set<int>>, t: Scc, fr: Seq<(usize, usize)>, fp: Seq<int>) -> bool {
    forall|q: int, k: int| #[trigger]
        owns(fp, t.stack.len() as int, k, q) ==> tied(g, t.stack[q] as int, fr[k].0 as int)
}

/// The edge to `w` needs no more attention: `w` is complete, or it is on
/// the stack and the low-link of `owner` is no larger than its index.
spec fn settled_edge(t: Scc, owner: usize, w: usize) -> bool {
    done(t, w) || (w < t.ids.len() && t.on_stack[w as int] && t.low[owner as int]
        <= t.ids[w as int])
}

spec fn edge_due(
    tg: Seq<Seq<usize>>,
    t: Scc,
    fr: Seq<(usize, usize)>,
    fp: Seq<int>,
    k: int,
    q: int,
    i: int,
) -> bool {
    &&& owns(fp, t.stack.len() as int, k, q)
    &&& 0 <= i < tg[t.stack[q] as int].len()
    &&& q == fp[k] ==> i < fr[k].1
}

spec fn edges_ok(tg: Seq<Seq<usize>>, t: Scc, fr: Seq<(usize, usize)>, fp: Seq<int>) -> bool {
    forall|q: int, k: int, i: int| #[trigger]
        edge_due(tg, t, fr, fp, k, q, i) ==> settled_edge(t, fr[k].0, tg[t.stack[q] as int][i])
}

/// What holds during a depth-first walk whose open calls are `fr`, with
/// the nodes of the frames at the stack positions `fp`.
spec fn all(
    g: Seq<Set<int>>,
    tg: Seq<Seq<usize>>,
    t: Scc,
    fr: Seq<(usize, usize)>,
    fp: Seq<int>,
) -> bool {
    &&& base(g, tg, t)
    &&& frames_shape(tg, t, fr, fp)
    &&& owner_tied(g, t, fr, fp)
    &&& edges_ok(tg, t, fr, fp)
}

/// The edges that the open calls still have to look at, plus one per call.
spec fn work(tg: Seq<Seq<usize>>, fr: Seq<(usize, usize)>) -> int
    decreases fr.len(),
{
    if fr.len() == 0 {
        0
    } else {
        work(tg, fr.drop_last()) + tg[fr.last().0 as int].len() - fr.last().1 + 1
    }
}

proof fn lemma_work_nonneg(tg: Seq<Seq<usize>>, t: Scc, fr: Seq<(usize, usize)>, fp: Seq<int>, k: int)
    requires
        frames_shape(tg, t, fr, fp),
        0 <= k <= fr.len(),
    ensures
        work(tg, fr.take(k)) >= 0,
    decreases k,
{
    if k > 0 {
        lemma_work_nonneg(tg, t, fr, fp, k - 1);
        assert(fr.take(k).drop_last() =~= fr.take(k - 1));
        assert(fp[k - 1] >= 0);
    }
}

/// Tells the successor at position `i` of `a` to be a successor in the
/// model.
proof fn lemma_edge_arc(g: Seq<Set<int>>, tg: Seq<Seq<usize>>, a: usize, i: int)
    requires
        lists(g, tg),
        a < g.len(),
        0 <= i < tg[a as int].len(),
    ensures
        arc(g, a as int, tg[a as int][i] as int),
        tg[a as int][i] < g.len(),
{
    assert(lists_successors(g, a, tg[a as int]));
    assert(tg[a as int].contains(tg[a as int][i]));
}

/// Finds the position of a successor in the list of its node.
proof fn lemma_arc_edge(g: Seq<Set<int>>, tg: Seq<Seq<usize>>, a: usize, b: usize) -> (i: int)
    requires
        lists(g, tg),
        arc(g, a as int, b as int),
    ensures
        0 <= i < tg[a as int].len(),
        tg[a as int][i] == b,
{
    assert(lists_successors(g, a, tg[a as int]));
    assert(tg[a as int].contains(b));
    choose|i: int| 0 <= i < tg[a as int].len() && tg[a as int][i] == b
}

/// On the stack, a larger discovery index means a higher position.
proof fn lemma_stack_pos(t: Scc, p: int, q: int)
    requires
        stack_ok(t),
        0 <= p < t.stack.len(),
        0 <= q < t.stack.len(),
    ensures
        t.ids[t.stack[p] as int] < t.ids[t.stack[q] as int] <==> p < q,
        t.ids[t.stack[p] as int] == t.ids[t.stack[q] as int] <==> p == q,
{
    if p < q {
        assert(ord(t, p, q));
    } else if q < p {
        assert(ord(t, q, p));
    }
}

/// The position of a node that is on the stack.
proof fn lemma_position(t: Scc, x: usize) -> (q: int)
    requires
        stack_ok(t),
        x < t.ids.len(),
        t.on_stack[x as int],
    ensures
        0 <= q < t.stack.len(),
        t.stack[q] == x,
{
    assert(t.stack.contains(x));
    choose|q: int| 0 <= q < t.stack.len() && t.stack[q] == x
}

/// The frame that a stack position belongs to.
proof fn lemma_owner(
    tg: Seq<Seq<usize>>,
    t: Scc,
    fr: Seq<(usize, usize)>,
    fp: Seq<int>,
    q: int,
    top: int,
) -> (k: int)
    requires
        frames_shape(tg, t, fr, fp),
        0 <= q < t.stack.len(),
        0 <= top < fr.len(),
        top + 1 < fr.len() ==> q < fp[top + 1],
    ensures
        owns(fp, t.stack.len() as int, k, q),
        k <= top,
    decreases top,
{
    if fp[top] <= q {
        top
    } else {
        assert(fp[0] == 0);
        lemma_owner(tg, t, fr, fp, q, top - 1)
    }
}

/// The node of a frame reaches the node of every frame above it.
proof fn lemma_chain(
    g: Seq<Set<int>>,
    tg: Seq<Seq<usize>>,
    t: Scc,
    fr: Seq<(usize, usize)>,
    fp: Seq<int>,
    a: int,
    b: int,
)
    requires
        base(g, tg, t),
        frames_shape(tg, t, fr, fp),
        0 <= a <= b < fr.len(),
    ensures
        reachable(g, fr[a].0 as int, fr[b].0 as int),
    decreases b - a,
{
    assert(t.stack[fp[a]] == fr[a].0);
    assert(t.stack[fp[b]] == fr[b].0);
    if a == b {
        lemma_reach_self(g, fr[a].0 as int);
    } else {
        lemma_chain(g, tg, t, fr, fp, a, b - 1);
        assert(link(tg, fr, fp, b - 1));
        assert(t.stack[fp[b - 1]] == fr[b - 1].0);
        lemma_edge_arc(g, tg, fr[b - 1].0, fr[b - 1].1 as int);
        lemma_reach_extend(g, fr[a].0 as int, fr[b - 1].0 as int, fr[b].0 as int);
    }
}

/// The low-link of a node on the stack is the index of a node at or
/// below it.
proof fn lemma_low_bound(g: Seq<Set<int>>, tg: Seq<Seq<usize>>, t: Scc, q: int) -> (pz: int)
    requires
        base(g, tg, t),
        0 <= q < t.stack.len(),
    ensures
        pos_low(g, t, q, pz),
        1 <= t.low[t.stack[q] as int] <= t.ids[t.stack[q] as int],
{
    assert(has_low(g, t, q));
    let pz = choose|pz: int| #[trigger] pos_low(g, t, q, pz);
    lemma_stack_pos(t, pz, q);
    assert(t.ids[t.stack[pz] as int] >= 1);
    pz
}

/// Two discovered nodes with one discovery index are one node.
proof fn lemma_ids_distinct(t: Scc, x: usize, y: usize)
    requires
        numbering(t),
        x < t.ids.len(),
        y < t.ids.len(),
        t.ids[x as int] != -1,
        t.ids[x as int] == t.ids[y as int],
    ensures
        x == y,
{
}

/// The bookkeeping after `nb` was discovered.
pub open spec fn enter(t: Scc, nb: usize) -> Scc {
    Scc {
        id: (t.id + 1) as usize,
        ids: t.ids.update(nb as int, (t.id + 1) as isize),
        low: t.low.update(nb as int, (t.id + 1) as usize),
        on_stack: t.on_stack.update(nb as int, true),
        stack: t.stack.push(nb),
        disc: t.disc.push(nb),
    }
}

/// The bookkeeping after the low-link of `x` was set to `v`.
pub open spec fn lower(t: Scc, x: usize, v: usize) -> Scc {
    Scc { id: t.id, ids: t.ids, low: t.low.update(x as int, v), on_stack: t.on_stack, stack: t.stack, disc: t.disc }
}

/// The bookkeeping after the low-link of `x` took in that of `y`, which
/// is on the stack.
pub open spec fn absorb(t: Scc, x: usize, y: usize) -> Scc {
    if t.on_stack[y as int] && t.low[y as int] < t.low[x as int] {
        lower(t, x, t.low[y as int])
    } else {
        t
    }
}

/// The node `x` is on the stack at or above position `c`.
pub open spec fn popped(t: Scc, c: int, x: usize) -> bool {
    t.on_stack[x as int] && c < t.stack.len() && t.ids[x as int] >= t.ids[t.stack[c] as int]
}

/// The bookkeeping after the stack was popped down to position `c` and
/// the nodes popped were given the label `label`.
pub open spec fn pop_group(t: Scc, c: int, label: usize) -> Scc {
    Scc {
        id: t.id,
        ids: t.ids,
        low: Seq::new(
            t.low.len(),
            |x: int|
                if popped(t, c, x as usize) {
                    label
                } else {
                    t.low[x]
                },
        ),
        on_stack: Seq::new(t.on_stack.len(), |x: int| t.on_stack[x] && !popped(t, c, x as usize)),
        stack: t.stack.take(c),
        disc: t.disc,
    }
}

/// The position of `x` on the stack.
pub open spec fn position(stack: Seq<usize>, x: usize) -> int {
    choose|q: int| 0 <= q < stack.len() && stack[q] == x
}

/// The bookkeeping after the call of `x` was closed: if the low-link of
/// `x` is its own index, the stack is popped down to `x` and the nodes
/// popped get that index as their low-link.
pub open spec fn close(t: Scc, x: usize) -> Scc {
    if t.ids[x as int] == t.low[x as int] {
        pop_group(t, position(t.stack, x), t.ids[x as int] as usize)
    } else {
        t
    }
}

/// The bookkeeping after a depth-first walk from `x`, which is not
/// discovered yet: `x` is discovered, its edges are followed in their
/// order, and its call is closed. A walk never goes deeper than there are
/// nodes; `fuel` bounds the depth.
pub open spec fn explore(tg: Seq<Seq<usize>>, t: Scc, x: usize, fuel: nat) -> Scc
    decreases fuel, tg[x as int].len() + 1,
{
    close(follow(tg, enter(t, x), x, 0, fuel), x)
}

/// The bookkeeping after the edges of `x` from position `k` on were
/// followed: the walk goes on to a destination that is not discovered,
/// and afterwards the low-link of `x` takes in that of the destination if
/// the destination is on the stack.
pub open spec fn follow(tg: Seq<Seq<usize>>, t: Scc, x: usize, k: nat, fuel: nat) -> Scc
    decreases fuel, tg[x as int].len() - k,
{
    if k >= tg[x as int].len() {
        t
    } else {
        let nb = tg[x as int][k as int];
        let next = if t.ids[nb as int] == -1 && fuel > 0 {
            explore(tg, t, nb, (fuel - 1) as nat)
        } else {
            t
        };
        follow(tg, absorb(next, x, nb), x, k + 1, fuel)
    }
}

/// The bookkeeping after a walk was started from each of the nodes from
/// `i` on that was not discovered by then.
pub open spec fn explore_all(tg: Seq<Seq<usize>>, t: Scc, i: nat) -> Scc
    decreases tg.len() - i,
{
    if i >= tg.len() {
        t
    } else {
        let next = if t.ids[i as int] == -1 {
            explore(tg, t, i as usize, tg.len())
        } else {
            t
        };
        explore_all(tg, next, i + 1)
    }
}

/// The bookkeeping for a graph with `n` nodes of which none is
/// discovered.
pub open spec fn blank(n: nat) -> Scc {
    Scc {
        id: 0,
        ids: Seq::new(n, |x: int| -1isize),
        low: Seq::new(n, |x: int| 0usize),
        on_stack: Seq::new(n, |x: int| false),
        stack: Seq::empty(),
        disc: Seq::empty(),
    }
}

/// The bookkeeping that a walk with the open calls `fr` ends with: the
/// newest call follows the rest of its edges and is closed, the call
/// below it takes in the low-link and goes on with its next edge.
#[verifier::opaque]
spec fn unwind(tg: Seq<Seq<usize>>, t: Scc, fr: Seq<(usize, usize)>) -> Scc
    decreases fr.len(),
{
    if fr.len() == 0 {
        t
    } else {
        let x = fr.last().0;
        let ended = close(
            follow(tg, t, x, fr.last().1 as nat, (tg.len() - fr.len() + 1) as nat),
            x,
        );
        if fr.len() == 1 {
            ended
        } else {
            unwind(tg, absorb(ended, fr[fr.len() - 2].0, x), close_top(fr))
        }
    }
}

proof fn lemma_unwind_descend(tg: Seq<Seq<usize>>, t: Scc, fr: Seq<(usize, usize)>, nb: usize)
    requires
        0 < fr.len() < tg.len(),
        fr.last().1 < tg[fr.last().0 as int].len() <= usize::MAX,
        tg[fr.last().0 as int][fr.last().1 as int] == nb,
        t.ids[nb as int] == -1,
    ensures
        unwind(tg, enter(t, nb), fr.push((nb, 0usize))) == unwind(tg, t, fr),
{
    reveal_with_fuel(unwind, 2);
    let x = fr.last().0;
    let k = fr.last().1;
    let fuel = (tg.len() - fr.len() + 1) as nat;
    let down = fr.push((nb, 0usize));
    let up = fr.update(fr.len() - 1, (x, (k + 1) as usize));
    assert(close_top(down) =~= up);
    assert(close_top(up) =~= close_top(fr));
    assert(up.last() == (x, (k + 1) as usize));
    let child = explore(tg, t, nb, (fuel - 1) as nat);
    assert(follow(tg, t, x, k as nat, fuel) == follow(
        tg,
        absorb(child, x, nb),
        x,
        (k + 1) as nat,
        fuel,
    ));
    assert(unwind(tg, enter(t, nb), down) == unwind(tg, absorb(child, x, nb), up));
    if fr.len() >= 2 {
        assert(up[fr.len() - 2] == fr[fr.len() - 2]);
    }
}

proof fn lemma_unwind_seen(tg: Seq<Seq<usize>>, t: Scc, fr: Seq<(usize, usize)>)
    requires
        0 < fr.len(),
        fr.last().1 < tg[fr.last().0 as int].len() <= usize::MAX,
        t.ids[tg[fr.last().0 as int][fr.last().1 as int] as int] != -1,
    ensures
        unwind(
            tg,
            absorb(t, fr.last().0, tg[fr.last().0 as int][fr.last().1 as int]),
            fr.update(fr.len() - 1, (fr.last().0, (fr.last().1 + 1) as usize)),
        ) == unwind(tg, t, fr),
{
    reveal_with_fuel(unwind, 2);
    let x = fr.last().0;
    let k = fr.last().1;
    let nb = tg[x as int][k as int];
    let fuel = (tg.len() - fr.len() + 1) as nat;
    let up = fr.update(fr.len() - 1, (x, (k + 1) as usize));
    assert(close_top(up) =~= close_top(fr));
    assert(up.last() == (x, (k + 1) as usize));
    assert(follow(tg, t, x, k as nat, fuel) == follow(
        tg,
        absorb(t, x, nb),
        x,
        (k + 1) as nat,
        fuel,
    ));
    if fr.len() >= 2 {
        assert(up[fr.len() - 2] == fr[fr.len() - 2]);
    }
}

proof fn lemma_unwind_finish(tg: Seq<Seq<usize>>, t: Scc, fr: Seq<(usize, usize)>)
    requires
        0 < fr.len(),
        fr.last().1 == tg[fr.last().0 as int].len(),
    ensures
        unwind(tg, t, fr) == (if fr.len() == 1 {
            close(t, fr.last().0)
        } else {
            unwind(tg, absorb(close(t, fr.last().0), fr[fr.len() - 2].0, fr.last().0), close_top(fr))
        }),
{
    reveal_with_fuel(unwind, 2);
    let x = fr.last().0;
    let fuel = (tg.len() - fr.len() + 1) as nat;
    assert(follow(tg, t, x, fr.last().1 as nat, fuel) == t);
}

/// A node is at one position of the stack only.
proof fn lemma_position_is(t: Scc, q: int)
    requires
        stack_ok(t),
        0 <= q < t.stack.len(),
    ensures
        position(t.stack, t.stack[q]) == q,
{
    let p = position(t.stack, t.stack[q]);
    lemma_stack_pos(t, p, q);
}

/// There are no more open calls than nodes on the stack, and no more
/// nodes on the stack than were discovered.
proof fn lemma_frames_few(
    g: Seq<Set<int>>,
    tg: Seq<Seq<usize>>,
    t: Scc,
    fr: Seq<(usize, usize)>,
    fp: Seq<int>,
)
    requires
        all(g, tg, t, fr, fp),
    ensures
        fr.len() <= t.id,
{
    if fr.len() > 0 {
        lemma_frame_pos(tg, t, fr, fp, fr.len() - 1);
        lemma_stack_ids(t, t.stack.len() - 1);
        let top = t.stack[t.stack.len() - 1];
        assert(top < t.ids.len());
        assert(t.ids[top as int] <= t.id);
    }
}

proof fn lemma_frame_pos(tg: Seq<Seq<usize>>, t: Scc, fr: Seq<(usize, usize)>, fp: Seq<int>, k: int)
    requires
        frames_shape(tg, t, fr, fp),
        0 <= k < fr.len(),
    ensures
        k <= fp[k] < t.stack.len(),
    decreases k,
{
    assert(0 <= fp[k] < t.stack.len());
    if k > 0 {
        lemma_frame_pos(tg, t, fr, fp, k - 1);
        assert(link(tg, fr, fp, k - 1));
    }
}

proof fn lemma_stack_ids(t: Scc, q: int)
    requires
        stack_ok(t),
        0 <= q < t.stack.len(),
    ensures
        t.ids[t.stack[q] as int] >= q + 1,
    decreases q,
{
    assert(t.ids[t.stack[q] as int] >= 1);
    if q > 0 {
        lemma_stack_ids(t, q - 1);
        assert(ord(t, q - 1, q));
    }
}

/// The frames after the top frame was closed and the frame below it moved
/// on to its next edge.
pub open spec fn close_top(fr: Seq<(usize, usize)>) -> Seq<(usize, usize)> {
    if fr.len() >= 2 {
        fr.drop_last().update(fr.len() - 2, (fr[fr.len() - 2].0, (fr[fr.len() - 2].1 + 1) as usize))
    } else {
        Seq::empty()
    }
}

proof fn lemma_enter(
    g: Seq<Set<int>>,
    tg: Seq<Seq<usize>>,
    t: Scc,
    fr: Seq<(usize, usize)>,
    fp: Seq<int>,
    nb: usize,
)
    requires
        all(g, tg, t, fr, fp),
        nb < g.len(),
        t.ids[nb as int] == -1,
        fr.len() > 0 ==> fr.last().1 < tg[fr.last().0 as int].len() && tg[fr.last().0 as int][fr.last().1 as int]
            == nb,
    ensures
        t.id < g.len(),
        all(g, tg, enter(t, nb), fr.push((nb, 0)), fp.push(t.stack.len() as int)),
        work(tg, fr.push((nb, 0))) == work(tg, fr) + tg[nb as int].len() + 1,
{
    let n = enter(t, nb);
    let fr2 = fr.push((nb, 0usize));
    let fp2 = fp.push(t.stack.len() as int);
    let len = t.stack.len() as int;
    assert(fr2.drop_last() =~= fr);
    // the new node is the newest discovery
    let more = t.disc.push(nb);
    assert forall|i: int, j: int| 0 <= i < more.len() && 0 <= j < more.len() && i != j implies more[i]
        != more[j] by {
        if i < t.disc.len() {
            assert(t.ids[t.disc[i] as int] == i + 1);
        }
        if j < t.disc.len() {
            assert(t.ids[t.disc[j] as int] == j + 1);
        }
    }
    assert forall|i: int| 0 <= i < more.len() implies more[i] < g.len() by {
        if i < t.disc.len() {
            assert(t.disc[i] < t.ids.len());
        }
    }
    lemma_distinct_nodes_len(more, g.len());
    assert(t.id < g.len());
    assert forall|i: int| 0 <= i < n.disc.len() implies (#[trigger] n.disc[i]) < n.ids.len()
        && n.ids[n.disc[i] as int] == i + 1 by {
        if i < t.disc.len() {
            assert(t.disc[i] < t.ids.len());
            assert(t.ids[t.disc[i] as int] == i + 1);
            assert(t.disc[i] != nb);
        }
    }
    assert forall|x: usize| x < n.ids.len() implies (#[trigger] n.ids[x as int]) == -1 || (1
        <= n.ids[x as int] <= n.id && n.disc[n.ids[x as int] - 1] == x) by {
        if x != nb {
            assert(t.ids[x as int] == -1 || (1 <= t.ids[x as int] <= t.id && t.disc[t.ids[x as int]
                - 1] == x));
        }
    }
    assert(numbering(n));
    // the stack
    assert forall|q: int| 0 <= q < len implies t.stack[q] != nb && n.stack[q] == t.stack[q]
        && t.ids[t.stack[q] as int] <= t.id by {
        assert(t.ids[t.stack[q] as int] >= 1);
    }
    assert forall|q: int| 0 <= q < n.stack.len() implies (#[trigger] n.stack[q]) < n.ids.len()
        && n.on_stack[n.stack[q] as int] && n.ids[n.stack[q] as int] >= 1 by {
        if q < len {
            assert(t.stack[q] != nb);
        }
    }
    assert forall|x: usize| x < n.ids.len() && #[trigger] n.on_stack[x as int]
        implies n.stack.contains(x) by {
        if x == nb {
            assert(n.stack[len] == nb);
        } else {
            assert(t.on_stack[x as int]);
            let q = lemma_position(t, x);
            assert(n.stack[q] == x);
        }
    }
    assert forall|p: int, q: int| 0 <= p < q < n.stack.len() implies #[trigger] ord(n, p, q) by {
        assert(t.stack[p] != nb);
        if q < len {
            assert(t.stack[q] != nb);
            assert(ord(t, p, q));
        }
    }
    assert(stack_ok(n));
    assert forall|q: int| 0 <= q < n.stack.len() implies #[trigger] has_low(g, n, q) by {
        if q < len {
            let pz = lemma_low_bound(g, tg, t, q);
            assert(t.stack[q] != nb);
            assert(t.stack[pz] != nb);
            assert(pos_low(g, n, q, pz));
        } else {
            lemma_reach_self(g, nb as int);
            assert(pos_low(g, n, q, q));
        }
    }
    assert forall|x: usize| done(n, x) <==> done(t, x) by {}
    assert forall|x: usize, y: usize| done(n, x) && #[trigger] arc(g, x as int, y as int)
        implies done(n, y) by {
        assert(done(t, x));
        assert(done(t, y));
    }
    assert forall|x: usize, y: usize| done(n, x) && done(n, y) implies (#[trigger] same_label(
        n,
        x,
        y,
    ) <==> tied(g, x as int, y as int)) by {
        assert(done(t, x) && done(t, y));
        assert(same_label(t, x, y) <==> tied(g, x as int, y as int));
    }
    assert forall|x: usize| #[trigger] done(n, x) implies has_src(n, x) by {
        assert(done(t, x));
        assert(has_src(t, x));
        let r = choose|r: usize| #[trigger] src_of(t, x, r);
        assert(src_of(n, x, r));
    }
    assert(base(g, tg, n));
    // the frames
    assert forall|k: int| 0 <= k < fr2.len() implies 0 <= (#[trigger] fp2[k]) < n.stack.len()
        && n.stack[fp2[k]] == fr2[k].0 && fr2[k].1 <= tg[fr2[k].0 as int].len() by {
        if k < fr.len() {
            assert(0 <= fp[k] < t.stack.len());
        }
    }
    assert forall|k: int| 0 <= k < fr2.len() - 1 implies #[trigger] link(tg, fr2, fp2, k) by {
        if k < fr.len() - 1 {
            assert(link(tg, fr, fp, k));
        } else {
            assert(0 <= fp[k] < t.stack.len());
        }
    }
    assert(frames_shape(tg, n, fr2, fp2));
    assert forall|q: int, k: int| #[trigger]
        owns(fp2, n.stack.len() as int, k, q) implies tied(g, n.stack[q] as int, fr2[k].0 as int) by {
        if k < fr.len() {
            assert(owns(fp, len, k, q));
        } else {
            lemma_reach_self(g, nb as int);
        }
    }
    assert forall|q: int, k: int, i: int| #[trigger]
        edge_due(tg, n, fr2, fp2, k, q, i) implies settled_edge(
        n,
        fr2[k].0,
        tg[n.stack[q] as int][i],
    ) by {
        if k < fr.len() {
            assert(owns(fp, len, k, q));
            assert(edge_due(tg, t, fr, fp, k, q, i));
            let w = tg[t.stack[q] as int][i];
            assert(settled_edge(t, fr[k].0, w));
            assert(0 <= fp[k] < t.stack.len());
            assert(t.stack[fp[k]] == fr[k].0);
            assert(fr[k].0 != nb);
            if !done(t, w) {
                assert(w != nb);
            }
        }
    }
}

proof fn lemma_seen_edge(
    g: Seq<Set<int>>,
    tg: Seq<Seq<usize>>,
    t: Scc,
    fr: Seq<(usize, usize)>,
    fp: Seq<int>,
)
    requires
        all(g, tg, t, fr, fp),
        fr.len() > 0,
        fr.last().1 < tg[fr.last().0 as int].len(),
        t.ids[tg[fr.last().0 as int][fr.last().1 as int] as int] != -1,
    ensures
        all(
            g,
            tg,
            absorb(t, fr.last().0, tg[fr.last().0 as int][fr.last().1 as int]),
            fr.update(fr.len() - 1, (fr.last().0, (fr.last().1 + 1) as usize)),
            fp,
        ),
        work(tg, fr.update(fr.len() - 1, (fr.last().0, (fr.last().1 + 1) as usize))) == work(tg, fr)
            - 1,
{
    let top = fr.len() - 1;
    let at = fr[top].0;
    let k0 = fr[top].1;
    let nb = tg[at as int][k0 as int];
    let n = absorb(t, at, nb);
    let fr2 = fr.update(top, (at, (k0 + 1) as usize));
    let len = t.stack.len() as int;
    assert(fr2.drop_last() =~= fr.drop_last());
    assert(0 <= fp[top] < len && t.stack[fp[top]] == at);
    lemma_edge_arc(g, tg, at, k0 as int);
    let pa = fp[top];
    let pza = lemma_low_bound(g, tg, t, pa);
    let changed = t.on_stack[nb as int] && t.low[nb as int] < t.low[at as int];
    assert(n.ids == t.ids && n.stack == t.stack && n.on_stack == t.on_stack && n.disc == t.disc);
    assert forall|x: usize| done(n, x) <==> done(t, x) by {}
    assert forall|x: usize| x < t.low.len() && x != at implies n.low[x as int] == t.low[x as int] by {}
    assert(n.low[at as int] <= t.low[at as int]);
    assert forall|p: int, q: int| 0 <= p < q < n.stack.len() implies #[trigger] ord(n, p, q) by {
        assert(ord(t, p, q));
    }
    assert(stack_ok(n));
    assert(numbering(n));
    assert forall|q: int| 0 <= q < n.stack.len() implies #[trigger] has_low(g, n, q) by {
        let pz = lemma_low_bound(g, tg, t, q);
        if changed && t.stack[q] == at {
            lemma_stack_pos(t, q, pa);
            let qn = lemma_position(t, nb);
            let pzn = lemma_low_bound(g, tg, t, qn);
            lemma_reach_arc(g, at as int, nb as int);
            lemma_reach_trans(g, at as int, nb as int, t.stack[pzn] as int);
            lemma_stack_pos(t, pzn, pa);
            assert(pos_low(g, n, q, pzn));
        } else {
            assert(t.stack[q] != at || !changed);
            assert(pos_low(g, n, q, pz));
        }
    }
    assert forall|x: usize, y: usize| done(n, x) && #[trigger] arc(g, x as int, y as int)
        implies done(n, y) by {
        assert(done(t, x));
        assert(done(t, y));
    }
    assert forall|x: usize, y: usize| done(n, x) && done(n, y) implies (#[trigger] same_label(
        n,
        x,
        y,
    ) <==> tied(g, x as int, y as int)) by {
        assert(done(t, x) && done(t, y));
        assert(same_label(t, x, y) <==> tied(g, x as int, y as int));
    }
    assert forall|x: usize| #[trigger] done(n, x) implies has_src(n, x) by {
        assert(done(t, x));
        assert(has_src(t, x));
        let r = choose|r: usize| #[trigger] src_of(t, x, r);
        assert(src_of(n, x, r));
    }
    assert(base(g, tg, n));
    assert forall|k: int| 0 <= k < fr2.len() implies 0 <= (#[trigger] fp[k]) < n.stack.len()
        && n.stack[fp[k]] == fr2[k].0 && fr2[k].1 <= tg[fr2[k].0 as int].len() by {
        assert(0 <= fp[k] < t.stack.len() && t.stack[fp[k]] == fr[k].0);
    }
    assert forall|k: int| 0 <= k < fr2.len() - 1 implies #[trigger] link(tg, fr2, fp, k) by {
        assert(link(tg, fr, fp, k));
    }
    assert(frames_shape(tg, n, fr2, fp));
    assert forall|q: int, k: int| #[trigger]
        owns(fp, n.stack.len() as int, k, q) implies tied(g, n.stack[q] as int, fr2[k].0 as int) by {
        assert(owns(fp, len, k, q));
    }
    assert forall|q: int, k: int, i: int| #[trigger]
        edge_due(tg, n, fr2, fp, k, q, i) implies settled_edge(
        n,
        fr2[k].0,
        tg[n.stack[q] as int][i],
    ) by {
        assert(owns(fp, len, k, q));
        assert(0 <= fp[k] < t.stack.len() && t.stack[fp[k]] == fr[k].0);
        let w = tg[t.stack[q] as int][i];
        if k == top && q == fp[k] && i == k0 {
            // the edge that was just looked at
            if t.on_stack[nb as int] {
                let qn = lemma_position(t, nb);
                let pzn = lemma_low_bound(g, tg, t, qn);
            }
        } else {
            assert(edge_due(tg, t, fr, fp, k, q, i));
            assert(settled_edge(t, fr[k].0, w));
            if k != top {
                lemma_stack_pos(t, fp[k], pa);
                assert(fr[k].0 != at) by {
                    lemma_frames_apart(tg, t, fr, fp, k, top);
                }
            }
        }
    }
}

/// A lower frame lies lower on the stack.
proof fn lemma_frames_apart(
    tg: Seq<Seq<usize>>,
    t: Scc,
    fr: Seq<(usize, usize)>,
    fp: Seq<int>,
    a: int,
    b: int,
)
    requires
        frames_shape(tg, t, fr, fp),
        stack_ok(t),
        0 <= a < b < fr.len(),
    ensures
        fp[a] < fp[b],
        fr[a].0 != fr[b].0,
    decreases b - a,
{
    assert(link(tg, fr, fp, b - 1));
    if a < b - 1 {
        lemma_frames_apart(tg, t, fr, fp, a, b - 1);
    }
    assert(0 <= fp[a] < t.stack.len() && t.stack[fp[a]] == fr[a].0);
    assert(0 <= fp[b] < t.stack.len() && t.stack[fp[b]] == fr[b].0);
    lemma_stack_pos(t, fp[a], fp[b]);
}

/// Which nodes a pop down to position `c` takes: those at or above it.
proof fn lemma_popped(t: Scc, c: int, q: int)
    requires
        stack_ok(t),
        0 <= c < t.stack.len(),
        0 <= q < t.stack.len(),
    ensures
        popped(t, c, t.stack[q]) <==> q >= c,
{
    lemma_stack_pos(t, q, c);
    lemma_stack_pos(t, c, q);
}

/// A node on the stack is popped exactly when its position is at or above
/// `c`; a node off the stack is not popped.
proof fn lemma_popped_node(t: Scc, c: int, x: usize) -> (q: int)
    requires
        stack_ok(t),
        0 <= c < t.stack.len(),
        x < t.ids.len(),
        t.on_stack[x as int],
    ensures
        0 <= q < t.stack.len(),
        t.stack[q] == x,
        popped(t, c, x) <==> q >= c,
{
    let q = lemma_position(t, x);
    lemma_popped(t, c, q);
    q
}

proof fn lemma_root_stack(
    g: Seq<Set<int>>,
    tg: Seq<Seq<usize>>,
    t: Scc,
    fr: Seq<(usize, usize)>,
    fp: Seq<int>,
)
    requires
        all(g, tg, t, fr, fp),
        fr.len() > 0,
    ensures
        shape(g, tg, pop_group(t, fp.last(), t.ids[fr.last().0 as int] as usize)),
        numbering(pop_group(t, fp.last(), t.ids[fr.last().0 as int] as usize)),
        stack_ok(pop_group(t, fp.last(), t.ids[fr.last().0 as int] as usize)),
        low_ok(g, pop_group(t, fp.last(), t.ids[fr.last().0 as int] as usize)),
{
    let top = fr.len() - 1;
    let at = fr[top].0;
    let c = fp[top];
    let label = t.ids[at as int] as usize;
    let n = pop_group(t, c, label);
    assert(0 <= c < t.stack.len() && t.stack[c] == at);
    assert(numbering(n));
    assert forall|q: int| 0 <= q < n.stack.len() implies (#[trigger] n.stack[q]) < n.ids.len()
        && n.on_stack[n.stack[q] as int] && n.ids[n.stack[q] as int] >= 1 by {
        assert(n.stack[q] == t.stack[q]);
        lemma_popped(t, c, q);
    }
    assert forall|x: usize| x < n.ids.len() && #[trigger] n.on_stack[x as int]
        implies n.stack.contains(x) by {
        let q = lemma_popped_node(t, c, x);
        assert(n.stack[q] == x);
    }
    assert forall|p: int, q: int| 0 <= p < q < n.stack.len() implies #[trigger] ord(n, p, q) by {
        assert(ord(t, p, q));
    }
    assert forall|q: int| 0 <= q < n.stack.len() implies #[trigger] has_low(g, n, q) by {
        let pz = lemma_low_bound(g, tg, t, q);
        lemma_popped(t, c, q);
        assert(n.low[t.stack[q] as int] == t.low[t.stack[q] as int]);
        assert(pos_low(g, n, q, pz));
    }
}

proof fn lemma_root_done(
    g: Seq<Set<int>>,
    tg: Seq<Seq<usize>>,
    t: Scc,
    fr: Seq<(usize, usize)>,
    fp: Seq<int>,
)
    requires
        all(g, tg, t, fr, fp),
        fr.len() > 0,
        fr.last().1 == tg[fr.last().0 as int].len(),
        t.ids[fr.last().0 as int] == t.low[fr.last().0 as int],
    ensures
        closed_done(g, pop_group(t, fp.last(), t.ids[fr.last().0 as int] as usize)),
        labels_ok(g, pop_group(t, fp.last(), t.ids[fr.last().0 as int] as usize)),
        label_src(pop_group(t, fp.last(), t.ids[fr.last().0 as int] as usize)),
{
    let top = fr.len() - 1;
    let at = fr[top].0;
    let c = fp[top];
    let label = t.ids[at as int] as usize;
    let n = pop_group(t, c, label);
    let len = t.stack.len() as int;
    assert(0 <= c < len && t.stack[c] == at);
    lemma_popped(t, c, c);
    assert(done(n, at));
    assert forall|x: usize, y: usize| done(n, x) && #[trigger] arc(g, x as int, y as int)
        implies done(n, y) by {
        if done(t, x) {
            assert(done(t, y));
        } else {
            let q = lemma_popped_node(t, c, x);
            let i = lemma_arc_edge(g, tg, x, y);
            assert(owns(fp, len, top, q));
            assert(edge_due(tg, t, fr, fp, top, q, i));
            assert(settled_edge(t, at, y));
            if !done(t, y) {
                let qy = lemma_popped_node(t, c, y);
            }
        }
    }
    let old_done = Set::new(|v: int| 0 <= v < g.len() && done(t, v as usize));
    assert forall|a: int, b: int| old_done.contains(a) && arc(g, a, b) implies old_done.contains(
        b,
    ) by {
        assert(arc(g, a as usize as int, b as usize as int));
        assert(done(t, b as usize));
    }
    assert forall|x: usize, y: usize| done(n, x) && done(n, y) implies (#[trigger] same_label(
        n,
        x,
        y,
    ) <==> tied(g, x as int, y as int)) by {
        if done(t, x) && done(t, y) {
            assert(same_label(t, x, y) <==> tied(g, x as int, y as int));
        } else if !done(t, x) && !done(t, y) {
            let qx = lemma_popped_node(t, c, x);
            let qy = lemma_popped_node(t, c, y);
            assert(owns(fp, len, top, qx));
            assert(owns(fp, len, top, qy));
            lemma_reach_trans(g, x as int, at as int, y as int);
            lemma_reach_trans(g, y as int, at as int, x as int);
        } else {
            let (fresh, old) = if done(t, x) {
                (y, x)
            } else {
                (x, y)
            };
            let qf = lemma_popped_node(t, c, fresh);
            assert(has_src(t, old));
            let r = choose|r: usize| #[trigger] src_of(t, old, r);
            if t.ids[r as int] == t.ids[at as int] {
                lemma_ids_distinct(t, r, at);
            }
            assert(n.low[old as int] == t.low[old as int]);
            assert(n.low[fresh as int] == label);
            assert(n.low[old as int] != n.low[fresh as int]);
            if reachable(g, old as int, fresh as int) {
                assert(old_done.contains(old as int));
                lemma_reach_closed(g, old as int, old_done);
                assert(old_done.contains(fresh as int));
            }
        }
    }
    assert forall|x: usize| #[trigger] done(n, x) implies has_src(n, x) by {
        if done(t, x) {
            assert(has_src(t, x));
            let r = choose|r: usize| #[trigger] src_of(t, x, r);
            assert(src_of(n, x, r));
        } else {
            let q = lemma_popped_node(t, c, x);
            assert(src_of(n, x, at));
        }
    }
}

proof fn lemma_root_frames(
    g: Seq<Set<int>>,
    tg: Seq<Seq<usize>>,
    t: Scc,
    fr: Seq<(usize, usize)>,
    fp: Seq<int>,
)
    requires
        all(g, tg, t, fr, fp),
        fr.len() > 0,
        fr.last().1 == tg[fr.last().0 as int].len(),
        t.ids[fr.last().0 as int] == t.low[fr.last().0 as int],
    ensures
        frames_shape(
            tg,
            pop_group(t, fp.last(), t.ids[fr.last().0 as int] as usize),
            close_top(fr),
            fp.drop_last(),
        ),
        owner_tied(
            g,
            pop_group(t, fp.last(), t.ids[fr.last().0 as int] as usize),
            close_top(fr),
            fp.drop_last(),
        ),
        edges_ok(
            tg,
            pop_group(t, fp.last(), t.ids[fr.last().0 as int] as usize),
            close_top(fr),
            fp.drop_last(),
        ),
{
    let top = fr.len() - 1;
    let at = fr[top].0;
    let c = fp[top];
    let label = t.ids[at as int] as usize;
    let n = pop_group(t, c, label);
    let fr2 = close_top(fr);
    let fp2 = fp.drop_last();
    let len = t.stack.len() as int;
    assert(0 <= c < len && t.stack[c] == at);
    lemma_popped(t, c, c);
    if fr.len() >= 2 {
        assert(link(tg, fr, fp, top - 1));
        assert(0 <= fp[top - 1] < len && t.stack[fp[top - 1]] == fr[top - 1].0);
        assert(t.stack[fp[top - 1]] < t.ids.len());
        assert(tg[fr[top - 1].0 as int].len() <= usize::MAX);
    } else {
        assert(fp[0] == 0);
    }
    assert forall|k: int| 0 <= k < fr2.len() implies 0 <= (#[trigger] fp2[k]) < n.stack.len()
        && n.stack[fp2[k]] == fr2[k].0 && fr2[k].1 <= tg[fr2[k].0 as int].len() by {
        lemma_frames_apart(tg, t, fr, fp, k, top);
        assert(0 <= fp[k] < t.stack.len() && t.stack[fp[k]] == fr[k].0);
    }
    assert forall|k: int| 0 <= k < fr2.len() - 1 implies #[trigger] link(tg, fr2, fp2, k) by {
        assert(link(tg, fr, fp, k));
    }
    assert forall|q: int, k: int| #[trigger]
        owns(fp2, n.stack.len() as int, k, q) implies tied(g, n.stack[q] as int, fr2[k].0 as int) by {
        assert(owns(fp, len, k, q));
    }
    assert forall|q: int, k: int, i: int| #[trigger]
        edge_due(tg, n, fr2, fp2, k, q, i) implies settled_edge(
        n,
        fr2[k].0,
        tg[n.stack[q] as int][i],
    ) by {
        assert(owns(fp, len, k, q));
        assert(0 <= fp[k] < t.stack.len() && t.stack[fp[k]] == fr[k].0);
        lemma_frames_apart(tg, t, fr, fp, k, top);
        lemma_popped(t, c, fp[k]);
        assert(n.low[fr[k].0 as int] == t.low[fr[k].0 as int]);
        let w = tg[t.stack[q] as int][i];
        if k == top - 1 && q == fp[k] && i == fr[k].1 {
            assert(w == at);
            assert(done(n, at));
        } else {
            assert(edge_due(tg, t, fr, fp, k, q, i));
            assert(settled_edge(t, fr[k].0, w));
            if !done(t, w) {
                let qw = lemma_popped_node(t, c, w);
            }
        }
    }
}

/// Closing the call of a node whose low-link is its own index completes a
/// component: the nodes from it to the top of the stack.
proof fn lemma_finish_root(
    g: Seq<Set<int>>,
    tg: Seq<Seq<usize>>,
    t: Scc,
    fr: Seq<(usize, usize)>,
    fp: Seq<int>,
)
    requires
        all(g, tg, t, fr, fp),
        fr.len() > 0,
        fr.last().1 == tg[fr.last().0 as int].len(),
        t.ids[fr.last().0 as int] == t.low[fr.last().0 as int],
    ensures
        all(
            g,
            tg,
            pop_group(t, fp.last(), t.ids[fr.last().0 as int] as usize),
            close_top(fr),
            fp.drop_last(),
        ),
        work(tg, close_top(fr)) < work(tg, fr),
        !pop_group(t, fp.last(), t.ids[fr.last().0 as int] as usize).on_stack[fr.last().0 as int],
{
    let top = fr.len() - 1;
    assert(0 <= fp[top] < t.stack.len() && t.stack[fp[top]] == fr[top].0);
    lemma_popped(t, fp[top], fp[top]);
    lemma_work_close(g, tg, t, fr, fp);
    lemma_root_stack(g, tg, t, fr, fp);
    lemma_root_done(g, tg, t, fr, fp);
    lemma_root_frames(g, tg, t, fr, fp);
}

proof fn lemma_work_close(
    g: Seq<Set<int>>,
    tg: Seq<Seq<usize>>,
    t: Scc,
    fr: Seq<(usize, usize)>,
    fp: Seq<int>,
)
    requires
        base(g, tg, t),
        frames_shape(tg, t, fr, fp),
        fr.len() > 0,
        fr.last().1 == tg[fr.last().0 as int].len(),
    ensures
        work(tg, close_top(fr)) < work(tg, fr),
{
    let rest = fr.drop_last();
    assert(work(tg, fr) == work(tg, rest) + 1);
    if fr.len() >= 2 {
        let fr2 = close_top(fr);
        let below = fr.len() - 2;
        let p = fr[below].0;
        let kp = fr[below].1;
        assert(fr2.drop_last() =~= rest.drop_last());
        assert(link(tg, fr, fp, below));
        assert(0 <= fp[below] < t.stack.len() && t.stack[fp[below]] == p);
        assert(t.stack[fp[below]] < t.ids.len());
        assert(tg[p as int].len() <= usize::MAX);
        assert(fr2.last() == (p, (kp + 1) as usize));
        assert(rest.last() == (p, kp));
        assert(work(tg, fr2) == work(tg, fr2.drop_last()) + tg[p as int].len() - (kp + 1) + 1);
        assert(work(tg, rest) == work(tg, rest.drop_last()) + tg[p as int].len() - kp + 1);
    } else {
        assert(rest.len() == 0);
    }
}

/// A node whose low-link is smaller than its index has a frame below it,
/// and reaches the node of that frame.
proof fn lemma_inner_tied(
    g: Seq<Set<int>>,
    tg: Seq<Seq<usize>>,
    t: Scc,
    fr: Seq<(usize, usize)>,
    fp: Seq<int>,
) -> (pza: int)
    requires
        all(g, tg, t, fr, fp),
        fr.len() > 0,
        t.ids[fr.last().0 as int] != t.low[fr.last().0 as int],
    ensures
        fr.len() >= 2,
        t.on_stack[fr.last().0 as int],
        pos_low(g, t, fp.last(), pza),
        pza < fp.last(),
        tied(g, fr.last().0 as int, fr[fr.len() - 2].0 as int),
        arc(g, fr[fr.len() - 2].0 as int, fr.last().0 as int),
{
    let top = fr.len() - 1;
    let at = fr[top].0;
    let c = fp[top];
    let len = t.stack.len() as int;
    assert(0 <= c < len && t.stack[c] == at);
    let pza = lemma_low_bound(g, tg, t, c);
    lemma_stack_pos(t, pza, c);
    assert(fp[0] == 0);
    let p = fr[top - 1].0;
    let cp = fp[top - 1];
    assert(link(tg, fr, fp, top - 1));
    assert(0 <= cp < len && t.stack[cp] == p);
    lemma_edge_arc(g, tg, p, fr[top - 1].1 as int);
    lemma_reach_arc(g, p as int, at as int);
    let z = t.stack[pza];
    let kz = lemma_owner(tg, t, fr, fp, pza, top - 1);
    assert(tied(g, z as int, fr[kz].0 as int));
    lemma_chain(g, tg, t, fr, fp, kz, top - 1);
    lemma_reach_trans(g, at as int, z as int, fr[kz].0 as int);
    lemma_reach_trans(g, at as int, fr[kz].0 as int, p as int);
    pza
}

proof fn lemma_inner_base(
    g: Seq<Set<int>>,
    tg: Seq<Seq<usize>>,
    t: Scc,
    fr: Seq<(usize, usize)>,
    fp: Seq<int>,
)
    requires
        all(g, tg, t, fr, fp),
        fr.len() >= 2,
        t.ids[fr.last().0 as int] != t.low[fr.last().0 as int],
    ensures
        base(g, tg, absorb(t, fr[fr.len() - 2].0, fr.last().0)),
{
    let top = fr.len() - 1;
    let at = fr[top].0;
    let c = fp[top];
    let len = t.stack.len() as int;
    let p = fr[top - 1].0;
    let cp = fp[top - 1];
    let n = absorb(t, p, at);
    let pza = lemma_inner_tied(g, tg, t, fr, fp);
    let z = t.stack[pza];
    assert(0 <= c < len && t.stack[c] == at);
    assert(0 <= cp < len && t.stack[cp] == p);
    let changed = t.low[at as int] < t.low[p as int];
    let pzp = lemma_low_bound(g, tg, t, cp);
    assert(n.ids == t.ids && n.stack == t.stack && n.on_stack == t.on_stack && n.disc == t.disc);
    assert forall|x: usize| done(n, x) <==> done(t, x) by {}
    assert forall|x: usize| x < t.low.len() && x != p implies n.low[x as int] == t.low[x as int] by {}
    assert forall|a: int, b: int| 0 <= a < b < n.stack.len() implies #[trigger] ord(n, a, b) by {
        assert(ord(t, a, b));
    }
    assert(stack_ok(n));
    assert(numbering(n));
    assert forall|q: int| 0 <= q < n.stack.len() implies #[trigger] has_low(g, n, q) by {
        let pz = lemma_low_bound(g, tg, t, q);
        if changed && t.stack[q] == p {
            lemma_stack_pos(t, q, cp);
            lemma_reach_trans(g, p as int, at as int, z as int);
            lemma_stack_pos(t, pza, cp);
            assert(pos_low(g, n, q, pza));
        } else {
            assert(pos_low(g, n, q, pz));
        }
    }
    assert forall|x: usize, y: usize| done(n, x) && #[trigger] arc(g, x as int, y as int)
        implies done(n, y) by {
        assert(done(t, x));
        assert(done(t, y));
    }
    assert forall|x: usize, y: usize| done(n, x) && done(n, y) implies (#[trigger] same_label(
        n,
        x,
        y,
    ) <==> tied(g, x as int, y as int)) by {
        assert(done(t, x) && done(t, y));
        assert(same_label(t, x, y) <==> tied(g, x as int, y as int));
    }
    assert forall|x: usize| #[trigger] done(n, x) implies has_src(n, x) by {
        assert(done(t, x));
        assert(has_src(t, x));
        let r = choose|r: usize| #[trigger] src_of(t, x, r);
        assert(src_of(n, x, r));
    }
}

proof fn lemma_inner_frames(
    g: Seq<Set<int>>,
    tg: Seq<Seq<usize>>,
    t: Scc,
    fr: Seq<(usize, usize)>,
    fp: Seq<int>,
)
    requires
        all(g, tg, t, fr, fp),
        fr.len() >= 2,
        fr.last().1 == tg[fr.last().0 as int].len(),
        t.ids[fr.last().0 as int] != t.low[fr.last().0 as int],
    ensures
        frames_shape(tg, absorb(t, fr[fr.len() - 2].0, fr.last().0), close_top(fr), fp.drop_last()),
        owner_tied(g, absorb(t, fr[fr.len() - 2].0, fr.last().0), close_top(fr), fp.drop_last()),
        edges_ok(tg, absorb(t, fr[fr.len() - 2].0, fr.last().0), close_top(fr), fp.drop_last()),
{
    let top = fr.len() - 1;
    let at = fr[top].0;
    let c = fp[top];
    let len = t.stack.len() as int;
    let p = fr[top - 1].0;
    let cp = fp[top - 1];
    let n = absorb(t, p, at);
    let fr2 = close_top(fr);
    let fp2 = fp.drop_last();
    let pza = lemma_inner_tied(g, tg, t, fr, fp);
    assert(0 <= c < len && t.stack[c] == at);
    assert(0 <= cp < len && t.stack[cp] == p);
    assert(link(tg, fr, fp, top - 1));
    assert(t.stack[cp] < t.ids.len());
    assert(tg[p as int].len() <= usize::MAX);
    lemma_stack_pos(t, pza, c);
    assert(t.low[at as int] <= t.ids[at as int]);
    assert(n.ids == t.ids && n.stack == t.stack && n.on_stack == t.on_stack && n.disc == t.disc);
    assert forall|x: usize| done(n, x) <==> done(t, x) by {}
    assert forall|x: usize| x < t.low.len() && x != p implies n.low[x as int] == t.low[x as int] by {}
    assert(n.low[p as int] <= t.low[p as int]);
    assert(n.low[p as int] <= t.low[at as int]);
    assert forall|k: int| 0 <= k < fr2.len() implies 0 <= (#[trigger] fp2[k]) < n.stack.len()
        && n.stack[fp2[k]] == fr2[k].0 && fr2[k].1 <= tg[fr2[k].0 as int].len() by {
        assert(0 <= fp[k] < t.stack.len() && t.stack[fp[k]] == fr[k].0);
    }
    assert forall|k: int| 0 <= k < fr2.len() - 1 implies #[trigger] link(tg, fr2, fp2, k) by {
        assert(link(tg, fr, fp, k));
    }
    assert forall|q: int, k: int| #[trigger]
        owns(fp2, n.stack.len() as int, k, q) implies tied(g, n.stack[q] as int, fr2[k].0 as int) by {
        if k == top - 1 && q >= c {
            assert(owns(fp, len, top, q));
            lemma_reach_trans(g, t.stack[q] as int, at as int, p as int);
            lemma_reach_trans(g, p as int, at as int, t.stack[q] as int);
        } else {
            assert(owns(fp, len, k, q));
        }
    }
    assert forall|q: int, k: int, i: int| #[trigger]
        edge_due(tg, n, fr2, fp2, k, q, i) implies settled_edge(
        n,
        fr2[k].0,
        tg[n.stack[q] as int][i],
    ) by {
        assert(0 <= fp[k] < t.stack.len() && t.stack[fp[k]] == fr[k].0);
        let w = tg[t.stack[q] as int][i];
        if k == top - 1 && q >= c {
            assert(owns(fp, len, top, q));
            assert(edge_due(tg, t, fr, fp, top, q, i));
            assert(settled_edge(t, at, w));
        } else if k == top - 1 && q == cp && i == fr[k].1 {
            assert(w == at);
        } else {
            assert(owns(fp, len, k, q));
            assert(edge_due(tg, t, fr, fp, k, q, i));
            assert(settled_edge(t, fr[k].0, w));
            if k != top - 1 {
                lemma_frames_apart(tg, t, fr, fp, k, top - 1);
            }
        }
    }
}

/// Closing the call of a node whose low-link is smaller than its index
/// hands its part of the stack to the frame below.
proof fn lemma_finish_inner(
    g: Seq<Set<int>>,
    tg: Seq<Seq<usize>>,
    t: Scc,
    fr: Seq<(usize, usize)>,
    fp: Seq<int>,
)
    requires
        all(g, tg, t, fr, fp),
        fr.len() > 0,
        fr.last().1 == tg[fr.last().0 as int].len(),
        t.ids[fr.last().0 as int] != t.low[fr.last().0 as int],
    ensures
        fr.len() >= 2,
        t.on_stack[fr.last().0 as int],
        all(g, tg, absorb(t, fr[fr.len() - 2].0, fr.last().0), close_top(fr), fp.drop_last()),
        work(tg, close_top(fr)) < work(tg, fr),
{
    let pza = lemma_inner_tied(g, tg, t, fr, fp);
    lemma_work_close(g, tg, t, fr, fp);
    lemma_inner_base(g, tg, t, fr, fp);
    lemma_inner_frames(g, tg, t, fr, fp);
}

/// Once every node is discovered and the stack is empty, the low-link
/// values name the strongly connected components.
proof fn lemma_complete(g: Seq<Set<int>>, tg: Seq<Seq<usize>>, t: Scc)
    requires
        base(g, tg, t),
        t.stack.len() == 0,
        forall|x: int| 0 <= x < g.len() ==> t.ids[x] != -1,
    ensures
        components(t.low, g),
        forall|x: int| 0 <= x < g.len() ==> 1 <= #[trigger] t.low[x] <= g.len(),
{
    assert forall|x: usize| x < g.len() implies done(t, x) by {
        if t.on_stack[x as int] {
            assert(t.stack.contains(x));
        }
    }
    assert forall|x: int, y: int| 0 <= x < g.len() && 0 <= y < g.len() implies (t.low[x]
        == t.low[y] <==> tied(g, x, y)) by {
        assert(done(t, x as usize) && done(t, y as usize));
        assert(same_label(t, x as usize, y as usize) <==> tied(g, x, y));
    }
    assert forall|i: int| 0 <= i < t.disc.len() implies t.disc[i] < g.len() by {
        assert(t.disc[i] < t.ids.len());
    }
    assert forall|i: int, j: int| 0 <= i < t.disc.len() && 0 <= j < t.disc.len() && i != j implies t.disc[i]
        != t.disc[j] by {
        assert(t.ids[t.disc[i] as int] == i + 1);
        assert(t.ids[t.disc[j] as int] == j + 1);
    }
    lemma_distinct_nodes_len(t.disc, g.len());
    assert forall|x: int| 0 <= x < g.len() implies 1 <= #[trigger] t.low[x] <= g.len() by {
        assert(done(t, x as usize));
        assert(has_src(t, x as usize));
        let r = choose|r: usize| #[trigger] src_of(t, x as usize, r);
        assert(1 <= t.ids[r as int] <= t.id);
    }
}

/// Calculates the strongly connected components of a graph using
/// Tarjan's algorithm, in one depth-first walk that keeps its open calls
/// on a stack of its own.
pub struct Tarjan<'g, V, D, E> {
    n: usize,
    id: usize,
    ids: Vec<isize>,
    low: Vec<usize>,
    on_stack: Vec<bool>,
    stack: Vec<usize>,
    graph: &'g Graph<V, D, E>,
    disc: Ghost<Seq<usize>>,
}

impl<'g, V, D, E> View for Tarjan<'g, V, D, E> {
    type V = Scc;

    closed spec fn view(&self) -> Scc {
        Scc {
            id: self.id,
            ids: self.ids@,
            low: self.low@,
            on_stack: self.on_stack@,
            stack: self.stack@,
            disc: self.disc@,
        }
    }
}

impl<'g, V, D: Orientation, E> Tarjan<'g, V, D, E> {
    /// The graph whose components are calculated.
    pub closed spec fn graph(&self) -> Graph<V, D, E> {
        *self.graph
    }

    /// The bookkeeping fits the graph, and no walk is under way.
    pub closed spec fn wf(&self) -> bool {
        &&& self.graph().wf()
        &&& self.n == self.graph()@.len()
        &&& base(self.graph().adjacency(), self.graph().successors(), self@)
        &&& self@.stack.len() == 0
    }

    /// The bookkeeping for `graph`, with no node discovered.
    pub fn new(graph: &'g Graph<V, D, E>) -> (t: Self)
        requires
            graph.wf(),
            graph@.len() <= isize::MAX,
        ensures
            t.wf(),
            t.graph() == *graph,
            t@ == blank(graph@.len()),
    {
        let n = graph.len();
        let mut ids: Vec<isize> = Vec::new();
        let mut low: Vec<usize> = Vec::new();
        let mut on_stack: Vec<bool> = Vec::new();
        let mut i: usize = 0;
        while i < n
            invariant
                i <= n,
                ids@.len() == i,
                low@.len() == i,
                on_stack@.len() == i,
                forall|x: int| 0 <= x < i ==> ids@[x] == -1 && !on_stack@[x] && low@[x] == 0,
            decreases n - i,
        {
            ids.push(-1);
            low.push(0);
            on_stack.push(false);
            i += 1;
        }
        let t = Self { n, id: 0, ids, low, on_stack, stack: Vec::new(), graph, disc: Ghost(Seq::empty()) };
        proof {
            lemma_lists(graph);
            assert forall|q: int| 0 <= q < t@.stack.len() implies #[trigger] has_low(
                graph.adjacency(),
                t@,
                q,
            ) by {}
            let want = blank(graph@.len());
            assert(t@.ids =~= want.ids);
            assert(t@.low =~= want.low);
            assert(t@.on_stack =~= want.on_stack);
            assert(t@.stack =~= want.stack);
        }
        t
    }

    /// Runs the algorithm and returns the label of each node: the
    /// low-link value that the node ends with. Two nodes have the same
    /// label exactly when each reaches the other. The labels are discovery
    /// indices, so they lie between one and the number of nodes; they do
    /// not count the components.
    pub fn sccs(self) -> (labels: Vec<usize>)
        requires
            self.wf(),
        ensures
            labels@ == explore_all(self.graph().successors(), self@, 0).low,
            components(labels@, self.graph().adjacency()),
            forall|x: int| 0 <= x < labels@.len() ==> 1 <= #[trigger] labels@[x] <= labels@.len(),
    {
        let ghost g = self.graph().adjacency();
        let ghost tg = self.graph().successors();
        let ghost whole = explore_all(tg, self@, 0);
        let mut this = self;
        let mut i: usize = 0;
        while i < this.n
            invariant
                i <= this.n,
                this.wf(),
                this.graph() == self.graph(),
                tg == self.graph().successors(),
                this.n == tg.len(),
                forall|x: int| 0 <= x < i ==> this@.ids[x] != -1,
                explore_all(tg, this@, i as nat) == whole,
            decreases this.n - i,
        {
            if this.ids[i] == -1 {
                this.dfs(i);
            }
            i += 1;
        }
        proof {
            lemma_complete(g, tg, this@);
        }
        this.low
    }

    /// Marks `x` as discovered and puts it on the stack.
    fn enter(&mut self, x: usize)
        requires
            x < old(self)@.ids.len(),
            old(self)@.ids.len() == old(self)@.low.len(),
            old(self)@.ids.len() == old(self)@.on_stack.len(),
            old(self)@.id < isize::MAX,
        ensures
            final(self)@ == enter(old(self)@, x),
            final(self).graph == old(self).graph,
            final(self).n == old(self).n,
    {
        self.stack.push(x);
        self.on_stack[x] = true;
        self.id += 1;
        self.ids[x] = self.id as isize;
        self.low[x] = self.id;
        self.disc = Ghost(self.disc@.push(x));
    }

    /// Lets the low-link of `x` take in that of `y` if `y` is on the
    /// stack.
    fn absorb(&mut self, x: usize, y: usize)
        requires
            x < old(self)@.low.len(),
            y < old(self)@.low.len(),
            y < old(self)@.on_stack.len(),
        ensures
            final(self)@ == absorb(old(self)@, x, y),
            final(self).graph == old(self).graph,
            final(self).n == old(self).n,
    {
        if self.on_stack[y] {
            let l = self.low[y];
            if l < self.low[x] {
                self.low[x] = l;
            }
        }
    }

    /// Pops the stack down to and including `at`, and gives the nodes
    /// popped the discovery index of `at` as their low-link.
    fn pop_component(&mut self, at: usize, Ghost(c): Ghost<int>)
        requires
            stack_ok(old(self)@),
            numbering(old(self)@),
            old(self)@.ids.len() == old(self)@.low.len(),
            old(self)@.ids.len() == old(self)@.on_stack.len(),
            0 <= c < old(self)@.stack.len(),
            old(self)@.stack[c] == at,
        ensures
            final(self)@ == pop_group(old(self)@, c, old(self)@.ids[at as int] as usize),
            final(self).graph == old(self).graph,
            final(self).n == old(self).n,
    {
        let ghost t0 = self@;
        let label = self.ids[at] as usize;
        let mut open = true;
        while open
            invariant
                stack_ok(t0),
                numbering(t0),
                t0.ids.len() == t0.low.len(),
                t0.ids.len() == t0.on_stack.len(),
                0 <= c < t0.stack.len(),
                t0.stack[c] == at,
                label == t0.ids[at as int] as usize,
                self.graph == old(self).graph,
                self.n == old(self).n,
                self@.id == t0.id,
                self@.ids == t0.ids,
                self@.disc == t0.disc,
                open ==> c < self@.stack.len() <= t0.stack.len(),
                !open ==> self@.stack.len() == c,
                self@.stack == t0.stack.take(self@.stack.len() as int),
                self@.low.len() == t0.low.len(),
                self@.on_stack.len() == t0.on_stack.len(),
                forall|x: usize|
                    x < t0.ids.len() ==> self@.on_stack[x as int] == (t0.on_stack[x as int]
                        && !#[trigger] popped(t0, self@.stack.len() as int, x)),
                forall|x: usize|
                    x < t0.ids.len() ==> self@.low[x as int] == (if #[trigger] popped(
                        t0,
                        self@.stack.len() as int,
                        x,
                    ) {
                        label
                    } else {
                        t0.low[x as int]
                    }),
            decreases self@.stack.len() + (if open { 1int } else { 0int }),
        {
            let ghost before = self@.stack.len() as int;
            let ghost prev_on = self@.on_stack;
            match self.stack.pop() {
                Some(node) => {
                    self.on_stack[node] = false;
                    self.low[node] = label;
                    proof {
                        let now = before - 1;
                        assert(node == t0.stack[now]);
                        assert(self@.stack =~= t0.stack.take(now));
                        assert forall|x: usize| x < t0.ids.len() implies (#[trigger] popped(
                            t0,
                            now,
                            x,
                        ) <==> popped(t0, before, x) || x == node) by {
                            if t0.on_stack[x as int] {
                                let q = lemma_position(t0, x);
                                lemma_stack_pos(t0, q, now);
                                lemma_stack_pos(t0, now, q);
                                if before < t0.stack.len() {
                                    lemma_stack_pos(t0, q, before);
                                    lemma_stack_pos(t0, before, q);
                                }
                            }
                        }
                    }
                    proof {
                        let now = before - 1;
                        assert forall|x: usize| x < t0.ids.len() implies self@.on_stack[x as int] == (
                        t0.on_stack[x as int] && !popped(t0, now, x)) by {
                            assert(popped(t0, now, x) <==> popped(t0, before, x) || x == node);
                            if x == node {
                                assert(self@.on_stack[x as int] == false);
                            } else {
                                assert(self@.on_stack[x as int] == prev_on[x as int]);
                                assert(prev_on[x as int] == (t0.on_stack[x as int] && !popped(
                                    t0,
                                    before,
                                    x,
                                )));
                            }
                        }
                    }
                    if node == at {
                        proof {
                            lemma_stack_pos(t0, before - 1, c);
                        }
                        open = false;
                    } else {
                        proof {
                            lemma_stack_pos(t0, before - 1, c);
                        }
                    }
                },
                None => {
                    open = false;
                },
            }
        }
        proof {
            let want = pop_group(t0, c, label);
            assert(self.ids.len() == t0.ids.len());
            assert forall|x: int| 0 <= x < t0.ids.len() implies self@.low[x] == want.low[x]
                && self@.on_stack[x] == want.on_stack[x] by {
                let u = x as usize;
                assert(popped(t0, c, u) == popped(t0, self@.stack.len() as int, u));
            }
            assert(self@.low =~= want.low);
            assert(self@.on_stack =~= want.on_stack);
        }
    }

    /// Walks depth-first from `at`, which is not discovered yet, and
    /// completes every component that the walk discovers.
    fn dfs(&mut self, at: usize)
        requires
            old(self).wf(),
            at < old(self).n,
            old(self)@.ids[at as int] == -1,
        ensures
            final(self).wf(),
            final(self).graph() == old(self).graph(),
            final(self).n == old(self).n,
            final(self)@.ids[at as int] != -1,
            forall|x: int|
                0 <= x < old(self).n && old(self)@.ids[x] != -1 ==> final(self)@.ids[x] != -1,
            final(self)@ == explore(
                old(self).graph().successors(),
                old(self)@,
                at,
                old(self).n as nat,
            ),
    {
        let graph = self.graph;
        let ghost g = graph.adjacency();
        let ghost tg = graph.successors();
        let ghost first = self@;
        let ghost goal = explore(tg, first, at, self.n as nat);
        let mut frames: Vec<(usize, usize)> = Vec::new();
        let ghost mut fp: Seq<int> = Seq::empty();
        proof {
            assert(all(g, tg, self@, frames@, fp));
            lemma_enter(g, tg, self@, frames@, fp, at);
            fp = fp.push(0);
            assert(unwind(tg, enter(first, at), seq![(at, 0usize)]) == goal) by {
                reveal_with_fuel(unwind, 1);
            }
        }
        self.enter(at);
        frames.push((at, 0));
        assert(frames@ =~= seq![(at, 0usize)]);
        while frames.len() > 0
            invariant
                self.graph == graph,
                graph.wf(),
                g == graph.adjacency(),
                tg == graph.successors(),
                self.n == graph@.len(),
                all(g, tg, self@, frames@, fp),
                self@.ids[at as int] != -1,
                at < self.n,
                forall|x: int| 0 <= x < self.n && first.ids[x] != -1 ==> self@.ids[x] != -1,
                frames@.len() > 0 ==> unwind(tg, self@, frames@) == goal,
                frames@.len() == 0 ==> self@ == goal,
            decreases self.n - self@.id, work(tg, frames@),
        {
            let ghost t = self@;
            let ghost fr = frames@;
            let top = frames.len() - 1;
            let (cur, k) = frames[top];
            proof {
                assert(0 <= fp[top as int] < t.stack.len() && t.stack[fp[top as int]] == cur);
                assert(frames@.take(frames@.len() as int) =~= frames@);
                lemma_work_nonneg(tg, t, fr, fp, fr.len() as int);
                lemma_ids_bound(g, tg, t);
            }
            let edges = graph.edges(cur);
            if k < edges.len() {
                let nb = edges[k].next;
                proof {
                    assert(tg[cur as int][k as int] == nb);
                    lemma_edge_arc(g, tg, cur, k as int);
                }
                if self.ids[nb] == -1 {
                    proof {
                        lemma_enter(g, tg, t, fr, fp, nb);
                        lemma_frames_few(g, tg, t, fr, fp);
                        lemma_unwind_descend(tg, t, fr, nb);
                        fp = fp.push(t.stack.len() as int);
                    }
                    self.enter(nb);
                    frames.push((nb, 0));
                } else {
                    proof {
                        lemma_seen_edge(g, tg, t, fr, fp);
                        lemma_unwind_seen(tg, t, fr);
                    }
                    self.absorb(cur, nb);
                    frames[top] = (cur, k + 1);
                    assert(frames@ =~= fr.update(top as int, (cur, (k + 1) as usize)));
                }
            } else {
                proof {
                    lemma_low_bound(g, tg, t, fp[top as int]);
                    lemma_position_is(t, fp[top as int]);
                    lemma_unwind_finish(tg, t, fr);
                }
                let root = self.ids[cur] == self.low[cur] as isize;
                if root {
                    proof {
                        lemma_finish_root(g, tg, t, fr, fp);
                    }
                    self.pop_component(cur, Ghost(fp[top as int]));
                } else {
                    proof {
                        lemma_finish_inner(g, tg, t, fr, fp);
                    }
                }
                frames.pop();
                if frames.len() > 0 {
                    let below = frames.len() - 1;
                    let (p, kp) = frames[below];
                    proof {
                        assert(link(tg, fr, fp, below as int));
                        assert(0 <= fp[below as int] < t.stack.len() && t.stack[fp[below as int]]
                            == p);
                    }
                    self.absorb(p, cur);
                    frames[below] = (p, kp + 1);
                }
                proof {
                    assert(frames@ =~= close_top(fr));
                    fp = fp.drop_last();
                }
            }
            proof {
                assert(frames@.take(frames@.len() as int) =~= frames@);
                lemma_work_nonneg(tg, self@, frames@, fp, frames@.len() as int);
                lemma_ids_bound(g, tg, self@);
            }
        }
    }
}

/// Every discovered node has a discovery index of at most the number of
/// nodes.
proof fn lemma_ids_bound(g: Seq<Set<int>>, tg: Seq<Seq<usize>>, t: Scc)
    requires
        base(g, tg, t),
    ensures
        t.id <= g.len(),
{
    assert forall|i: int| 0 <= i < t.disc.len() implies t.disc[i] < g.len() by {
        assert(t.disc[i] < t.ids.len());
    }
    assert forall|i: int, j: int| 0 <= i < t.disc.len() && 0 <= j < t.disc.len() && i != j implies t.disc[i]
        != t.disc[j] by {
        assert(t.ids[t.disc[i] as int] == i + 1);
        assert(t.ids[t.disc[j] as int] == j + 1);
    }
    lemma_distinct_nodes_len(t.disc, g.len());
}

/// The lists of destinations of a graph list the successors of its model.
pub proof fn lemma_lists<V, D: Orientation, E>(graph: &Graph<V, D, E>)
    requires
        graph.wf(),
    ensures
        lists(graph.adjacency(), graph.successors()),
        bounded(graph.successors()),
{
    assert forall|a: int| 0 <= a < graph.successors().len() implies (
    #[trigger] graph.successors()[a]).len() <= usize::MAX by {
        assert(graph@[a].edges.len() == graph@[a].edges@.len());
    }
    assert forall|a: usize| a < graph.adjacency().len() implies #[trigger] lists_successors(
        graph.adjacency(),
        a,
        graph.successors()[a as int],
    ) by {
        graph.lemma_targets(a);
    }
}

} // verus!

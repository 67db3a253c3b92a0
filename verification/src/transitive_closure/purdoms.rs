//! The transitive closure by way of the strongly connected components.
use vstd::prelude::*;
use std::collections::HashMap;
use std::collections::HashSet;
use super::mtx::{closure_of, square_of, TransitiveClosureMtx};
use super::tarjan::{bounded, components, lemma_lists, lists, Tarjan};
use crate::list_graph::edge::Edge;
use std::hash::Hash;
use crate::list_graph::graph::{gathered, leads_to, Directed, Graph};
use crate::mtx_graph::graph::{positive_columns, Graph as MtxGraph, GraphIdx};
use crate::orientation::Orientation;
use crate::reach::{
    arc,
    is_walk,
    lemma_reach_arc,
    lemma_reach_extend,
    lemma_reach_first_step,
    lemma_reach_self,
    lemma_reach_trans,
    lemma_walk_nodes,
    reachable,
    step_ok,
    tied,
    walk_between,
};
use crate::search::{
    lemma_contains_push,
    lemma_distinct_nodes_len,
    lemma_no_dup_push,
    lists_successors,
};

verus! {

/// The nodes other than `r` that `sccs` gives the representative `r`, in
/// ascending order.
pub open spec fn members(sccs: Seq<usize>, r: usize) -> Seq<usize>
    decreases sccs.len(),
{
    if sccs.len() == 0 {
        Seq::empty()
    } else {
        let init = members(sccs.drop_last(), r);
        if sccs.last() == r && sccs.len() - 1 != r {
            init.push((sccs.len() - 1) as usize)
        } else {
            init
        }
    }
}

/// The members of `r` are the other nodes that have `r` as their
/// representative.
pub proof fn lemma_members(sccs: Seq<usize>, r: usize, i: usize)
    requires
        sccs.len() <= usize::MAX,
    ensures
        members(sccs, r).contains(i) <==> i < sccs.len() && sccs[i as int] == r && i != r,
    decreases sccs.len(),
{
    if sccs.len() > 0 {
        lemma_members(sccs.drop_last(), r, i);
        lemma_contains_push(members(sccs.drop_last(), r), (sccs.len() - 1) as usize, i);
    }
}

/// Gathers, for each representative, the nodes that it stands for: the
/// result leads from each node that stands for other nodes to those nodes,
/// in ascending order. `sccs` gives the representative of each node.
pub fn gather_sccs(sccs: &[usize]) -> (replacements: HashMap<usize, Vec<usize>>)
    ensures
        forall|r: usize| #[trigger] replacements@.contains_key(r) <==> members(sccs@, r).len() > 0,
        forall|r: usize| #[trigger]
            replacements@.contains_key(r) ==> replacements@[r]@ == members(sccs@, r),
{
    let mut replacements: HashMap<usize, Vec<usize>> = HashMap::new();
    let mut to: usize = 0;
    assert(sccs@.take(0) =~= Seq::<usize>::empty());
    while to < sccs.len()
        invariant
            to <= sccs.len(),
            forall|r: usize| #[trigger]
                replacements@.contains_key(r) <==> members(sccs@.take(to as int), r).len() > 0,
            forall|r: usize| #[trigger]
                replacements@.contains_key(r) ==> replacements@[r]@ == members(
                    sccs@.take(to as int),
                    r,
                ),
        decreases sccs.len() - to,
    {
        let fr = sccs[to];
        let ghost before = replacements@;
        let ghost seen = sccs@.take(to as int);
        let ghost more = sccs@.take(to + 1);
        proof {
            assert(more.drop_last() =~= seen);
            assert(more.last() == fr);
        }
        if to != fr {
            let mut entry = match replacements.remove(&fr) {
                Some(v) => v,
                None => Vec::new(),
            };
            entry.push(to);
            replacements.insert(fr, entry);
            proof {
                assert forall|r: usize| #[trigger] replacements@.contains_key(r) <==> members(
                    more,
                    r,
                ).len() > 0 by {
                    if r != fr {
                        assert(before.contains_key(r) <==> members(seen, r).len() > 0);
                    }
                }
                assert forall|r: usize| #[trigger] replacements@.contains_key(r)
                    implies replacements@[r]@ == members(more, r) by {
                    if r != fr {
                        assert(before.contains_key(r));
                    } else if before.contains_key(fr) {
                    } else {
                        assert(members(seen, fr).len() == 0);
                        assert(members(seen, fr) =~= Seq::<usize>::empty());
                    }
                }
            }
        } else {
            proof {
                assert forall|r: usize| members(more, r) == members(seen, r) by {}
            }
        }
        to += 1;
    }
    assert(sccs@.take(to as int) =~= sccs@);
    replacements
}

/// Replaces each strongly connected component of `graph` by a single
/// node, in place. `sccs` gives, for each node, the node that stands for
/// its component. Afterwards every edge leads from the representative of
/// its old source to the representative of its old destination, and edges
/// inside a component are gone.
pub fn replace_sccs<V, D: Orientation, E>(graph: &mut Graph<V, D, E>, sccs: &[usize])
    requires
        old(graph).wf(),
        sccs@.len() == old(graph)@.len(),
        forall|i: int| 0 <= i < sccs@.len() ==> (#[trigger] sccs@[i]) < sccs@.len(),
    ensures
        final(graph).wf(),
        final(graph)@.len() == old(graph)@.len(),
        forall|i: int|
            0 <= i < old(graph)@.len() ==> (#[trigger] final(graph)@[i]).data == old(graph)@[i].data,
        forall|x: usize, y: usize, w: E| #[trigger]
            final(graph).has_link(x, y, w) <==> old(graph).quotient_link(sccs@, x, y, w),
        forall|x: int|
            0 <= x < old(graph)@.len() ==> #[trigger] final(graph).out(x) == gathered(
                old(graph).all_edges(),
                sccs@,
                x as usize,
                old(graph)@.len() as int,
            ),
{
    graph.condense(sccs);
}

/// The nodes of `topo` come in an order in which a depth-first walk can
/// finish them: a successor of a node stands before the node, unless it
/// reaches the node.
pub open spec fn post_ordered(g: Seq<Set<int>>, topo: Seq<usize>) -> bool {
    forall|p: int, y: usize|
        0 <= p < topo.len() && #[trigger] arc(g, topo[p] as int, y as int) ==> reachable(
            g,
            y as int,
            topo[p] as int,
        ) || exists|py: int| 0 <= py < p && topo[py] == y
}

/// `topo` holds every node of a graph with `n` nodes once.
pub open spec fn lists_all(topo: Seq<usize>, n: nat) -> bool {
    &&& topo.len() == n
    &&& topo.no_duplicates()
    &&& forall|v: usize| v < n ==> topo.contains(v)
    &&& forall|i: int| 0 <= i < topo.len() ==> topo[i] < n
}

/// A sequence that holds every node of a graph with `n` nodes has at
/// least `n` elements.
pub proof fn lemma_covering_len(s: Seq<usize>, n: nat)
    requires
        n <= usize::MAX + 1,
        forall|v: usize| v < n ==> s.contains(v),
    ensures
        s.len() >= n,
    decreases n,
{
    if n > 0 {
        let top = (n - 1) as usize;
        assert(s.contains(top));
        let i = choose|i: int| 0 <= i < s.len() && s[i] == top;
        let r = s.remove(i);
        assert forall|v: usize| v < n - 1 implies r.contains(v) by {
            assert(s.contains(v));
            let j = choose|j: int| 0 <= j < s.len() && s[j] == v;
            if j < i {
                assert(r[j] == v);
            } else {
                assert(r[j - 1] == v);
            }
        }
        lemma_covering_len(r, (n - 1) as nat);
    }
}

/// What a depth-first walk has done so far: the nodes it has finished, in
/// order, and the nodes it has visited.
pub struct Trail {
    pub topo: Seq<usize>,
    pub visited: Set<usize>,
}

/// The trail after a depth-first walk from `x`, which is marked as
/// visited, its edges are followed in their order to the nodes not yet
/// visited, and `x` is finished last. A walk never goes deeper than there
/// are nodes; `fuel` bounds the depth.
pub open spec fn visit(tg: Seq<Seq<usize>>, t: Trail, x: usize, fuel: nat) -> Trail
    decreases fuel, tg[x as int].len() + 1,
{
    let after = scan(tg, Trail { topo: t.topo, visited: t.visited.insert(x) }, x, 0, fuel);
    Trail { topo: after.topo.push(x), visited: after.visited }
}

/// The trail after the edges of `x` from position `k` on were followed.
pub open spec fn scan(tg: Seq<Seq<usize>>, t: Trail, x: usize, k: nat, fuel: nat) -> Trail
    decreases fuel, tg[x as int].len() - k,
{
    if k >= tg[x as int].len() {
        t
    } else {
        let nb = tg[x as int][k as int];
        let next = if t.visited.contains(nb) || fuel == 0 {
            t
        } else {
            visit(tg, t, nb, (fuel - 1) as nat)
        };
        scan(tg, next, x, k + 1, fuel)
    }
}

/// The trail after a walk was started from each of the nodes from `i` on
/// that was not visited by then.
pub open spec fn sweep(tg: Seq<Seq<usize>>, t: Trail, i: nat) -> Trail
    decreases tg.len() - i,
{
    if i >= tg.len() {
        t
    } else {
        let next = if t.visited.contains(i as usize) {
            t
        } else {
            visit(tg, t, i as usize, tg.len())
        };
        sweep(tg, next, i + 1)
    }
}

/// The nodes of a graph in the order in which a depth-first walk finishes
/// them that starts from each node in turn that it has not visited yet and
/// takes the edges of a node in their order.
pub open spec fn finishing_order(tg: Seq<Seq<usize>>) -> Seq<usize> {
    sweep(tg, Trail { topo: Seq::empty(), visited: Set::empty() }, 0).topo
}

/// The trail that a walk with the open calls `fr` ends with: the newest
/// call follows the rest of its edges and finishes its node, and the call
/// below it goes on with its next edge.
#[verifier::opaque]
spec fn resume(tg: Seq<Seq<usize>>, t: Trail, fr: Seq<(usize, usize)>) -> Trail
    decreases fr.len(),
{
    if fr.len() == 0 {
        t
    } else {
        let after = scan(tg, t, fr.last().0, fr.last().1 as nat, (tg.len() - fr.len() + 1) as nat);
        resume(tg, Trail { topo: after.topo.push(fr.last().0), visited: after.visited }, closed(fr))
    }
}

/// The open calls after the newest was closed and the one below it moved
/// on to its next edge.
spec fn closed(fr: Seq<(usize, usize)>) -> Seq<(usize, usize)> {
    if fr.len() >= 2 {
        fr.drop_last().update(fr.len() - 2, (fr[fr.len() - 2].0, (fr[fr.len() - 2].1 + 1) as usize))
    } else {
        Seq::empty()
    }
}

/// Going down to a node that was not visited leaves the end of the walk
/// as it was.
proof fn lemma_resume_descend(tg: Seq<Seq<usize>>, t: Trail, fr: Seq<(usize, usize)>, nb: usize)
    requires
        0 < fr.len() < tg.len(),
        fr.last().1 < tg[fr.last().0 as int].len() <= usize::MAX,
        tg[fr.last().0 as int][fr.last().1 as int] == nb,
        !t.visited.contains(nb),
    ensures
        resume(tg, Trail { topo: t.topo, visited: t.visited.insert(nb) }, fr.push((nb, 0usize)))
            == resume(tg, t, fr),
{
    reveal_with_fuel(resume, 2);
    let x = fr.last().0;
    let k = fr.last().1;
    let fuel = (tg.len() - fr.len() + 1) as nat;
    let down = fr.push((nb, 0usize));
    let marked = Trail { topo: t.topo, visited: t.visited.insert(nb) };
    let up = fr.update(fr.len() - 1, (x, (k + 1) as usize));
    assert(closed(down) =~= up);
    assert(closed(up) =~= closed(fr));
    let child = visit(tg, t, nb, (fuel - 1) as nat);
    assert(scan(tg, t, x, k as nat, fuel) == scan(tg, child, x, (k + 1) as nat, fuel));
    assert(resume(tg, marked, down) == resume(tg, child, up));
    assert(up.last() == (x, (k + 1) as usize));
}

/// Passing an edge to a node that was visited leaves the end of the walk
/// as it was.
proof fn lemma_resume_advance(tg: Seq<Seq<usize>>, t: Trail, fr: Seq<(usize, usize)>)
    requires
        0 < fr.len(),
        fr.last().1 < tg[fr.last().0 as int].len() <= usize::MAX,
        t.visited.contains(tg[fr.last().0 as int][fr.last().1 as int]),
    ensures
        resume(tg, t, fr.update(fr.len() - 1, (fr.last().0, (fr.last().1 + 1) as usize))) == resume(
            tg,
            t,
            fr,
        ),
{
    reveal_with_fuel(resume, 2);
    let x = fr.last().0;
    let k = fr.last().1;
    let fuel = (tg.len() - fr.len() + 1) as nat;
    let up = fr.update(fr.len() - 1, (x, (k + 1) as usize));
    assert(closed(up) =~= closed(fr));
    assert(scan(tg, t, x, k as nat, fuel) == scan(tg, t, x, (k + 1) as nat, fuel));
    assert(up.last() == (x, (k + 1) as usize));
}

/// Finishing a node whose edges were all followed leaves the end of the
/// walk as it was.
proof fn lemma_resume_retreat(tg: Seq<Seq<usize>>, t: Trail, fr: Seq<(usize, usize)>)
    requires
        0 < fr.len(),
        fr.last().1 == tg[fr.last().0 as int].len(),
    ensures
        resume(tg, Trail { topo: t.topo.push(fr.last().0), visited: t.visited }, closed(fr))
            == resume(tg, t, fr),
{
    reveal_with_fuel(resume, 2);
    let x = fr.last().0;
    let k = fr.last().1;
    let fuel = (tg.len() - fr.len() + 1) as nat;
    assert(scan(tg, t, x, k as nat, fuel) == t);
}

/// The state of a depth-first walk that lists nodes as it finishes them.
struct Walk {
    topo: Seq<usize>,
    visited: Set<usize>,
    disc: Seq<usize>,
    fr: Seq<(usize, usize)>,
}

spec fn gray(w: Walk, v: usize) -> bool {
    exists|k: int| 0 <= k < w.fr.len() && (#[trigger] w.fr[k]).0 == v
}

spec fn frame_ok(tg: Seq<Seq<usize>>, w: Walk, k: int) -> bool {
    &&& w.fr[k].0 < tg.len()
    &&& w.visited.contains(w.fr[k].0)
    &&& !w.topo.contains(w.fr[k].0)
    &&& w.fr[k].1 <= tg[w.fr[k].0 as int].len()
}

spec fn tree_link(tg: Seq<Seq<usize>>, w: Walk, k: int) -> bool {
    &&& w.fr[k].1 < tg[w.fr[k].0 as int].len()
    &&& tg[w.fr[k].0 as int][w.fr[k].1 as int] == w.fr[k + 1].0
}

spec fn gray_edge(g: Seq<Set<int>>, tg: Seq<Seq<usize>>, w: Walk, k: int, i: int) -> bool {
    w.topo.contains(tg[w.fr[k].0 as int][i]) || reachable(
        g,
        tg[w.fr[k].0 as int][i] as int,
        w.fr[k].0 as int,
    )
}

spec fn earlier(topo: Seq<usize>, p: int, y: usize) -> bool {
    exists|py: int| 0 <= py < p && topo[py] == y
}

spec fn done_edge(g: Seq<Set<int>>, tg: Seq<Seq<usize>>, w: Walk, p: int, i: int) -> bool {
    earlier(w.topo, p, tg[w.topo[p] as int][i]) || reachable(
        g,
        tg[w.topo[p] as int][i] as int,
        w.topo[p] as int,
    )
}

spec fn walk_inv(g: Seq<Set<int>>, tg: Seq<Seq<usize>>, w: Walk) -> bool {
    &&& lists(g, tg)
    &&& bounded(tg)
    &&& g.len() <= usize::MAX
    &&& w.topo.no_duplicates()
    &&& w.disc.no_duplicates()
    &&& forall|v: usize| w.disc.contains(v) <==> #[trigger] w.visited.contains(v)
    &&& forall|i: int|
        0 <= i < w.topo.len() ==> (#[trigger] w.topo[i]) < g.len() && w.visited.contains(w.topo[i])
    &&& forall|k: int| 0 <= k < w.fr.len() ==> #[trigger] frame_ok(tg, w, k)
    &&& forall|a: int, b: int| 0 <= a < b < w.fr.len() ==> (#[trigger] w.fr[a]).0 != (
    #[trigger] w.fr[b]).0
    &&& forall|v: usize| #[trigger]
        w.visited.contains(v) ==> v < g.len() && (w.topo.contains(v) || gray(w, v))
    &&& forall|k: int| 0 <= k < w.fr.len() - 1 ==> #[trigger] tree_link(tg, w, k)
    &&& forall|k: int, i: int| 0 <= k < w.fr.len() && 0 <= i < w.fr[k].1 ==> #[trigger] gray_edge(g, tg, w, k, i)
    &&& forall|p: int, i: int|
        0 <= p < w.topo.len() && 0 <= i < tg[w.topo[p] as int].len() ==> #[trigger] done_edge(
            g,
            tg,
            w,
            p,
            i,
        )
}

spec fn walk_work(tg: Seq<Seq<usize>>, fr: Seq<(usize, usize)>) -> int
    decreases fr.len(),
{
    if fr.len() == 0 {
        0
    } else {
        walk_work(tg, fr.drop_last()) + tg[fr.last().0 as int].len() - fr.last().1 + 1
    }
}

proof fn lemma_walk_work(g: Seq<Set<int>>, tg: Seq<Seq<usize>>, w: Walk, k: int)
    requires
        walk_inv(g, tg, w),
        0 <= k <= w.fr.len(),
    ensures
        walk_work(tg, w.fr.take(k)) >= 0,
    decreases k,
{
    if k > 0 {
        lemma_walk_work(g, tg, w, k - 1);
        assert(w.fr.take(k).drop_last() =~= w.fr.take(k - 1));
        assert(frame_ok(tg, w, k - 1));
    }
}

proof fn lemma_walk_chain(g: Seq<Set<int>>, tg: Seq<Seq<usize>>, w: Walk, a: int, b: int)
    requires
        walk_inv(g, tg, w),
        0 <= a <= b < w.fr.len(),
    ensures
        reachable(g, w.fr[a].0 as int, w.fr[b].0 as int),
    decreases b - a,
{
    assert(frame_ok(tg, w, a));
    if a == b {
        lemma_reach_self(g, w.fr[a].0 as int);
    } else {
        lemma_walk_chain(g, tg, w, a, b - 1);
        assert(tree_link(tg, w, b - 1));
        assert(frame_ok(tg, w, b - 1));
        let x = w.fr[b - 1].0;
        assert(lists_successors(g, x, tg[x as int]));
        assert(tg[x as int].contains(tg[x as int][w.fr[b - 1].1 as int]));
        lemma_reach_extend(g, w.fr[a].0 as int, x as int, w.fr[b].0 as int);
    }
}

/// The walk after it went on to the successor `nb`, which was not visited.
spec fn descend(w: Walk, nb: usize) -> Walk {
    Walk {
        topo: w.topo,
        visited: w.visited.insert(nb),
        disc: w.disc.push(nb),
        fr: w.fr.push((nb, 0usize)),
    }
}

/// The walk after it passed the current edge of the newest frame.
spec fn advance(w: Walk) -> Walk {
    Walk {
        topo: w.topo,
        visited: w.visited,
        disc: w.disc,
        fr: w.fr.update(w.fr.len() - 1, (w.fr.last().0, (w.fr.last().1 + 1) as usize)),
    }
}

/// The walk after it finished the node of the newest frame.
spec fn retreat(w: Walk) -> Walk {
    Walk {
        topo: w.topo.push(w.fr.last().0),
        visited: w.visited,
        disc: w.disc,
        fr: if w.fr.len() >= 2 {
            w.fr.drop_last().update(
                w.fr.len() - 2,
                (w.fr[w.fr.len() - 2].0, (w.fr[w.fr.len() - 2].1 + 1) as usize),
            )
        } else {
            Seq::empty()
        },
    }
}

proof fn lemma_descend(g: Seq<Set<int>>, tg: Seq<Seq<usize>>, w: Walk, nb: usize)
    requires
        walk_inv(g, tg, w),
        nb < g.len(),
        !w.visited.contains(nb),
        w.fr.len() > 0 ==> w.fr.last().1 < tg[w.fr.last().0 as int].len() && tg[w.fr.last().0 as int][w.fr.last().1 as int]
            == nb,
    ensures
        walk_inv(g, tg, descend(w, nb)),
        w.disc.len() < g.len(),
        walk_work(tg, descend(w, nb).fr) == walk_work(tg, w.fr) + tg[nb as int].len() + 1,
{
    let n = descend(w, nb);
    assert(n.fr.drop_last() =~= w.fr);
    lemma_no_dup_push(w.disc, nb);
    assert forall|i: int| 0 <= i < n.disc.len() implies n.disc[i] < g.len() by {
        assert(n.disc.contains(n.disc[i]));
        lemma_contains_push(w.disc, nb, n.disc[i]);
        if n.disc[i] != nb {
            assert(w.visited.contains(n.disc[i]));
        }
    }
    lemma_distinct_nodes_len(n.disc, g.len());
    assert forall|v: usize| n.disc.contains(v) <==> #[trigger] n.visited.contains(v) by {
        lemma_contains_push(w.disc, nb, v);
    }
    assert forall|k: int| 0 <= k < n.fr.len() implies #[trigger] frame_ok(tg, n, k) by {
        if k < w.fr.len() {
            assert(frame_ok(tg, w, k));
        } else {
            if w.topo.contains(nb) {
                let i = choose|i: int| 0 <= i < w.topo.len() && w.topo[i] == nb;
                assert(w.visited.contains(w.topo[i]));
            }
        }
    }
    assert forall|a: int, b: int| 0 <= a < b < n.fr.len() implies (#[trigger] n.fr[a]).0 != (
    #[trigger] n.fr[b]).0 by {
        assert(frame_ok(tg, w, a));
        if b < w.fr.len() {
            assert(w.fr[a].0 != w.fr[b].0);
        }
    }
    assert forall|v: usize| #[trigger] n.visited.contains(v) implies v < g.len() && (
    n.topo.contains(v) || gray(n, v)) by {
        if v == nb {
            assert(n.fr[w.fr.len() as int].0 == nb);
        } else {
            assert(w.visited.contains(v));
            if !w.topo.contains(v) {
                let k = choose|k: int| 0 <= k < w.fr.len() && (#[trigger] w.fr[k]).0 == v;
                assert(n.fr[k].0 == v);
            }
        }
    }
    assert forall|k: int| 0 <= k < n.fr.len() - 1 implies #[trigger] tree_link(tg, n, k) by {
        if k < w.fr.len() - 1 {
            assert(tree_link(tg, w, k));
        }
    }
    assert forall|k: int, i: int| 0 <= k < n.fr.len() && 0 <= i < n.fr[k].1 implies #[trigger] gray_edge(
        g,
        tg,
        n,
        k,
        i,
    ) by {
        assert(gray_edge(g, tg, w, k, i));
    }
    assert forall|p: int, i: int|
        0 <= p < n.topo.len() && 0 <= i < tg[n.topo[p] as int].len() implies #[trigger] done_edge(
        g,
        tg,
        n,
        p,
        i,
    ) by {
        assert(done_edge(g, tg, w, p, i));
    }
}

proof fn lemma_advance(g: Seq<Set<int>>, tg: Seq<Seq<usize>>, w: Walk)
    requires
        walk_inv(g, tg, w),
        w.fr.len() > 0,
        w.fr.last().1 < tg[w.fr.last().0 as int].len(),
        w.visited.contains(tg[w.fr.last().0 as int][w.fr.last().1 as int]),
    ensures
        walk_inv(g, tg, advance(w)),
        walk_work(tg, advance(w).fr) == walk_work(tg, w.fr) - 1,
{
    let n = advance(w);
    let top = w.fr.len() - 1;
    let x = w.fr[top].0;
    let k0 = w.fr[top].1;
    let nb = tg[x as int][k0 as int];
    assert(frame_ok(tg, w, top));
    assert(tg[x as int].len() <= usize::MAX);
    assert(n.fr.drop_last() =~= w.fr.drop_last());
    assert forall|k: int| 0 <= k < n.fr.len() implies #[trigger] frame_ok(tg, n, k) by {
        assert(frame_ok(tg, w, k));
    }
    assert forall|a: int, b: int| 0 <= a < b < n.fr.len() implies (#[trigger] n.fr[a]).0 != (
    #[trigger] n.fr[b]).0 by {
        assert(w.fr[a].0 != w.fr[b].0);
    }
    assert forall|v: usize| #[trigger] n.visited.contains(v) implies v < g.len() && (
    n.topo.contains(v) || gray(n, v)) by {
        if !w.topo.contains(v) {
            let k = choose|k: int| 0 <= k < w.fr.len() && (#[trigger] w.fr[k]).0 == v;
            assert(n.fr[k].0 == v);
        }
    }
    assert forall|k: int| 0 <= k < n.fr.len() - 1 implies #[trigger] tree_link(tg, n, k) by {
        assert(tree_link(tg, w, k));
    }
    assert forall|k: int, i: int| 0 <= k < n.fr.len() && 0 <= i < n.fr[k].1 implies #[trigger] gray_edge(
        g,
        tg,
        n,
        k,
        i,
    ) by {
        if k == top && i == k0 {
            if !w.topo.contains(nb) {
                let kk = choose|kk: int| 0 <= kk < w.fr.len() && (#[trigger] w.fr[kk]).0 == nb;
                lemma_walk_chain(g, tg, w, kk, top);
            }
        } else {
            assert(gray_edge(g, tg, w, k, i));
        }
    }
    assert forall|p: int, i: int|
        0 <= p < n.topo.len() && 0 <= i < tg[n.topo[p] as int].len() implies #[trigger] done_edge(
        g,
        tg,
        n,
        p,
        i,
    ) by {
        assert(done_edge(g, tg, w, p, i));
    }
}

proof fn lemma_retreat(g: Seq<Set<int>>, tg: Seq<Seq<usize>>, w: Walk)
    requires
        walk_inv(g, tg, w),
        w.fr.len() > 0,
        w.fr.last().1 == tg[w.fr.last().0 as int].len(),
    ensures
        walk_inv(g, tg, retreat(w)),
        walk_work(tg, retreat(w).fr) < walk_work(tg, w.fr),
{
    let n = retreat(w);
    let top = w.fr.len() - 1;
    let x = w.fr[top].0;
    let rest = w.fr.drop_last();
    let at = w.topo.len() as int;
    assert(frame_ok(tg, w, top));
    assert(walk_work(tg, w.fr) == walk_work(tg, rest) + 1);
    if w.fr.len() >= 2 {
        let below = top - 1;
        assert(tree_link(tg, w, below));
        assert(frame_ok(tg, w, below));
        assert(tg[w.fr[below].0 as int].len() <= usize::MAX);
        assert(n.fr.drop_last() =~= rest.drop_last());
        assert(n.fr.last() == (w.fr[below].0, (w.fr[below].1 + 1) as usize));
        assert(rest.last() == w.fr[below]);
        assert(walk_work(tg, n.fr) == walk_work(tg, n.fr.drop_last()) + tg[w.fr[below].0 as int].len()
            - (w.fr[below].1 + 1) + 1);
        assert(walk_work(tg, rest) == walk_work(tg, rest.drop_last()) + tg[w.fr[below].0 as int].len()
            - w.fr[below].1 + 1);
    } else {
        assert(rest.len() == 0);
    }
    lemma_no_dup_push(w.topo, x);
    assert forall|v: usize| n.topo.contains(v) <==> w.topo.contains(v) || v == x by {
        lemma_contains_push(w.topo, x, v);
    }
    assert forall|i: int| 0 <= i < n.topo.len() implies (#[trigger] n.topo[i]) < g.len()
        && n.visited.contains(n.topo[i]) by {
        if i < w.topo.len() {
            assert(w.topo[i] < g.len());
        }
    }
    assert forall|k: int| 0 <= k < n.fr.len() implies #[trigger] frame_ok(tg, n, k) by {
        assert(frame_ok(tg, w, k));
        assert(w.fr[k].0 != w.fr[top].0);
    }
    assert forall|a: int, b: int| 0 <= a < b < n.fr.len() implies (#[trigger] n.fr[a]).0 != (
    #[trigger] n.fr[b]).0 by {
        assert(w.fr[a].0 != w.fr[b].0);
    }
    assert forall|v: usize| #[trigger] n.visited.contains(v) implies v < g.len() && (
    n.topo.contains(v) || gray(n, v)) by {
        if !w.topo.contains(v) && v != x {
            let k = choose|k: int| 0 <= k < w.fr.len() && (#[trigger] w.fr[k]).0 == v;
            assert(n.fr[k].0 == v);
        }
    }
    assert forall|k: int| 0 <= k < n.fr.len() - 1 implies #[trigger] tree_link(tg, n, k) by {
        assert(tree_link(tg, w, k));
    }
    assert forall|k: int, i: int| 0 <= k < n.fr.len() && 0 <= i < n.fr[k].1 implies #[trigger] gray_edge(
        g,
        tg,
        n,
        k,
        i,
    ) by {
        if k == top - 1 && i == w.fr[k].1 {
            assert(tree_link(tg, w, k));
        } else {
            assert(gray_edge(g, tg, w, k, i));
        }
    }
    assert forall|p: int, i: int|
        0 <= p < n.topo.len() && 0 <= i < tg[n.topo[p] as int].len() implies #[trigger] done_edge(
        g,
        tg,
        n,
        p,
        i,
    ) by {
        if p < at {
            assert(done_edge(g, tg, w, p, i));
            if earlier(w.topo, p, tg[w.topo[p] as int][i]) {
                let py = choose|py: int| 0 <= py < p && w.topo[py] == tg[w.topo[p] as int][i];
                assert(n.topo[py] == tg[n.topo[p] as int][i]);
            }
        } else {
            let y = tg[x as int][i];
            assert(gray_edge(g, tg, w, top, i));
            if w.topo.contains(y) {
                let py = choose|py: int| 0 <= py < w.topo.len() && w.topo[py] == y;
                assert(n.topo[py] == y);
            }
        }
    }
}

/// There are no more open calls than nodes that are visited and not
/// finished, so fewer than there are nodes while one is not visited.
proof fn lemma_frames_few(g: Seq<Set<int>>, tg: Seq<Seq<usize>>, w: Walk)
    requires
        walk_inv(g, tg, w),
        w.disc.len() < g.len(),
    ensures
        w.fr.len() < tg.len(),
{
    let nodes = Seq::new(w.fr.len(), |k: int| w.fr[k].0);
    assert forall|a: int, b: int| 0 <= a < nodes.len() && 0 <= b < nodes.len() && a != b implies nodes[a]
        != nodes[b] by {
        if a < b {
            assert(w.fr[a].0 != w.fr[b].0);
        } else {
            assert(w.fr[b].0 != w.fr[a].0);
        }
    }
    assert forall|v: usize| nodes.contains(v) implies w.disc.contains(v) by {
        let k = choose|k: int| 0 <= k < nodes.len() && nodes[k] == v;
        assert(frame_ok(tg, w, k));
    }
    lemma_subset_len(nodes, w.disc);
}

/// A sequence without duplicates whose elements all occur in another
/// sequence is no longer than that one.
proof fn lemma_subset_len(a: Seq<usize>, b: Seq<usize>)
    requires
        a.no_duplicates(),
        forall|v: usize| a.contains(v) ==> b.contains(v),
    ensures
        a.len() <= b.len(),
    decreases b.len(),
{
    if a.len() > 0 {
        if b.len() == 0 {
            assert(a.contains(a[0]));
        } else {
            let last = b.last();
            let rest = b.drop_last();
            if a.contains(last) {
                let i = choose|i: int| 0 <= i < a.len() && a[i] == last;
                let cut = a.remove(i);
                assert forall|v: usize| cut.contains(v) implies rest.contains(v) by {
                    let j = choose|j: int| 0 <= j < cut.len() && cut[j] == v;
                    if j < i {
                        assert(a[j] == v);
                    } else {
                        assert(a[j + 1] == v);
                    }
                    assert(a.contains(v));
                    assert(v != last);
                    let m = choose|m: int| 0 <= m < b.len() && b[m] == v;
                    assert(rest[m] == v);
                }
                assert(cut.no_duplicates());
                lemma_subset_len(cut, rest);
            } else {
                assert forall|v: usize| a.contains(v) implies rest.contains(v) by {
                    let m = choose|m: int| 0 <= m < b.len() && b[m] == v;
                    assert(rest[m] == v);
                }
                lemma_subset_len(a, rest);
            }
        }
    }
}

/// Once the walk has visited every node and closed every frame, it has
/// listed all nodes in an order in which successors come first.
proof fn lemma_walk_done(g: Seq<Set<int>>, tg: Seq<Seq<usize>>, w: Walk)
    requires
        walk_inv(g, tg, w),
        w.fr.len() == 0,
        forall|v: usize| v < g.len() ==> w.visited.contains(v),
    ensures
        lists_all(w.topo, g.len()),
        post_ordered(g, w.topo),
{
    assert forall|v: usize| v < g.len() implies w.topo.contains(v) by {
        assert(w.visited.contains(v));
        assert(!gray(w, v));
    }
    lemma_covering_len(w.topo, g.len());
    assert forall|i: int| 0 <= i < w.topo.len() implies w.topo[i] < g.len() by {
        assert(w.topo[i] < g.len());
    }
    lemma_distinct_nodes_len(w.topo, g.len());
    assert forall|p: int, y: usize|
        0 <= p < w.topo.len() && #[trigger] arc(g, w.topo[p] as int, y as int) implies reachable(
        g,
        y as int,
        w.topo[p] as int,
    ) || exists|py: int| 0 <= py < p && w.topo[py] == y by {
        let x = w.topo[p];
        assert(x < g.len());
        assert(lists_successors(g, x, tg[x as int]));
        assert(tg[x as int].contains(y));
        let i = choose|i: int| 0 <= i < tg[x as int].len() && tg[x as int][i] == y;
        assert(done_edge(g, tg, w, p, i));
    }
}

/// Lists the nodes of `graph` in the order in which a depth-first walk
/// finishes them. The walk starts from each node in turn that it has not
/// visited yet, and takes the edges of a node in their order.
///
/// In a graph without cycles every node comes after all the nodes that it
/// has an edge to.
pub fn topo_sort<V, D: Orientation, E>(graph: &Graph<V, D, E>) -> (topo: Vec<usize>)
    requires
        graph.wf(),
    ensures
        topo@ == finishing_order(graph.successors()),
        lists_all(topo@, graph@.len()),
        post_ordered(graph.adjacency(), topo@),
{
    let n = graph.len();
    let ghost g = graph.adjacency();
    let ghost tg = graph.successors();
    let ghost whole = sweep(tg, Trail { topo: Seq::empty(), visited: Set::empty() }, 0);
    let mut topo: Vec<usize> = Vec::new();
    let mut visited: HashSet<usize> = HashSet::new();
    let ghost mut disc: Seq<usize> = Seq::empty();
    proof {
        lemma_lists(graph);
    }
    let mut i: usize = 0;
    while i < n
        invariant
            i <= n,
            n == graph@.len(),
            graph.wf(),
            g == graph.adjacency(),
            tg == graph.successors(),
            walk_inv(g, tg, Walk { topo: topo@, visited: visited@, disc, fr: Seq::empty() }),
            forall|v: usize| v < i ==> visited@.contains(v),
            sweep(tg, Trail { topo: topo@, visited: visited@ }, i as nat) == whole,
        decreases n - i,
    {
        if !visited.contains(&i) {
            let mut frames: Vec<(usize, usize)> = Vec::new();
            let ghost goal = visit(tg, Trail { topo: topo@, visited: visited@ }, i, n as nat);
            proof {
                let w = Walk { topo: topo@, visited: visited@, disc, fr: frames@ };
                lemma_descend(g, tg, w, i);
                disc = disc.push(i);
                let marked = Trail { topo: topo@, visited: visited@.insert(i) };
                let first = seq![(i, 0usize)];
                assert(closed(first) =~= Seq::<(usize, usize)>::empty());
                assert(resume(tg, marked, first) == goal) by {
                    reveal_with_fuel(resume, 2);
                    let after = scan(tg, marked, i, 0, n as nat);
                    let ended = Trail { topo: after.topo.push(i), visited: after.visited };
                    assert(resume(tg, ended, closed(first)) == ended);
                }
            }
            visited.insert(i);
            frames.push((i, 0));
            assert(frames@ =~= seq![(i, 0usize)]);
            while frames.len() > 0
                invariant
                    i < n,
                    n == graph@.len(),
                    graph.wf(),
                    g == graph.adjacency(),
                    tg == graph.successors(),
                    walk_inv(g, tg, Walk { topo: topo@, visited: visited@, disc, fr: frames@ }),
                    forall|v: usize| v < i ==> visited@.contains(v),
                    visited@.contains(i),
                    resume(tg, Trail { topo: topo@, visited: visited@ }, frames@) == goal,
                decreases n - disc.len(), walk_work(tg, frames@),
            {
                let ghost w = Walk { topo: topo@, visited: visited@, disc, fr: frames@ };
                let top = frames.len() - 1;
                let (cur, k) = frames[top];
                proof {
                    assert(frame_ok(tg, w, top as int));
                    assert(frames@.take(frames@.len() as int) =~= frames@);
                    lemma_walk_work(g, tg, w, frames@.len() as int);
                    assert forall|j: int| 0 <= j < disc.len() implies disc[j] < n by {
                        assert(disc.contains(disc[j]));
                        assert(visited@.contains(disc[j]));
                    }
                    lemma_distinct_nodes_len(disc, n as nat);
                }
                let edges = graph.edges(cur);
                if k < edges.len() {
                    let nb = edges[k].next;
                    proof {
                        assert(tg[cur as int][k as int] == nb);
                        assert(graph.out(cur as int)[k as int].next < n);
                    }
                    if !visited.contains(&nb) {
                        proof {
                            lemma_descend(g, tg, w, nb);
                            disc = disc.push(nb);
                            lemma_frames_few(g, tg, w);
                            lemma_resume_descend(
                                tg,
                                Trail { topo: topo@, visited: visited@ },
                                frames@,
                                nb,
                            );
                        }
                        visited.insert(nb);
                        frames.push((nb, 0));
                    } else {
                        proof {
                            lemma_advance(g, tg, w);
                            lemma_resume_advance(
                                tg,
                                Trail { topo: topo@, visited: visited@ },
                                frames@,
                            );
                        }
                        frames[top] = (cur, k + 1);
                        assert(frames@ =~= advance(w).fr);
                    }
                } else {
                    proof {
                        lemma_retreat(g, tg, w);
                        lemma_resume_retreat(tg, Trail { topo: topo@, visited: visited@ }, frames@);
                    }
                    topo.push(cur);
                    frames.pop();
                    if frames.len() > 0 {
                        let below = frames.len() - 1;
                        let (p, kp) = frames[below];
                        proof {
                            assert(tree_link(tg, w, below as int));
                            assert(frame_ok(tg, w, below as int));
                        }
                        frames[below] = (p, kp + 1);
                    }
                    assert(frames@ =~= retreat(w).fr);
                    assert(frames@ =~= closed(w.fr));
                }
                proof {
                    let after = Walk { topo: topo@, visited: visited@, disc, fr: frames@ };
                    assert(frames@.take(frames@.len() as int) =~= frames@);
                    lemma_walk_work(g, tg, after, frames@.len() as int);
                    assert forall|j: int| 0 <= j < disc.len() implies disc[j] < n by {
                        assert(disc.contains(disc[j]));
                        assert(visited@.contains(disc[j]));
                    }
                    lemma_distinct_nodes_len(disc, n as nat);
                }
            }
            assert(frames@ =~= Seq::<(usize, usize)>::empty());
            assert(Trail { topo: topo@, visited: visited@ } == goal) by {
                reveal_with_fuel(resume, 1);
            }
        }
        i += 1;
    }
    proof {
        lemma_walk_done(g, tg, Walk { topo: topo@, visited: visited@, disc, fr: Seq::empty() });
    }
    topo
}

/// `r` is the leader of the component of `a`: the node with the smallest
/// index among those that `a` reaches and is reached by.
pub open spec fn is_leader(g: Seq<Set<int>>, a: int, r: int) -> bool {
    tied(g, a, r) && forall|j: int| #[trigger] tied(g, a, j) ==> r <= j
}

/// The leader of the component of each node.
pub open spec fn leaders(g: Seq<Set<int>>) -> Seq<usize> {
    Seq::new(g.len(), |a: int| (choose|r: int| is_leader(g, a, r)) as usize)
}

/// `rep` gives, for each node, the smallest node with the same label.
pub open spec fn leads(labels: Seq<usize>, rep: Seq<usize>) -> bool {
    &&& rep.len() == labels.len()
    &&& forall|i: int|
        0 <= i < labels.len() ==> (#[trigger] rep[i]) < labels.len() && labels[rep[i] as int]
            == labels[i]
    &&& forall|i: int, j: int|
        0 <= i < labels.len() && 0 <= j < labels.len() ==> #[trigger] no_later(labels, rep, i, j)
}

/// If `j` has the label of `i`, the representative of `i` is not a later
/// node than `j`.
pub open spec fn no_later(labels: Seq<usize>, rep: Seq<usize>, i: int, j: int) -> bool {
    labels[j] == labels[i] ==> rep[i] <= j
}

/// Gives each node the smallest node with the same label as its
/// representative. The labels lie between one and the number of nodes.
pub fn representatives(labels: &[usize]) -> (rep: Vec<usize>)
    requires
        labels@.len() < usize::MAX,
        forall|i: int| 0 <= i < labels@.len() ==> 1 <= (#[trigger] labels@[i]) <= labels@.len(),
    ensures
        leads(labels@, rep@),
{
    let n = labels.len();
    let mut first: Vec<usize> = Vec::new();
    let mut l: usize = 0;
    while l <= n
        invariant
            l <= n + 1,
            n < usize::MAX,
            first@.len() == l,
            forall|x: int| 0 <= x < l ==> first@[x] == n,
        decreases n + 1 - l,
    {
        first.push(n);
        l += 1;
    }
    let mut rep: Vec<usize> = Vec::new();
    let mut i: usize = 0;
    while i < n
        invariant
            i <= n,
            n == labels@.len(),
            first@.len() == n + 1,
            rep@.len() == i,
            forall|x: int| 0 <= x < n ==> 1 <= (#[trigger] labels@[x]) <= n,
            forall|x: int|
                0 <= x <= n ==> (#[trigger] first@[x]) == n || (first@[x] < i
                    && labels@[first@[x] as int] == x),
            forall|j: int| 0 <= j < i ==> first@[(#[trigger] labels@[j]) as int] <= j,
            forall|j: int| 0 <= j < i ==> (#[trigger] rep@[j]) == first@[labels@[j] as int],
        decreases n - i,
    {
        let label = labels[i];
        if first[label] == n {
            first[label] = i;
        }
        let lead = first[label];
        rep.push(lead);
        i += 1;
    }
    proof {
        assert forall|a: int, b: int| 0 <= a < n && 0 <= b < n implies #[trigger] no_later(
            labels@,
            rep@,
            a,
            b,
        ) by {
            assert(first@[labels@[b] as int] <= b);
            assert(rep@[a] == first@[labels@[a] as int]);
        }
    }
    rep
}

/// Nodes have the same representative exactly when they have the same
/// label, and a representative stands for itself.
pub proof fn lemma_leads(labels: Seq<usize>, rep: Seq<usize>, i: int, j: int)
    requires
        leads(labels, rep),
        0 <= i < labels.len(),
        0 <= j < labels.len(),
    ensures
        rep[i] == rep[j] <==> labels[i] == labels[j],
        rep[rep[i] as int] == rep[i],
{
    let ri = rep[i] as int;
    let rj = rep[j] as int;
    assert(labels[ri] == labels[i]);
    assert(labels[rj] == labels[j]);
    if labels[i] == labels[j] {
        assert(no_later(labels, rep, i, rj));
        assert(no_later(labels, rep, j, ri));
    }
    let rri = rep[ri] as int;
    assert(labels[rri] == labels[ri]);
    assert(no_later(labels, rep, ri, ri));
    assert(no_later(labels, rep, i, rri));
}

/// The representatives that the labels of the components give are the
/// leaders of the components.
pub proof fn lemma_leaders(g: Seq<Set<int>>, labels: Seq<usize>, rep: Seq<usize>)
    requires
        components(labels, g),
        leads(labels, rep),
        g.len() <= usize::MAX,
    ensures
        rep == leaders(g),
        forall|a: int| 0 <= a < g.len() ==> is_leader(g, a, #[trigger] rep[a] as int),
{
    assert forall|a: int| 0 <= a < g.len() implies is_leader(g, a, #[trigger] rep[a] as int) by {
        let r = rep[a] as int;
        assert(labels[r] == labels[a]);
        assert forall|j: int| #[trigger] tied(g, a, j) implies r <= j by {
            crate::reach::lemma_reach_nodes(g, a, j);
            assert(labels[a] == labels[j]);
            assert(no_later(labels, rep, a, j));
        }
    }
    assert forall|a: int| 0 <= a < g.len() implies rep[a] == leaders(g)[a] by {
        let r = rep[a] as int;
        assert(is_leader(g, a, r));
        let c = choose|c: int| is_leader(g, a, c);
        assert(tied(g, a, c));
        assert(tied(g, a, r));
    }
    assert(rep =~= leaders(g));
}

/// A node has an edge to another in the model exactly when one of its
/// edges, of some weight, leads there.
pub proof fn lemma_arc_link<V, D: Orientation, E>(graph: Graph<V, D, E>, x: usize, y: usize)
    requires
        graph.wf(),
    ensures
        arc(graph.adjacency(), x as int, y as int) <==> exists|w: E| graph.has_link(x, y, w),
{
    let g = graph.adjacency();
    if arc(g, x as int, y as int) {
        let k = choose|k: int|
            0 <= k < graph.out(x as int).len() && (#[trigger] graph.out(x as int)[k]).next
                == y as int;
        let e = graph.out(x as int)[k];
        assert(graph.out(x as int).contains(e));
        assert(graph.has_link(x, y, e.weight));
    }
    if exists|w: E| graph.has_link(x, y, w) {
        let w = choose|w: E| graph.has_link(x, y, w);
        let e = Edge { weight: w, next: y };
        let k = choose|k: int| 0 <= k < graph.out(x as int).len() && graph.out(x as int)[k] == e;
        assert(graph.out(x as int)[k].next == y);
        assert(leads_to(graph.out(x as int), y as int));
    }
}

/// `c` is `g` with every node replaced by its representative and without
/// edges from a node to itself.
pub open spec fn quotient_of(c: Seq<Set<int>>, g: Seq<Set<int>>, rep: Seq<usize>) -> bool {
    &&& c.len() == g.len()
    &&& rep.len() == g.len()
    &&& forall|a: int| 0 <= a < g.len() ==> (#[trigger] rep[a]) < g.len() && tied(g, a, rep[a] as int)
    &&& forall|a: int, b: int| #[trigger]
        tied(g, a, b) ==> rep[a] == rep[b]
    &&& forall|x: int, y: int| #[trigger]
        arc(c, x, y) <==> x != y && exists|a: int, b: int|
            #[trigger] arc(g, a, b) && rep[a] == x && rep[b] == y
}

/// What a node reaches, its representative reaches in the quotient.
proof fn lemma_quotient_up(c: Seq<Set<int>>, g: Seq<Set<int>>, rep: Seq<usize>, p: Seq<int>, k: int)
    requires
        quotient_of(c, g, rep),
        is_walk(g, p),
        0 <= k < p.len(),
    ensures
        reachable(c, rep[p[0]] as int, rep[p[k]] as int),
    decreases k,
{
    lemma_walk_nodes(g, p, k);
    if k == 0 {
        assert(rep[p[0]] < g.len());
        lemma_reach_self(c, rep[p[0]] as int);
    } else {
        lemma_quotient_up(c, g, rep, p, k - 1);
        assert(step_ok(g, p, k - 1));
        let a = p[k - 1];
        let b = p[k];
        if rep[a] != rep[b] {
            assert(arc(g, a, b) && rep[a] == rep[a] as int && rep[b] == rep[b] as int);
            assert(arc(c, rep[a] as int, rep[b] as int));
            lemma_reach_extend(c, rep[p[0]] as int, rep[a] as int, rep[b] as int);
        }
    }
}

/// What a node reaches in the quotient, it reaches in the graph.
proof fn lemma_quotient_down(c: Seq<Set<int>>, g: Seq<Set<int>>, rep: Seq<usize>, q: Seq<int>, k: int)
    requires
        quotient_of(c, g, rep),
        is_walk(c, q),
        0 <= k < q.len(),
    ensures
        reachable(g, q[0], q[k]),
    decreases k,
{
    if k == 0 {
        lemma_reach_self(g, q[0]);
    } else {
        lemma_quotient_down(c, g, rep, q, k - 1);
        assert(step_ok(c, q, k - 1));
        let x = q[k - 1];
        let y = q[k];
        assert(arc(c, x, y));
        let (a, b) = choose|a: int, b: int| #[trigger] arc(g, a, b) && rep[a] == x && rep[b] == y;
        assert(tied(g, a, rep[a] as int));
        assert(tied(g, b, rep[b] as int));
        lemma_reach_arc(g, a, b);
        lemma_reach_trans(g, q[0], x, a);
        lemma_reach_trans(g, q[0], a, b);
        lemma_reach_trans(g, q[0], b, y);
    }
}

/// A node reaches another exactly when its representative reaches the
/// representative of the other in the quotient.
pub proof fn lemma_quotient_reach(c: Seq<Set<int>>, g: Seq<Set<int>>, rep: Seq<usize>, i: int, j: int)
    requires
        quotient_of(c, g, rep),
        0 <= i < g.len(),
        0 <= j < g.len(),
    ensures
        reachable(g, i, j) <==> reachable(c, rep[i] as int, rep[j] as int),
{
    if reachable(g, i, j) {
        let p = choose|p: Seq<int>| #[trigger] walk_between(g, p, i, j);
        lemma_quotient_up(c, g, rep, p, p.len() - 1);
    }
    if reachable(c, rep[i] as int, rep[j] as int) {
        let q = choose|q: Seq<int>| #[trigger] walk_between(c, q, rep[i] as int, rep[j] as int);
        lemma_quotient_down(c, g, rep, q, q.len() - 1);
        assert(tied(g, i, rep[i] as int));
        assert(tied(g, j, rep[j] as int));
        lemma_reach_trans(g, i, rep[i] as int, rep[j] as int);
        lemma_reach_trans(g, i, rep[j] as int, j);
    }
}

/// The quotient by the strongly connected components has no cycle: no
/// successor of a node reaches the node.
pub proof fn lemma_quotient_acyclic(c: Seq<Set<int>>, g: Seq<Set<int>>, rep: Seq<usize>, u: int, v: int)
    requires
        quotient_of(c, g, rep),
        arc(c, u, v),
    ensures
        !reachable(c, v, u),
{
    if reachable(c, v, u) {
        let q = choose|q: Seq<int>| #[trigger] walk_between(c, q, v, u);
        lemma_quotient_down(c, g, rep, q, q.len() - 1);
        let (a, b) = choose|a: int, b: int| #[trigger] arc(g, a, b) && rep[a] == u && rep[b] == v;
        assert(tied(g, a, rep[a] as int));
        assert(tied(g, b, rep[b] as int));
        lemma_reach_arc(g, a, b);
        lemma_reach_trans(g, u, a, b);
        lemma_reach_trans(g, u, b, v);
        assert(tied(g, u, v));
        assert(tied(g, a, u));
        assert(rep[a] == rep[u]);
        assert(tied(g, b, v));
        assert(rep[b] == rep[v]);
        assert(rep[u] == rep[v]);
    }
}

/// Some successor of `u` among its first `k` reaches `j`.
pub open spec fn via(g: Seq<Set<int>>, tg: Seq<Seq<usize>>, u: int, k: int, j: int) -> bool {
    exists|i: int| 0 <= i < k && #[trigger] reachable(g, tg[u][i] as int, j)
}

/// A node reaches itself and what its successors reach.
proof fn lemma_reach_via(g: Seq<Set<int>>, tg: Seq<Seq<usize>>, u: usize, j: int)
    requires
        lists(g, tg),
        u < g.len() <= usize::MAX,
    ensures
        reachable(g, u as int, j) <==> j == u || via(g, tg, u as int, tg[u as int].len() as int, j),
{
    assert(lists_successors(g, u, tg[u as int]));
    if reachable(g, u as int, j) && j != u {
        let c = lemma_reach_first_step(g, u as int, j);
        assert(tg[u as int].contains(c as usize));
        let i = choose|i: int| 0 <= i < tg[u as int].len() && tg[u as int][i] == c as usize;
        assert(reachable(g, tg[u as int][i] as int, j));
    }
    if j == u {
        lemma_reach_self(g, u as int);
    }
    if via(g, tg, u as int, tg[u as int].len() as int, j) {
        let i = choose|i: int|
            0 <= i < tg[u as int].len() && #[trigger] reachable(g, tg[u as int][i] as int, j);
        assert(tg[u as int].contains(tg[u as int][i]));
        lemma_reach_arc(g, u as int, tg[u as int][i] as int);
        lemma_reach_trans(g, u as int, tg[u as int][i] as int, j);
    }
}

/// The row of `u` holds `true` exactly in the columns of the nodes that
/// `u` reaches.
pub open spec fn row_exact(m: Seq<Seq<bool>>, g: Seq<Set<int>>, u: int) -> bool {
    forall|j: int| 0 <= j < g.len() ==> m[u][j] == reachable(g, u, j)
}

/// The row of `u` holds `false` in every column.
pub open spec fn row_blank(m: Seq<Seq<bool>>, u: int) -> bool {
    forall|j: int| 0 <= j < m[u].len() ==> !m[u][j]
}

/// Column `c` of `row` holds what `base` holds there, and also what
/// `other` holds there if the column is among the first `j`.
pub open spec fn merged(row: Seq<bool>, base: Seq<bool>, other: Seq<bool>, j: int, c: int) -> bool {
    row[c] == (base[c] || (c < j && other[c]))
}

/// Every successor of a node of `topo` stands before the node.
pub open spec fn successors_first(g: Seq<Set<int>>, topo: Seq<usize>) -> bool {
    forall|p: int, y: usize|
        0 <= p < topo.len() && #[trigger] arc(g, topo[p] as int, y as int) ==> exists|py: int|
            0 <= py < p && topo[py] == y
}

/// Calculates the transitive closure of a graph without cycles from an
/// order of its nodes in which successors come first: the row of a node
/// is the node itself and the rows of its successors, which are complete
/// when the node is reached.
pub fn propagate<V, D: Orientation, E>(graph: &Graph<V, D, E>, topo: &Vec<usize>) -> (mtx:
    TransitiveClosureMtx)
    requires
        graph.wf(),
        lists_all(topo@, graph@.len()),
        successors_first(graph.adjacency(), topo@),
    ensures
        closure_of(mtx@, graph.adjacency()),
{
    let n = graph.len();
    let ghost g = graph.adjacency();
    let ghost tg = graph.successors();
    let mut mtx = TransitiveClosureMtx::from_len(n);
    proof {
        lemma_lists(graph);
    }
    let mut idx: usize = 0;
    while idx < n
        invariant
            idx <= n,
            n == graph@.len(),
            graph.wf(),
            g == graph.adjacency(),
            tg == graph.successors(),
            lists(g, tg),
            lists_all(topo@, n as nat),
            successors_first(g, topo@),
            square_of(mtx@, n as nat),
            forall|p: int| 0 <= p < idx ==> #[trigger] row_exact(mtx@, g, topo@[p] as int),
            forall|p: int| idx <= p < n ==> #[trigger] row_blank(mtx@, topo@[p] as int),
        decreases n - idx,
    {
        let u = topo[idx];
        let ghost start = mtx@;
        assert(start[u as int].len() == n);
        assert(row_blank(start, topo@[idx as int] as int));
        mtx.set(u, u, true);
        proof {
            assert forall|j: int| 0 <= j < n implies mtx@[u as int][j] == (j == u || via(
                g,
                tg,
                u as int,
                0,
                j,
            )) by {
                assert(!start[u as int][j]);
            }
        }
        let edges = graph.edges(u);
        let mut k: usize = 0;
        while k < edges.len()
            invariant
                idx < n,
                k <= edges.len(),
                n == graph@.len(),
                graph.wf(),
                g == graph.adjacency(),
                tg == graph.successors(),
                lists(g, tg),
                lists_all(topo@, n as nat),
                successors_first(g, topo@),
                u == topo@[idx as int],
                u < n,
                edges@ == graph.out(u as int),
                square_of(mtx@, n as nat),
                square_of(start, n as nat),
                forall|j: int| 0 <= j < n ==> mtx@[u as int][j] == (j == u || via(g, tg, u as int, k as int, j)),
                forall|x: int| 0 <= x < n && x != u ==> #[trigger] mtx@[x] == start[x],
                forall|p: int| 0 <= p < idx ==> #[trigger] row_exact(start, g, topo@[p] as int),
            decreases edges.len() - k,
        {
            let v = edges[k].next;
            let ghost mid = mtx@;
            proof {
                assert(tg[u as int][k as int] == v);
                assert(lists_successors(g, u, tg[u as int]));
                assert(tg[u as int].contains(v));
                assert(arc(g, topo@[idx as int] as int, v as int));
                let py = choose|py: int| 0 <= py < idx && topo@[py] == v;
                assert(topo@[py] != topo@[idx as int]);
                assert(mid[v as int] == start[v as int]);
                assert(mid[v as int].len() == n);
                assert(mid[u as int].len() == n);
                assert(row_exact(start, g, topo@[py] as int));
            }
            let mut j: usize = 0;
            proof {
                assert forall|c: int| 0 <= c < n implies #[trigger] merged(
                    mtx@[u as int],
                    mid[u as int],
                    mid[v as int],
                    0,
                    c,
                ) by {}
            }
            while j < n
                invariant
                    j <= n,
                    n == g.len(),
                    u < n,
                    v < n,
                    u != v,
                    k < tg[u as int].len(),
                    v == tg[u as int][k as int],
                    square_of(mtx@, n as nat),
                    square_of(mid, n as nat),
                    forall|x: int| 0 <= x < n && x != u ==> #[trigger] mtx@[x] == mid[x],
                    forall|c: int| 0 <= c < n ==> mid[v as int][c] == reachable(g, v as int, c),
                    forall|c: int| 0 <= c < n ==> mid[u as int][c] == (c == u || via(g, tg, u as int, k as int, c)),
                    forall|c: int|
                        0 <= c < n ==> #[trigger] merged(
                            mtx@[u as int],
                            mid[u as int],
                            mid[v as int],
                            j as int,
                            c,
                        ),
                decreases n - j,
            {
                let ghost cur = mtx@;
                assert(cur[v as int] == mid[v as int]);
                assert(cur[v as int].len() == n);
                assert(cur[u as int].len() == n);
                let reached = mtx.get(v, j);
                if reached {
                    mtx.set(u, j, true);
                }
                proof {
                    assert forall|c: int| 0 <= c < n implies #[trigger] merged(
                        mtx@[u as int],
                        mid[u as int],
                        mid[v as int],
                        j + 1,
                        c,
                    ) by {
                        assert(merged(cur[u as int], mid[u as int], mid[v as int], j as int, c));
                    }
                    assert forall|x: int| 0 <= x < n && x != u implies #[trigger] mtx@[x]
                        == mid[x] by {
                        assert(cur[x] == mid[x]);
                    }
                }
                j += 1;
            }
            proof {
                assert forall|c: int| 0 <= c < n implies mtx@[u as int][c] == (c == u || via(
                    g,
                    tg,
                    u as int,
                    k + 1,
                    c,
                )) by {
                    assert(merged(mtx@[u as int], mid[u as int], mid[v as int], n as int, c));
                    assert(mid[v as int][c] == reachable(g, v as int, c));
                    if via(g, tg, u as int, k as int, c) {
                        let i = choose|i: int|
                            0 <= i < k && #[trigger] reachable(g, tg[u as int][i] as int, c);
                        assert(reachable(g, tg[u as int][i] as int, c));
                    }
                    if reachable(g, v as int, c) {
                        assert(reachable(g, tg[u as int][k as int] as int, c));
                    }
                    if via(g, tg, u as int, k + 1, c) {
                        let i = choose|i: int|
                            0 <= i < k + 1 && #[trigger] reachable(g, tg[u as int][i] as int, c);
                        if i < k {
                            assert(reachable(g, tg[u as int][i] as int, c));
                        }
                    }
                }
            }
            k += 1;
        }
        proof {
            assert forall|p: int| 0 <= p < idx + 1 implies #[trigger] row_exact(
                mtx@,
                g,
                topo@[p] as int,
            ) by {
                if p == idx {
                    assert forall|j: int| 0 <= j < g.len() implies mtx@[u as int][j] == reachable(
                        g,
                        u as int,
                        j,
                    ) by {
                        lemma_reach_via(g, tg, u, j);
                    }
                } else {
                    assert(topo@[p] != topo@[idx as int]);
                    assert(mtx@[topo@[p] as int] == start[topo@[p] as int]);
                    assert(row_exact(start, g, topo@[p] as int));
                }
            }
            assert forall|p: int| idx + 1 <= p < n implies #[trigger] row_blank(
                mtx@,
                topo@[p] as int,
            ) by {
                assert(topo@[p] != topo@[idx as int]);
                assert(mtx@[topo@[p] as int] == start[topo@[p] as int]);
                assert(row_blank(start, topo@[p] as int));
            }
        }
        idx += 1;
    }
    proof {
        assert forall|i: int, j: int| 0 <= i < n && 0 <= j < n implies mtx@[i][j] == reachable(
            g,
            i,
            j,
        ) by {
            assert(topo@.contains(i as usize));
            let p = choose|p: int| 0 <= p < topo@.len() && topo@[p] == i as usize;
            assert(row_exact(mtx@, g, topo@[p] as int));
        }
    }
    mtx
}

/// The row of `a` in `m` is the row of `r` in `cm`, with every column
/// read at the representative of its node.
pub open spec fn row_copied(m: Seq<Seq<bool>>, cm: Seq<Seq<bool>>, rep: Seq<usize>, a: int, r: int) -> bool {
    forall|j: int| 0 <= j < rep.len() ==> m[a][j] == cm[r][rep[j] as int]
}

/// Spreads the closure of the condensed graph over all nodes: the cell of
/// two nodes is the cell of their representatives. The rows of the
/// representatives are written first; each other node then takes the row
/// of the node that stands for it.
pub fn expand(cm: &TransitiveClosureMtx, rep: &[usize], groups: &HashMap<usize, Vec<usize>>) -> (mtx:
    TransitiveClosureMtx)
    requires
        square_of(cm@, rep@.len()),
        forall|i: int| 0 <= i < rep@.len() ==> (#[trigger] rep@[i]) < rep@.len(),
        forall|i: int| 0 <= i < rep@.len() ==> rep@[(#[trigger] rep@[i]) as int] == rep@[i],
        forall|r: usize| #[trigger] groups@.contains_key(r) <==> members(rep@, r).len() > 0,
        forall|r: usize| #[trigger] groups@.contains_key(r) ==> groups@[r]@ == members(rep@, r),
    ensures
        square_of(mtx@, rep@.len()),
        forall|i: int|
            0 <= i < rep@.len() ==> #[trigger] row_copied(mtx@, cm@, rep@, i, rep@[i] as int),
{
    let n = rep.len();
    let mut mtx = TransitiveClosureMtx::from_len(n);
    let mut i: usize = 0;
    while i < n
        invariant
            i <= n,
            n == rep@.len(),
            square_of(cm@, n as nat),
            square_of(mtx@, n as nat),
            forall|a: int| 0 <= a < n ==> (#[trigger] rep@[a]) < n,
            forall|a: int| 0 <= a < i && rep@[a] == a ==> #[trigger] row_copied(mtx@, cm@, rep@, a, a),
        decreases n - i,
    {
        if rep[i] == i {
            let ghost start = mtx@;
            let mut j: usize = 0;
            while j < n
                invariant
                    j <= n,
                    i < n,
                    n == rep@.len(),
                    square_of(cm@, n as nat),
                    square_of(mtx@, n as nat),
                    forall|a: int| 0 <= a < n ==> (#[trigger] rep@[a]) < n,
                    forall|a: int| 0 <= a < n && a != i ==> #[trigger] mtx@[a] == start[a],
                    forall|b: int| 0 <= b < j ==> mtx@[i as int][b] == cm@[i as int][rep@[b] as int],
                decreases n - j,
            {
                let to = rep[j];
                assert(cm@[i as int].len() == n);
                assert(mtx@[i as int].len() == n);
                let cell = cm.get(i, to);
                mtx.set(i, j, cell);
                j += 1;
            }
            proof {
                assert forall|a: int| 0 <= a < i + 1 && rep@[a] == a implies #[trigger] row_copied(
                    mtx@,
                    cm@,
                    rep@,
                    a,
                    a,
                ) by {
                    if a != i {
                        assert(row_copied(start, cm@, rep@, a, a));
                        assert(mtx@[a] == start[a]);
                    }
                }
            }
        }
        i += 1;
    }
    let mut keep: usize = 0;
    while keep < n
        invariant
            keep <= n,
            n == rep@.len(),
            square_of(cm@, n as nat),
            square_of(mtx@, n as nat),
            forall|a: int| 0 <= a < n ==> (#[trigger] rep@[a]) < n,
            forall|a: int| 0 <= a < n ==> rep@[(#[trigger] rep@[a]) as int] == rep@[a],
            forall|r: usize| #[trigger] groups@.contains_key(r) <==> members(rep@, r).len() > 0,
            forall|r: usize| #[trigger] groups@.contains_key(r) ==> groups@[r]@ == members(rep@, r),
            forall|a: int|
                0 <= a < n && (rep@[a] == a || rep@[a] < keep) ==> #[trigger] row_copied(
                    mtx@,
                    cm@,
                    rep@,
                    a,
                    rep@[a] as int,
                ),
        decreases n - keep,
    {
        match groups.get(&keep) {
            Some(list) => {
                proof {
                    assert(groups@.contains_key(keep));
                    assert(list@ == members(rep@, keep));
                }
                let mut at: usize = 0;
                while at < list.len()
                    invariant
                        at <= list@.len(),
                        keep < n,
                        n == rep@.len(),
                        list@ == members(rep@, keep),
                        square_of(cm@, n as nat),
                        square_of(mtx@, n as nat),
                        forall|a: int| 0 <= a < n ==> (#[trigger] rep@[a]) < n,
                        forall|a: int| 0 <= a < n ==> rep@[(#[trigger] rep@[a]) as int] == rep@[a],
                        forall|a: int|
                            0 <= a < n && (rep@[a] == a || rep@[a] < keep) ==> #[trigger] row_copied(
                                mtx@,
                                cm@,
                                rep@,
                                a,
                                rep@[a] as int,
                            ),
                        forall|x: int|
                            0 <= x < at ==> #[trigger] row_copied(
                                mtx@,
                                cm@,
                                rep@,
                                list@[x] as int,
                                keep as int,
                            ),
                    decreases list@.len() - at,
                {
                    let node = list[at];
                    let ghost start = mtx@;
                    proof {
                        assert(list@.contains(node));
                        lemma_members(rep@, keep, node);
                        assert(rep@[rep@[node as int] as int] == rep@[node as int]);
                        assert(row_copied(start, cm@, rep@, keep as int, rep@[keep as int] as int));
                    }
                    let mut j: usize = 0;
                    while j < n
                        invariant
                            j <= n,
                            node < n,
                            keep < n,
                            node != keep,
                            n == rep@.len(),
                            square_of(cm@, n as nat),
                            square_of(mtx@, n as nat),
                            square_of(start, n as nat),
                            row_copied(start, cm@, rep@, keep as int, keep as int),
                            forall|a: int| 0 <= a < n && a != node ==> #[trigger] mtx@[a] == start[a],
                            forall|b: int|
                                0 <= b < j ==> mtx@[node as int][b] == cm@[keep as int][rep@[b] as int],
                        decreases n - j,
                    {
                        assert(mtx@[keep as int] == start[keep as int]);
                        assert(start[keep as int].len() == n);
                        assert(mtx@[node as int].len() == n);
                        let cell = mtx.get(keep, j);
                        mtx.set(node, j, cell);
                        j += 1;
                    }
                    proof {
                        assert forall|a: int|
                            0 <= a < n && (rep@[a] == a || rep@[a] < keep) implies #[trigger] row_copied(
                            mtx@,
                            cm@,
                            rep@,
                            a,
                            rep@[a] as int,
                        ) by {
                            assert(row_copied(start, cm@, rep@, a, rep@[a] as int));
                            assert(mtx@[a] == start[a]);
                        }
                        assert forall|x: int| 0 <= x < at + 1 implies #[trigger] row_copied(
                            mtx@,
                            cm@,
                            rep@,
                            list@[x] as int,
                            keep as int,
                        ) by {
                            if list@[x] != node {
                                assert(list@.contains(list@[x]));
                                lemma_members(rep@, keep, list@[x]);
                                assert(row_copied(start, cm@, rep@, list@[x] as int, keep as int));
                                assert(mtx@[list@[x] as int] == start[list@[x] as int]);
                            }
                        }
                    }
                    at += 1;
                }
                proof {
                    assert forall|a: int|
                        0 <= a < n && (rep@[a] == a || rep@[a] < keep + 1) implies #[trigger] row_copied(
                        mtx@,
                        cm@,
                        rep@,
                        a,
                        rep@[a] as int,
                    ) by {
                        if rep@[a] != a && rep@[a] == keep {
                            lemma_members(rep@, keep, a as usize);
                            assert(list@.contains(a as usize));
                            let x = choose|x: int| 0 <= x < list@.len() && list@[x] == a as usize;
                            assert(row_copied(mtx@, cm@, rep@, list@[x] as int, keep as int));
                        }
                    }
                }
            },
            None => {
                proof {
                    assert forall|a: int|
                        0 <= a < n && (rep@[a] == a || rep@[a] < keep + 1) implies #[trigger] row_copied(
                        mtx@,
                        cm@,
                        rep@,
                        a,
                        rep@[a] as int,
                    ) by {
                        if rep@[a] != a && rep@[a] == keep {
                            lemma_members(rep@, keep, a as usize);
                            assert(members(rep@, keep).contains(a as usize));
                            assert(members(rep@, keep).len() > 0);
                        }
                    }
                }
            },
        }
        keep += 1;
    }
    mtx
}

/// Calculates the transitive closure matrix of a given graph using
/// Purdom's algorithm: it finds the strongly connected components,
/// replaces each by its leader, lists the nodes of the resulting graph,
/// which has no cycles, with successors first, calculates the closure of
/// that graph along the list, and spreads it over all nodes.
///
/// The cell in row `i` and column `j` of the result is `true` exactly
/// where `j` is reached from `i`; every node reaches itself. The graph is
/// left condensed: every edge leads from the leader of the component of
/// its old source to the leader of the component of its old destination,
/// and the edges inside a component are gone.
pub fn purdoms<V, D: Orientation, E>(graph: &mut Graph<V, D, E>) -> (mtx: TransitiveClosureMtx)
    requires
        old(graph).wf(),
        old(graph)@.len() <= isize::MAX,
    ensures
        closure_of(mtx@, old(graph).adjacency()),
        final(graph).wf(),
        final(graph)@.len() == old(graph)@.len(),
        forall|i: int|
            0 <= i < old(graph)@.len() ==> (#[trigger] final(graph)@[i]).data == old(graph)@[i].data,
        forall|x: usize, y: usize, w: E| #[trigger]
            final(graph).has_link(x, y, w) <==> old(graph).quotient_link(
                leaders(old(graph).adjacency()),
                x,
                y,
                w,
            ),
        forall|x: int|
            0 <= x < old(graph)@.len() ==> #[trigger] final(graph).out(x) == gathered(
                old(graph).all_edges(),
                leaders(old(graph).adjacency()),
                x as usize,
                old(graph)@.len() as int,
            ),
{
    let ghost g = graph.adjacency();
    let ghost before = *graph;
    let n = graph.len();
    // the components, and the node that stands for each
    let sccs = Tarjan::new(graph).sccs();
    let rep = representatives(sccs.as_slice());
    proof {
        lemma_leaders(g, sccs@, rep@);
    }
    replace_sccs(graph, rep.as_slice());
    let ghost c = graph.adjacency();
    proof {
        lemma_condensed(before, *graph, sccs@, rep@);
    }
    // an order of the condensed graph in which successors come first
    let topo = topo_sort(graph);
    proof {
        assert forall|p: int, y: usize|
            0 <= p < topo@.len() && #[trigger] arc(c, topo@[p] as int, y as int) implies exists|
            py: int,
        | 0 <= py < p && topo@[py] == y by {
            lemma_quotient_acyclic(c, g, rep@, topo@[p] as int, y as int);
        }
    }
    // the closure of the condensed graph
    let cm = propagate(graph, &topo);
    // the closure of the graph
    let groups = gather_sccs(rep.as_slice());
    proof {
        assert forall|i: int| 0 <= i < rep@.len() implies rep@[(#[trigger] rep@[i]) as int]
            == rep@[i] by {
            lemma_leads(sccs@, rep@, i, i);
        }
    }
    let mtx = expand(&cm, rep.as_slice(), &groups);
    proof {
        assert forall|i: int, j: int| 0 <= i < g.len() && 0 <= j < g.len() implies mtx@[i][j]
            == reachable(g, i, j) by {
            lemma_quotient_reach(c, g, rep@, i, j);
            assert(row_copied(mtx@, cm@, rep@, i, rep@[i] as int));
            assert(cm@[rep@[i] as int][rep@[j] as int] == reachable(
                c,
                rep@[i] as int,
                rep@[j] as int,
            ));
        }
    }
    mtx
}

/// The adjacency-list graph with the edges of an adjacency-matrix graph:
/// the nodes carry no value, and the edges of a node stand in ascending
/// order of their destinations, each with its weight.
pub fn adjacency_list<T, D, W>(graph: &MtxGraph<T, D, W>) -> (list: Graph<(), Directed, usize>) where
    T: Hash + Eq + Clone,
    D: Clone + Orientation,
    W: Clone,

    requires
        graph.wf(),
    ensures
        list.wf(),
        list@.len() == graph@.len(),
        list.adjacency() == graph.adjacency(),
        forall|a: int| 0 <= a < graph@.len() ==> #[trigger] list.targets(a) == positive_columns(graph@[a]),
        forall|a: int, k: int|
            0 <= a < graph@.len() && 0 <= k < list.out(a).len() ==> (#[trigger] list.out(a)[k]).weight
                == graph@[a][list.out(a)[k].next as int],
{
    let n = graph.nodes();
    let mut list = Graph::<(), Directed, usize>::new();
    proof {
        graph.lemma_shape();
    }
    let mut i: usize = 0;
    while i < n
        invariant
            i <= n,
            list.wf(),
            list@.len() == i,
            forall|a: int| 0 <= a < i ==> (#[trigger] list.out(a)).len() == 0,
        decreases n - i,
    {
        let ghost prev = list;
        list.add_node(());
        proof {
            assert forall|a: int| 0 <= a < i + 1 implies (#[trigger] list.out(a)).len() == 0 by {
                if a < i {
                    assert(list@[a] == prev@[a]);
                    assert(prev.out(a).len() == 0);
                }
            }
        }
        i += 1;
    }
    let mut a: usize = 0;
    while a < n
        invariant
            a <= n,
            n == graph@.len(),
            graph.wf(),
            list.wf(),
            list@.len() == n,
            forall|x: int| a <= x < n ==> (#[trigger] list.out(x)).len() == 0,
            forall|x: int| 0 <= x < a ==> #[trigger] list.targets(x) == positive_columns(graph@[x]),
            forall|x: int, k: int|
                0 <= x < a && 0 <= k < list.out(x).len() ==> (#[trigger] list.out(x)[k]).weight
                    == graph@[x][list.out(x)[k].next as int],
        decreases n - a,
    {
        let row = graph.edges(GraphIdx(a));
        let ghost start = list;
        let mut b: usize = 0;
        proof {
            graph.lemma_shape();
            assert(graph@[a as int].len() == n);
            assert(start.out(a as int).len() == 0);
        }
        assert(row@.take(0) =~= Seq::<usize>::empty());
        assert(list.targets(a as int) =~= positive_columns(row@.take(0)));
        while b < n
            invariant
                b <= n,
                a < n,
                n == graph@.len(),
                row@ == graph@[a as int],
                row@.len() == n,
                list.wf(),
                list@.len() == n,
                forall|x: int| 0 <= x < n && x != a ==> #[trigger] list@[x] == start@[x],
                list.targets(a as int) == positive_columns(row@.take(b as int)),
                forall|k: int|
                    0 <= k < list.out(a as int).len() ==> (#[trigger] list.out(a as int)[k]).weight
                        == row@[list.out(a as int)[k].next as int],
            decreases n - b,
        {
            let w = row[b];
            let ghost before = list;
            proof {
                let next = row@.take(b + 1);
                assert(next.drop_last() =~= row@.take(b as int));
                assert(next.last() == w);
            }
            if w > 0 {
                list.add_edge(a, b, w);
                proof {
                    assert(list.targets(a as int) =~= before.targets(a as int).push(b));
                    assert forall|k: int| 0 <= k < list.out(a as int).len() implies (
                    #[trigger] list.out(a as int)[k]).weight == row@[list.out(
                        a as int,
                    )[k].next as int] by {
                        if k < before.out(a as int).len() {
                            assert(list.out(a as int)[k] == before.out(a as int)[k]);
                        }
                    }
                }
            }
            b += 1;
        }
        proof {
            assert(row@.take(n as int) =~= row@);
            assert forall|x: int| a + 1 <= x < n implies (#[trigger] list.out(x)).len() == 0 by {
                assert(list@[x] == start@[x]);
                assert(start.out(x).len() == 0);
            }
            assert forall|x: int| 0 <= x < a + 1 implies #[trigger] list.targets(x)
                == positive_columns(graph@[x]) by {
                if x < a {
                    assert(list@[x] == start@[x]);
                    assert(start.targets(x) == positive_columns(graph@[x]));
                    assert(list.targets(x) =~= start.targets(x));
                }
            }
            assert forall|x: int, k: int|
                0 <= x < a + 1 && 0 <= k < list.out(x).len() implies (#[trigger] list.out(
                x,
            )[k]).weight == graph@[x][list.out(x)[k].next as int] by {
                if x < a {
                    assert(list@[x] == start@[x]);
                    assert(start.out(x)[k].weight == graph@[x][start.out(x)[k].next as int]);
                }
            }
        }
        a += 1;
    }
    proof {
        let lg = list.adjacency();
        let mg = graph.adjacency();
        assert forall|x: int| 0 <= x < n implies #[trigger] lg[x] =~= mg[x] by {
            list.lemma_targets(x as usize);
            graph.lemma_row_successors(x as usize);
            assert(list.targets(x) == positive_columns(graph@[x]));
            assert forall|y: int| lg[x].contains(y) <==> mg[x].contains(y) by {
                if lg[x].contains(y) {
                    assert(arc(lg, x, y));
                    assert(arc(lg, x as usize as int, y as usize as int));
                    assert(list.targets(x).contains(y as usize));
                    assert(arc(mg, x as usize as int, y as usize as int));
                }
                if mg[x].contains(y) {
                    assert(arc(mg, x as usize as int, y as usize as int));
                    assert(positive_columns(graph@[x]).contains(y as usize));
                    assert(arc(lg, x as usize as int, y as usize as int));
                }
            }
        }
        assert(lg =~= mg);
    }
    list
}

/// Calculates the transitive closure matrix of an adjacency-matrix graph
/// using Purdom's algorithm, on the adjacency lists that the matrix stands
/// for. The graph itself is left as it is.
pub fn purdoms_of_matrix<T, D, W>(graph: &MtxGraph<T, D, W>) -> (mtx: TransitiveClosureMtx) where
    T: Hash + Eq + Clone,
    D: Clone + Orientation,
    W: Clone,

    requires
        graph.wf(),
        graph@.len() <= isize::MAX,
    ensures
        closure_of(mtx@, graph.adjacency()),
{
    let mut list = adjacency_list(graph);
    purdoms(&mut list)
}

/// The graph that `condense` leaves is the quotient of the graph by its
/// components.
proof fn lemma_condensed<V, D: Orientation, E>(
    before: Graph<V, D, E>,
    after: Graph<V, D, E>,
    labels: Seq<usize>,
    rep: Seq<usize>,
)
    requires
        before.wf(),
        after.wf(),
        before@.len() <= usize::MAX,
        after@.len() == before@.len(),
        components(labels, before.adjacency()),
        leads(labels, rep),
        forall|x: usize, y: usize, w: E| #[trigger]
            after.has_link(x, y, w) <==> before.quotient_link(rep, x, y, w),
    ensures
        quotient_of(after.adjacency(), before.adjacency(), rep),
{
    let g = before.adjacency();
    let c = after.adjacency();
    assert forall|a: int| 0 <= a < g.len() implies (#[trigger] rep[a]) < g.len() && tied(
        g,
        a,
        rep[a] as int,
    ) by {
        assert(labels[rep[a] as int] == labels[a]);
    }
    assert forall|a: int, b: int| #[trigger] tied(g, a, b) implies rep[a] == rep[b] by {
        crate::reach::lemma_reach_nodes(g, a, b);
        lemma_leads(labels, rep, a, b);
    }
    assert forall|x: int, y: int| #[trigger]
        arc(c, x, y) <==> x != y && exists|a: int, b: int|
            #[trigger] arc(g, a, b) && rep[a] == x && rep[b] == y by {
        let xu = x as usize;
        let yu = y as usize;
        if arc(c, x, y) {
            lemma_arc_link(after, xu, yu);
            let w = choose|w: E| after.has_link(xu, yu, w);
            assert(before.quotient_link(rep, xu, yu, w));
            let (a, b) = choose|a: usize, b: usize|
                #[trigger] before.has_link(a, b, w) && rep[a as int] == xu && rep[b as int] == yu;
            lemma_arc_link(before, a, b);
            assert(arc(g, a as int, b as int) && rep[a as int] == x && rep[b as int] == y);
        }
        if x != y && exists|a: int, b: int| #[trigger] arc(g, a, b) && rep[a] == x && rep[b] == y {
            let (a, b) = choose|a: int, b: int| #[trigger] arc(g, a, b) && rep[a] == x && rep[b] == y;
            let au = a as usize;
            let bu = b as usize;
            lemma_arc_link(before, au, bu);
            let w = choose|w: E| before.has_link(au, bu, w);
            assert(before.has_link(au, bu, w) && rep[au as int] == xu && rep[bu as int] == yu);
            assert(before.quotient_link(rep, xu, yu, w));
            assert(after.has_link(xu, yu, w));
            lemma_arc_link(after, xu, yu);
        }
    }
}

} // verus!

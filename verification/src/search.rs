//! The state of a frontier-driven traversal, as a mathematical value.
//!
//! A breadth-first search takes the oldest node from its frontier. It
//! marks a node as visited when the node enters the frontier, so no node
//! enters twice. A depth-first search takes the newest node from its
//! frontier. It marks a node as visited when it yields the node; a node
//! may wait on the stack more than once and is dropped when its turn comes
//! after it was visited.
use vstd::prelude::*;
use crate::reach::{
    arc,
    closed_graph,
    is_walk,
    lemma_reach_closed,
    lemma_reach_extend,
    lemma_reach_self,
    lemma_walk_nodes,
    reachable,
    step_ok,
    walk_between,
};

verus! {

/// The targets that are met for the first time, in the order in which they
/// are met: those that are neither in `seen` nor earlier in `targets`.
pub open spec fn discover(targets: Seq<usize>, seen: Set<usize>) -> Seq<usize>
    decreases targets.len(),
{
    if targets.len() == 0 {
        Seq::empty()
    } else {
        let found = discover(targets.drop_last(), seen);
        let t = targets.last();
        if seen.contains(t) || found.contains(t) {
            found
        } else {
            found.push(t)
        }
    }
}

/// `targets` lists exactly the successors of `x` in `g`.
pub open spec fn lists_successors(g: Seq<Set<int>>, x: usize, targets: Seq<usize>) -> bool {
    forall|t: usize| targets.contains(t) <==> arc(g, x as int, t as int)
}

/// A traversal in progress.
pub struct Search {
    /// The node the traversal started from.
    pub origin: usize,
    /// The nodes that wait for their turn: the queue of a breadth-first
    /// search, oldest first, or the stack of a depth-first search, newest
    /// last.
    pub frontier: Seq<usize>,
    /// The nodes marked as visited.
    pub visited: Set<usize>,
    /// The nodes yielded so far, in order.
    pub yielded: Seq<usize>,
}

impl Search {
    /// The state of a breadth-first search before the first node is
    /// yielded.
    pub open spec fn start(origin: usize) -> Search {
        Search {
            origin,
            frontier: seq![origin],
            visited: set![origin],
            yielded: Seq::empty(),
        }
    }

    /// The state after `x` left the frontier, which then held `rest`, and
    /// the successors `targets` of `x` were looked at in order.
    pub open spec fn expand(self, x: usize, rest: Seq<usize>, targets: Seq<usize>) -> Search {
        let fresh = discover(targets, self.visited);
        Search {
            origin: self.origin,
            frontier: rest + fresh,
            visited: self.visited.union(fresh.to_set()),
            yielded: self.yielded.push(x),
        }
    }

    /// One step of a breadth-first search: the oldest node of the frontier
    /// is yielded.
    pub open spec fn step_oldest(self, targets: Seq<usize>) -> Search {
        self.expand(self.frontier[0], self.frontier.drop_first(), targets)
    }

    /// Nothing is left to yield.
    pub open spec fn done(self) -> bool {
        self.frontier.len() == 0
    }

    /// What holds of a traversal of `g` that marks nodes as visited when
    /// they enter the frontier, at every moment.
    pub open spec fn inv(self, g: Seq<Set<int>>) -> bool {
        &&& self.origin < g.len() <= usize::MAX
        &&& self.visited.contains(self.origin)
        &&& forall|v: usize| #[trigger]
            self.visited.contains(v) ==> v < g.len() && reachable(g, self.origin as int, v as int)
        &&& forall|v: usize| #[trigger]
            self.visited.contains(v) <==> self.frontier.contains(v) || self.yielded.contains(v)
        &&& self.frontier.no_duplicates()
        &&& self.yielded.no_duplicates()
        &&& forall|v: usize| !(self.frontier.contains(v) && #[trigger] self.yielded.contains(v))
        &&& forall|v: usize, t: usize|
            self.yielded.contains(v) && #[trigger] arc(g, v as int, t as int)
                ==> self.visited.contains(t)
    }
}

/// What `discover` returns: the targets outside `seen`, each once.
pub proof fn lemma_discover(targets: Seq<usize>, seen: Set<usize>)
    ensures
        discover(targets, seen).no_duplicates(),
        forall|t: usize| #[trigger]
            discover(targets, seen).contains(t) <==> targets.contains(t) && !seen.contains(t),
    decreases targets.len(),
{
    let d = discover(targets, seen);
    if targets.len() == 0 {
        assert forall|t: usize| #[trigger] d.contains(t) <==> targets.contains(t) && !seen.contains(
            t,
        ) by {}
    } else {
        let init = targets.drop_last();
        let last = targets.last();
        let found = discover(init, seen);
        lemma_discover(init, seen);
        assert(targets =~= init.push(last));
        assert forall|t: usize| #[trigger] d.contains(t) <==> targets.contains(t) && !seen.contains(
            t,
        ) by {
            lemma_contains_push(init, last, t);
            lemma_contains_push(found, last, t);
        }
        if !(seen.contains(last) || found.contains(last)) {
            lemma_no_dup_push(found, last);
        }
    }
}

/// An element of `s.push(v)` is `v` or an element of `s`.
pub proof fn lemma_contains_push<A>(s: Seq<A>, v: A, x: A)
    ensures
        s.push(v).contains(x) <==> s.contains(x) || x == v,
{
    let p = s.push(v);
    if s.contains(x) {
        let i = choose|i: int| 0 <= i < s.len() && s[i] == x;
        assert(p[i] == x);
    }
    if x == v {
        assert(p[s.len() as int] == x);
    }
    if p.contains(x) {
        let i = choose|i: int| 0 <= i < p.len() && p[i] == x;
        if i < s.len() {
            assert(s[i] == x);
        }
    }
}

/// An element of `a + b` is an element of `a` or of `b`.
pub proof fn lemma_contains_concat<A>(a: Seq<A>, b: Seq<A>, x: A)
    ensures
        (a + b).contains(x) <==> a.contains(x) || b.contains(x),
{
    let c = a + b;
    if a.contains(x) {
        let i = choose|i: int| 0 <= i < a.len() && a[i] == x;
        assert(c[i] == x);
    }
    if b.contains(x) {
        let i = choose|i: int| 0 <= i < b.len() && b[i] == x;
        assert(c[a.len() + i] == x);
    }
    if c.contains(x) {
        let i = choose|i: int| 0 <= i < c.len() && c[i] == x;
        if i < a.len() {
            assert(a[i] == x);
        } else {
            assert(b[i - a.len()] == x);
        }
    }
}

/// Pushing a new element keeps a sequence free of duplicates.
pub proof fn lemma_no_dup_push<A>(s: Seq<A>, v: A)
    requires
        s.no_duplicates(),
        !s.contains(v),
    ensures
        s.push(v).no_duplicates(),
{
    let p = s.push(v);
    assert forall|i: int, j: int| 0 <= i < p.len() && 0 <= j < p.len() && i != j implies p[i]
        != p[j] by {
        if i < s.len() && j < s.len() {
        } else if i < s.len() {
            assert(s.contains(s[i]));
        } else {
            assert(s.contains(s[j]));
        }
    }
}

/// Two sequences without duplicates and without a common element
/// concatenate to one without duplicates.
pub proof fn lemma_no_dup_concat<A>(a: Seq<A>, b: Seq<A>)
    requires
        a.no_duplicates(),
        b.no_duplicates(),
        forall|x: A| !(a.contains(x) && b.contains(x)),
    ensures
        (a + b).no_duplicates(),
{
    let c = a + b;
    assert forall|i: int, j: int| 0 <= i < c.len() && 0 <= j < c.len() && i != j implies c[i]
        != c[j] by {
        if i < a.len() && j >= a.len() {
            assert(a.contains(a[i]));
            assert(b.contains(b[j - a.len()]));
        } else if j < a.len() && i >= a.len() {
            assert(a.contains(a[j]));
            assert(b.contains(b[i - a.len()]));
        }
    }
}

/// A sequence of distinct nodes of a graph with `n` nodes has at most `n`
/// elements.
pub proof fn lemma_distinct_nodes_len(s: Seq<usize>, n: nat)
    requires
        s.no_duplicates(),
        forall|i: int| 0 <= i < s.len() ==> s[i] < n,
    ensures
        s.len() <= n,
    decreases n,
{
    if n == 0 {
        if s.len() > 0 {
            assert(s[0] < n);
        }
    } else {
        let top = (n - 1) as usize;
        if s.contains(top) {
            let i = choose|i: int| 0 <= i < s.len() && s[i] == top;
            let r = s.remove(i);
            assert forall|j: int| 0 <= j < r.len() implies r[j] < n - 1 by {
                if j < i {
                    assert(r[j] == s[j]);
                } else {
                    assert(r[j] == s[j + 1]);
                }
            }
            assert(r.no_duplicates());
            lemma_distinct_nodes_len(r, (n - 1) as nat);
        } else {
            assert forall|j: int| 0 <= j < s.len() implies s[j] < n - 1 by {
                assert(s.contains(s[j]));
            }
            lemma_distinct_nodes_len(s, (n - 1) as nat);
        }
    }
}

impl Search {
    /// The starting state meets the invariant.
    pub proof fn lemma_start(g: Seq<Set<int>>, origin: usize)
        requires
            origin < g.len() <= usize::MAX,
        ensures
            Search::start(origin).inv(g),
    {
        let s = Search::start(origin);
        lemma_reach_self(g, origin as int);
        assert(s.frontier[0] == origin);
        assert forall|v: usize| #[trigger]
            s.visited.contains(v) <==> s.frontier.contains(v) || s.yielded.contains(v) by {
            if s.frontier.contains(v) {
                let i = choose|i: int| 0 <= i < s.frontier.len() && s.frontier[i] == v;
            }
        }
    }

    /// Taking `x` out of the frontier and looking at all its successors
    /// keeps the invariant.
    pub proof fn lemma_expand(self, g: Seq<Set<int>>, x: usize, rest: Seq<usize>, targets: Seq<usize>)
        requires
            self.inv(g),
            self.frontier.contains(x),
            rest.no_duplicates(),
            !rest.contains(x),
            forall|v: usize| self.frontier.contains(v) <==> rest.contains(v) || v == x,
            lists_successors(g, x, targets),
        ensures
            self.expand(x, rest, targets).inv(g),
    {
        let next = self.expand(x, rest, targets);
        let fresh = discover(targets, self.visited);
        lemma_discover(targets, self.visited);
        assert(self.visited.contains(x));
        assert forall|v: usize| #[trigger] next.visited.contains(v) implies v < g.len()
            && reachable(g, self.origin as int, v as int) by {
            if !self.visited.contains(v) {
                assert(fresh.contains(v));
                assert(targets.contains(v));
                assert(arc(g, x as int, v as int));
                lemma_reach_extend(g, self.origin as int, x as int, v as int);
            }
        }
        assert forall|v: usize| #[trigger]
            next.visited.contains(v) <==> next.frontier.contains(v) || next.yielded.contains(
                v,
            ) by {
            lemma_contains_concat(rest, fresh, v);
            lemma_contains_push(self.yielded, x, v);
            assert(self.visited.contains(v) <==> self.frontier.contains(v)
                || self.yielded.contains(v));
        }
        assert forall|v: usize| !(rest.contains(v) && fresh.contains(v)) by {
            if rest.contains(v) {
                assert(self.frontier.contains(v));
                assert(self.visited.contains(v));
            }
        }
        lemma_no_dup_concat(rest, fresh);
        assert(!self.yielded.contains(x));
        lemma_no_dup_push(self.yielded, x);
        assert forall|v: usize|
            !(next.frontier.contains(v) && #[trigger] next.yielded.contains(v)) by {
            lemma_contains_concat(rest, fresh, v);
            lemma_contains_push(self.yielded, x, v);
            if fresh.contains(v) {
                assert(!self.visited.contains(v));
            }
            if rest.contains(v) {
                assert(self.frontier.contains(v));
            }
        }
        assert forall|v: usize, t: usize|
            next.yielded.contains(v) && #[trigger] arc(g, v as int, t as int)
                implies next.visited.contains(t) by {
            lemma_contains_push(self.yielded, x, v);
            if self.yielded.contains(v) {
                assert(self.visited.contains(t));
            } else {
                assert(targets.contains(t));
                if !self.visited.contains(t) {
                    assert(fresh.contains(t));
                }
            }
        }
    }

    /// The step of a breadth-first search keeps the invariant.
    pub proof fn lemma_step_oldest(self, g: Seq<Set<int>>, targets: Seq<usize>)
        requires
            self.inv(g),
            !self.done(),
            lists_successors(g, self.frontier[0], targets),
        ensures
            self.step_oldest(targets).inv(g),
    {
        let x = self.frontier[0];
        let rest = self.frontier.drop_first();
        assert(self.frontier =~= seq![x] + rest);
        assert forall|v: usize| self.frontier.contains(v) <==> rest.contains(v) || v == x by {
            lemma_contains_concat(seq![x], rest, v);
            if v == x {
                assert(seq![x][0] == v);
            }
        }
        if rest.contains(x) {
            let i = choose|i: int| 0 <= i < rest.len() && rest[i] == x;
            assert(self.frontier[i + 1] == x);
        }
        self.lemma_expand(g, x, rest, targets);
    }

    /// A finished traversal has visited, and yielded, exactly the nodes
    /// that the origin reaches.
    pub proof fn lemma_done(self, g: Seq<Set<int>>)
        requires
            self.inv(g),
            self.done(),
            closed_graph(g),
        ensures
            forall|v: usize| self.visited.contains(v) <==> reachable(g, self.origin as int, v as int),
            forall|v: usize| self.yielded.contains(v) <==> reachable(g, self.origin as int, v as int),
    {
        let s = Set::new(|b: int| 0 <= b < g.len() && self.visited.contains(b as usize));
        assert(s.contains(self.origin as int));
        assert forall|a: int, b: int| s.contains(a) && arc(g, a, b) implies s.contains(b) by {
            let v = a as usize;
            let t = b as usize;
            assert(self.visited.contains(v));
            assert(!self.frontier.contains(v));
            assert(self.yielded.contains(v));
            assert(arc(g, v as int, t as int));
        }
        lemma_reach_closed(g, self.origin as int, s);
        assert forall|v: usize| reachable(g, self.origin as int, v as int)
            implies self.visited.contains(v) by {
            assert(s.contains(v as int));
        }
        assert forall|v: usize| self.yielded.contains(v) <==> reachable(
            g,
            self.origin as int,
            v as int,
        ) by {
            assert(self.visited.contains(v) <==> self.frontier.contains(v)
                || self.yielded.contains(v));
        }
    }

    /// A traversal yields each node at most once, so never more nodes than
    /// the graph has.
    pub proof fn lemma_yield_bound(self, g: Seq<Set<int>>)
        requires
            self.inv(g),
        ensures
            self.yielded.len() + self.frontier.len() <= g.len(),
    {
        let all = self.yielded + self.frontier;
        assert forall|v: usize| !(self.yielded.contains(v) && self.frontier.contains(v)) by {}
        lemma_no_dup_concat(self.yielded, self.frontier);
        assert forall|i: int| 0 <= i < all.len() implies all[i] < g.len() by {
            lemma_contains_concat(self.yielded, self.frontier, all[i]);
            assert(all.contains(all[i]));
            assert(self.visited.contains(all[i]));
        }
        lemma_distinct_nodes_len(all, g.len());
    }
}

/// A walk from `s` to `v` with `d` edges.
pub open spec fn walk_of(g: Seq<Set<int>>, p: Seq<int>, s: int, v: int, d: int) -> bool {
    walk_between(g, p, s, v) && p.len() == d + 1
}

/// Some walk from `s` to `v` has `d` edges.
pub open spec fn in_hops(g: Seq<Set<int>>, s: int, v: int, d: int) -> bool {
    exists|p: Seq<int>| #[trigger] walk_of(g, p, s, v, d)
}

/// `v` lies at distance `d` from `s`: a walk with `d` edges leads from `s`
/// to `v`, and none with fewer.
pub open spec fn at_distance(g: Seq<Set<int>>, s: int, v: int, d: int) -> bool {
    &&& in_hops(g, s, v, d)
    &&& forall|q: Seq<int>| #[trigger] walk_between(g, q, s, v) ==> q.len() >= d + 1
}

/// The levels after the nodes of `fresh` were discovered at level `l`.
pub open spec fn leveled(level: Map<usize, int>, fresh: Seq<usize>, l: int) -> Map<usize, int> {
    Map::new(
        |v: usize| level.contains_key(v) || fresh.contains(v),
        |v: usize|
            if level.contains_key(v) {
                level[v]
            } else {
                l
            },
    )
}

impl Search {
    /// What holds, beyond [`Search::inv`], of a breadth-first traversal:
    /// `level` gives each visited node the number of edges of the walk on
    /// which it was discovered; the frontier holds its nodes in the order
    /// of their levels, which differ by one at most; and the nodes yielded
    /// came in the order of their levels and before the nodes of the
    /// frontier.
    pub open spec fn leveled_inv(self, g: Seq<Set<int>>, level: Map<usize, int>) -> bool {
        &&& self.inv(g)
        &&& level[self.origin] == 0
        &&& forall|v: usize| #[trigger] self.visited.contains(v) <==> level.contains_key(v)
        &&& forall|v: usize| #[trigger]
            self.visited.contains(v) ==> in_hops(g, self.origin as int, v as int, level[v])
        &&& forall|i: int, j: int|
            0 <= i <= j < self.frontier.len() ==> level[#[trigger] self.frontier[i]] <= level[
            #[trigger] self.frontier[j]] <= level[self.frontier[i]] + 1
        &&& forall|i: int, j: int|
            0 <= i <= j < self.yielded.len() ==> level[#[trigger] self.yielded[i]] <= level[
            #[trigger] self.yielded[j]]
        &&& forall|i: int, j: int|
            0 <= i < self.yielded.len() && 0 <= j < self.frontier.len() ==> level[
            #[trigger] self.yielded[i]] <= level[#[trigger] self.frontier[j]]
        &&& forall|v: usize, t: usize|
            self.yielded.contains(v) && #[trigger] arc(g, v as int, t as int) ==> level[t]
                <= level[v] + 1
    }

    /// The starting state, with the origin at level zero, meets the
    /// invariant of a breadth-first traversal.
    pub proof fn lemma_start_leveled(g: Seq<Set<int>>, origin: usize)
        requires
            origin < g.len() <= usize::MAX,
        ensures
            Search::start(origin).leveled_inv(g, Map::empty().insert(origin, 0int)),
    {
        let s = Search::start(origin);
        let level = Map::<usize, int>::empty().insert(origin, 0int);
        Search::lemma_start(g, origin);
        let p = seq![origin as int];
        assert(walk_of(g, p, origin as int, origin as int, 0));
        assert(s.frontier[0] == origin);
        assert forall|v: usize| #[trigger] s.visited.contains(v) <==> level.contains_key(v) by {}
    }

    /// The step of a breadth-first search keeps its invariant, with the
    /// newly discovered nodes one level above the node that is yielded.
    pub proof fn lemma_step_leveled(self, g: Seq<Set<int>>, level: Map<usize, int>, targets: Seq<usize>)
        requires
            self.leveled_inv(g, level),
            !self.done(),
            lists_successors(g, self.frontier[0], targets),
        ensures
            self.step_oldest(targets).leveled_inv(
                g,
                leveled(level, discover(targets, self.visited), level[self.frontier[0]] + 1),
            ),
    {
        let x = self.frontier[0];
        let cur = level[x];
        let rest = self.frontier.drop_first();
        let fresh = discover(targets, self.visited);
        let next = self.step_oldest(targets);
        let lv = leveled(level, fresh, cur + 1);
        self.lemma_step_oldest(g, targets);
        lemma_discover(targets, self.visited);
        assert(self.frontier.contains(x));
        assert(self.visited.contains(x));
        assert forall|v: usize| self.visited.contains(v) implies lv[v] == level[v] by {}
        assert forall|k: int| 0 <= k < fresh.len() implies lv[#[trigger] fresh[k]] == cur + 1
            && !self.visited.contains(fresh[k]) by {
            assert(fresh.contains(fresh[k]));
        }
        assert forall|k: int| 0 <= k < rest.len() implies lv[#[trigger] rest[k]] == level[rest[k]]
            && cur <= level[rest[k]] <= cur + 1 by {
            assert(rest[k] == self.frontier[k + 1]);
            assert(self.frontier.contains(self.frontier[k + 1]));
            assert(level[self.frontier[0]] <= level[self.frontier[k + 1]]);
        }
        assert forall|k: int| 0 <= k < self.yielded.len() implies lv[#[trigger] self.yielded[k]]
            == level[self.yielded[k]] && level[self.yielded[k]] <= cur by {
            assert(self.yielded.contains(self.yielded[k]));
            assert(level[self.yielded[k]] <= level[self.frontier[0]]);
        }
        assert forall|v: usize| #[trigger] self.visited.contains(v) implies level[v] <= cur + 1 by {
            if self.frontier.contains(v) {
                let k = choose|k: int| 0 <= k < self.frontier.len() && self.frontier[k] == v;
                assert(level[self.frontier[0]] <= level[self.frontier[k]] <= level[self.frontier[0]]
                    + 1);
            } else {
                let k = choose|k: int| 0 <= k < self.yielded.len() && self.yielded[k] == v;
                assert(level[self.yielded[k]] <= level[self.frontier[0]]);
            }
        }
        assert forall|v: usize| #[trigger] next.visited.contains(v) <==> lv.contains_key(v) by {
            assert(self.visited.contains(v) <==> level.contains_key(v));
        }
        assert forall|v: usize| #[trigger] next.visited.contains(v) implies in_hops(
            g,
            next.origin as int,
            v as int,
            lv[v],
        ) by {
            if self.visited.contains(v) {
                let p = choose|p: Seq<int>| #[trigger]
                    walk_of(g, p, self.origin as int, v as int, level[v]);
                assert(walk_of(g, p, next.origin as int, v as int, lv[v]));
            } else {
                assert(fresh.contains(v));
                assert(targets.contains(v));
                let p = choose|p: Seq<int>| #[trigger]
                    walk_of(g, p, self.origin as int, x as int, cur);
                let q = p.push(v as int);
                assert forall|i: int| 0 <= i < q.len() - 1 implies #[trigger] step_ok(g, q, i) by {
                    if i < p.len() - 1 {
                        assert(step_ok(g, p, i));
                    }
                }
                assert(walk_of(g, q, next.origin as int, v as int, cur + 1));
            }
        }
        assert forall|i: int, j: int| 0 <= i <= j < next.frontier.len() implies lv[
        #[trigger] next.frontier[i]] <= lv[#[trigger] next.frontier[j]] <= lv[next.frontier[i]]
            + 1 by {
            if j < rest.len() {
                assert(next.frontier[i] == rest[i] && next.frontier[j] == rest[j]);
                assert(level[self.frontier[i + 1]] <= level[self.frontier[j + 1]]);
            } else if i < rest.len() {
                assert(next.frontier[i] == rest[i]);
                assert(next.frontier[j] == fresh[j - rest.len()]);
            } else {
                assert(next.frontier[i] == fresh[i - rest.len()]);
                assert(next.frontier[j] == fresh[j - rest.len()]);
            }
        }
        assert forall|i: int, j: int| 0 <= i <= j < next.yielded.len() implies lv[
        #[trigger] next.yielded[i]] <= lv[#[trigger] next.yielded[j]] by {
            if j < self.yielded.len() {
                assert(level[self.yielded[i]] <= level[self.yielded[j]]);
            } else if i < self.yielded.len() {
                assert(lv[self.yielded[i]] <= cur);
            }
        }
        assert forall|i: int, j: int|
            0 <= i < next.yielded.len() && 0 <= j < next.frontier.len() implies lv[
        #[trigger] next.yielded[i]] <= lv[#[trigger] next.frontier[j]] by {
            if i < self.yielded.len() {
                assert(lv[self.yielded[i]] <= cur);
            }
            if j < rest.len() {
                assert(next.frontier[j] == rest[j]);
            } else {
                assert(next.frontier[j] == fresh[j - rest.len()]);
            }
        }
        assert forall|v: usize, t: usize|
            next.yielded.contains(v) && #[trigger] arc(g, v as int, t as int) implies lv[t] <= lv[v]
            + 1 by {
            lemma_contains_push(self.yielded, x, v);
            assert(next.visited.contains(t));
            if self.yielded.contains(v) {
                assert(self.visited.contains(t));
                assert(self.visited.contains(v));
            } else {
                if self.visited.contains(t) {
                    assert(level[t] <= cur + 1);
                } else {
                    assert(fresh.contains(t));
                    let k = choose|k: int| 0 <= k < fresh.len() && fresh[k] == t;
                    assert(lv[fresh[k]] == cur + 1);
                }
            }
        }
    }

    /// In a breadth-first traversal no walk from the origin to a visited
    /// node has fewer edges than the level of the node: the level of a
    /// visited node is its distance from the origin.
    pub proof fn lemma_level_is_distance(self, g: Seq<Set<int>>, level: Map<usize, int>, v: usize)
        requires
            self.leveled_inv(g, level),
            self.visited.contains(v),
        ensures
            at_distance(g, self.origin as int, v as int, level[v]),
    {
        assert forall|q: Seq<int>| #[trigger]
            walk_between(g, q, self.origin as int, v as int) implies q.len() >= level[v] + 1 by {
            self.lemma_level_on_walk(g, level, q, q.len() - 1);
            if self.frontier.len() > 0 {
                if self.frontier.contains(v) {
                    let k = choose|k: int| 0 <= k < self.frontier.len() && self.frontier[k] == v;
                    assert(level[self.frontier[k]] <= level[self.frontier[0]] + 1);
                } else {
                    let k = choose|k: int| 0 <= k < self.yielded.len() && self.yielded[k] == v;
                    assert(level[self.yielded[k]] <= level[self.frontier[0]]);
                }
            }
        }
    }

    /// A breadth-first traversal yields its nodes in the order of their
    /// distances from the origin: of two nodes yielded, the one yielded
    /// first lies no further away.
    pub proof fn lemma_yield_order(
        self,
        g: Seq<Set<int>>,
        level: Map<usize, int>,
        i: int,
        j: int,
    ) -> (d: (int, int))
        requires
            self.leveled_inv(g, level),
            0 <= i <= j < self.yielded.len(),
        ensures
            at_distance(g, self.origin as int, self.yielded[i] as int, d.0),
            at_distance(g, self.origin as int, self.yielded[j] as int, d.1),
            d.0 <= d.1,
    {
        assert(self.yielded.contains(self.yielded[i]));
        assert(self.yielded.contains(self.yielded[j]));
        assert(self.visited.contains(self.yielded[i]));
        assert(self.visited.contains(self.yielded[j]));
        self.lemma_level_is_distance(g, level, self.yielded[i]);
        self.lemma_level_is_distance(g, level, self.yielded[j]);
        assert(level[self.yielded[i]] <= level[self.yielded[j]]);
        (level[self.yielded[i]], level[self.yielded[j]])
    }

    /// The level of a node on a walk from the origin is at most its
    /// place on the walk, unless that place lies beyond the level of the
    /// oldest node of the frontier.
    pub proof fn lemma_level_on_walk(self, g: Seq<Set<int>>, level: Map<usize, int>, p: Seq<int>, i: int)
        requires
            self.leveled_inv(g, level),
            is_walk(g, p),
            p[0] == self.origin,
            0 <= i < p.len(),
        ensures
            (self.visited.contains(p[i] as usize) && level[p[i] as usize] <= i) || (
            self.frontier.len() > 0 && i > level[self.frontier[0]]),
        decreases i,
    {
        lemma_walk_nodes(g, p, i);
        if i == 0 {
            assert(self.visited.contains(self.origin));
        } else {
            self.lemma_level_on_walk(g, level, p, i - 1);
            lemma_walk_nodes(g, p, i - 1);
            assert(step_ok(g, p, i - 1));
            let a = p[i - 1] as usize;
            let b = p[i] as usize;
            if self.visited.contains(a) && level[a] <= i - 1 {
                if self.yielded.contains(a) {
                    assert(arc(g, a as int, b as int));
                    assert(self.visited.contains(b));
                } else {
                    assert(self.frontier.contains(a));
                    let k = choose|k: int| 0 <= k < self.frontier.len() && self.frontier[k] == a;
                    assert(level[self.frontier[0]] <= level[self.frontier[k]]);
                }
            }
        }
    }
}

} // verus!

verus! {

/// The targets that are not in `seen`, the last of them first.
pub open spec fn later(targets: Seq<usize>, seen: Set<usize>) -> Seq<usize>
    decreases targets.len(),
{
    if targets.len() == 0 {
        Seq::empty()
    } else if seen.contains(targets.last()) {
        later(targets.drop_last(), seen)
    } else {
        seq![targets.last()] + later(targets.drop_last(), seen)
    }
}

/// The stack without the visited nodes at its top.
pub open spec fn strip(stack: Seq<usize>, seen: Set<usize>) -> Seq<usize>
    decreases stack.len(),
{
    if stack.len() > 0 && seen.contains(stack.last()) {
        strip(stack.drop_last(), seen)
    } else {
        stack
    }
}

/// What `later` returns: the targets outside `seen`.
pub proof fn lemma_later(targets: Seq<usize>, seen: Set<usize>, t: usize)
    ensures
        later(targets, seen).contains(t) <==> targets.contains(t) && !seen.contains(t),
    decreases targets.len(),
{
    if targets.len() > 0 {
        let init = targets.drop_last();
        let last = targets.last();
        lemma_later(init, seen, t);
        assert(targets =~= init.push(last));
        lemma_contains_push(init, last, t);
        lemma_contains_concat(seq![last], later(init, seen), t);
        if seq![last].contains(t) {
            let i = choose|i: int| 0 <= i < 1 && seq![last][i] == t;
        } else if t == last {
            assert(seq![last][0] == t);
        }
    }
}

/// What `strip` returns: a prefix of the stack that is empty or ends with
/// a node that is not visited.
pub proof fn lemma_strip(stack: Seq<usize>, seen: Set<usize>)
    ensures
        strip(stack, seen).len() <= stack.len(),
        strip(stack, seen) == stack.take(strip(stack, seen).len() as int),
        strip(stack, seen).len() > 0 ==> !seen.contains(strip(stack, seen).last()),
        forall|i: int| strip(stack, seen).len() <= i < stack.len() ==> seen.contains(stack[i]),
    decreases stack.len(),
{
    if stack.len() > 0 && seen.contains(stack.last()) {
        let rest = stack.drop_last();
        lemma_strip(rest, seen);
        let s = strip(rest, seen);
        assert(s =~= stack.take(s.len() as int));
        assert forall|i: int| s.len() <= i < stack.len() implies seen.contains(stack[i]) by {
            if i < rest.len() {
                assert(rest[i] == stack[i]);
            }
        }
    } else {
        assert(stack =~= stack.take(stack.len() as int));
    }
}

impl Search {
    /// One step of a depth-first search: the visited nodes at the top of
    /// the stack are dropped, the node below them is visited and yielded,
    /// and those of its successors that are not visited are put on the
    /// stack, the first of them on top.
    pub open spec fn step_deep(self, targets: Seq<usize>) -> Search {
        let open = strip(self.frontier, self.visited);
        let x = open.last();
        Search {
            origin: self.origin,
            frontier: open.drop_last() + later(targets, self.visited.insert(x)),
            visited: self.visited.insert(x),
            yielded: self.yielded.push(x),
        }
    }

    /// The state of a depth-first search whose stack held visited nodes
    /// only.
    pub open spec fn drained(self) -> Search {
        Search {
            origin: self.origin,
            frontier: Seq::empty(),
            visited: self.visited,
            yielded: self.yielded,
        }
    }

    /// What holds of a depth-first traversal of `g` at every moment: the
    /// nodes visited are the nodes yielded; they and the nodes on the
    /// stack are reached from the origin; and every successor of a node
    /// yielded is visited or on the stack.
    pub open spec fn deep_inv(self, g: Seq<Set<int>>) -> bool {
        &&& self.origin < g.len() <= usize::MAX
        &&& self.visited.contains(self.origin) || self.frontier.contains(self.origin)
        &&& forall|v: usize| #[trigger] self.visited.contains(v) <==> self.yielded.contains(v)
        &&& forall|v: usize| #[trigger]
            self.visited.contains(v) ==> v < g.len() && reachable(g, self.origin as int, v as int)
        &&& forall|i: int|
            0 <= i < self.frontier.len() ==> (#[trigger] self.frontier[i]) < g.len() && reachable(
                g,
                self.origin as int,
                self.frontier[i] as int,
            )
        &&& self.yielded.no_duplicates()
        &&& forall|v: usize, t: usize|
            self.yielded.contains(v) && #[trigger] arc(g, v as int, t as int)
                ==> self.visited.contains(t) || self.frontier.contains(t)
    }

    /// The state before a depth-first traversal yields its first node.
    pub open spec fn start_deep(origin: usize) -> Search {
        Search { origin, frontier: seq![origin], visited: Set::empty(), yielded: Seq::empty() }
    }

    /// The starting state meets the invariant of a depth-first traversal.
    pub proof fn lemma_start_deep(g: Seq<Set<int>>, origin: usize)
        requires
            origin < g.len() <= usize::MAX,
        ensures
            Search::start_deep(origin).deep_inv(g),
    {
        let s = Search::start_deep(origin);
        lemma_reach_self(g, origin as int);
        assert(s.frontier[0] == origin);
    }

    /// Dropping the visited nodes from the top of the stack keeps the
    /// invariant.
    pub proof fn lemma_strip_deep(self, g: Seq<Set<int>>)
        requires
            self.deep_inv(g),
        ensures
            (Search {
                origin: self.origin,
                frontier: strip(self.frontier, self.visited),
                visited: self.visited,
                yielded: self.yielded,
            }).deep_inv(g),
    {
        let open = strip(self.frontier, self.visited);
        lemma_strip(self.frontier, self.visited);
        assert forall|t: usize| self.frontier.contains(t) implies self.visited.contains(t)
            || open.contains(t) by {
            let i = choose|i: int| 0 <= i < self.frontier.len() && self.frontier[i] == t;
            if i < open.len() {
                assert(open[i] == t);
            }
        }
        assert forall|i: int| 0 <= i < open.len() implies (#[trigger] open[i]) < g.len()
            && reachable(g, self.origin as int, open[i] as int) by {
            assert(open[i] == self.frontier[i]);
        }
    }

    /// The step of a depth-first search keeps the invariant.
    pub proof fn lemma_step_deep(self, g: Seq<Set<int>>, targets: Seq<usize>)
        requires
            self.deep_inv(g),
            strip(self.frontier, self.visited).len() > 0,
            lists_successors(g, strip(self.frontier, self.visited).last(), targets),
        ensures
            self.step_deep(targets).deep_inv(g),
    {
        let open = strip(self.frontier, self.visited);
        let x = open.last();
        let rest = open.drop_last();
        let seen = self.visited.insert(x);
        let fresh = later(targets, seen);
        let next = self.step_deep(targets);
        self.lemma_strip_deep(g);
        lemma_strip(self.frontier, self.visited);
        assert(open[open.len() - 1] == x);
        assert(open.contains(x));
        assert(open =~= rest.push(x));
        assert forall|v: usize| open.contains(v) <==> rest.contains(v) || v == x by {
            lemma_contains_push(rest, x, v);
        }
        assert forall|v: usize| next.frontier.contains(v) <==> rest.contains(v) || fresh.contains(
            v,
        ) by {
            lemma_contains_concat(rest, fresh, v);
        }
        assert forall|v: usize| fresh.contains(v) <==> targets.contains(v) && !seen.contains(v) by {
            lemma_later(targets, seen, v);
        }
        assert forall|v: usize| #[trigger] next.visited.contains(v) <==> next.yielded.contains(
            v,
        ) by {
            lemma_contains_push(self.yielded, x, v);
            assert(self.visited.contains(v) <==> self.yielded.contains(v));
        }
        assert(!self.yielded.contains(x));
        lemma_no_dup_push(self.yielded, x);
        assert forall|i: int| 0 <= i < next.frontier.len() implies (#[trigger] next.frontier[i])
            < g.len() && reachable(g, self.origin as int, next.frontier[i] as int) by {
            if i < rest.len() {
                assert(next.frontier[i] == open[i]);
            } else {
                let t = fresh[i - rest.len()];
                assert(fresh.contains(t));
                assert(arc(g, x as int, t as int));
                lemma_reach_extend(g, self.origin as int, x as int, t as int);
            }
        }
        assert forall|v: usize, t: usize|
            next.yielded.contains(v) && #[trigger] arc(g, v as int, t as int)
                implies next.visited.contains(t) || next.frontier.contains(t) by {
            lemma_contains_push(self.yielded, x, v);
            if self.yielded.contains(v) {
                if !self.visited.contains(t) {
                    assert(open.contains(t));
                }
            } else {
                assert(targets.contains(t));
            }
        }
        if !next.visited.contains(self.origin) {
            assert(open.contains(self.origin));
        }
    }

    /// A depth-first traversal whose stack is empty has visited, and
    /// yielded, exactly the nodes that the origin reaches.
    pub proof fn lemma_done_deep(self, g: Seq<Set<int>>)
        requires
            self.deep_inv(g),
            self.done(),
            closed_graph(g),
        ensures
            forall|v: usize| self.visited.contains(v) <==> reachable(g, self.origin as int, v as int),
            forall|v: usize| self.yielded.contains(v) <==> reachable(g, self.origin as int, v as int),
    {
        let s = Set::new(|b: int| 0 <= b < g.len() && self.visited.contains(b as usize));
        assert(s.contains(self.origin as int));
        assert forall|a: int, b: int| s.contains(a) && arc(g, a, b) implies s.contains(b) by {
            let v = a as usize;
            let t = b as usize;
            assert(self.yielded.contains(v));
            assert(arc(g, v as int, t as int));
        }
        lemma_reach_closed(g, self.origin as int, s);
        assert forall|v: usize| reachable(g, self.origin as int, v as int)
            implies self.visited.contains(v) by {
            assert(s.contains(v as int));
        }
        assert forall|v: usize| self.yielded.contains(v) <==> reachable(
            g,
            self.origin as int,
            v as int,
        ) by {
            assert(self.visited.contains(v) <==> self.yielded.contains(v));
        }
    }

    /// A depth-first traversal yields each node at most once, so never
    /// more nodes than the graph has.
    pub proof fn lemma_yield_bound_deep(self, g: Seq<Set<int>>)
        requires
            self.deep_inv(g),
        ensures
            self.yielded.len() <= g.len(),
    {
        assert forall|i: int| 0 <= i < self.yielded.len() implies self.yielded[i] < g.len() by {
            assert(self.yielded.contains(self.yielded[i]));
            assert(self.visited.contains(self.yielded[i]));
        }
        lemma_distinct_nodes_len(self.yielded, g.len());
    }
}

} // verus!

verus! {

/// What is left of `a` after `b` is taken from it, and zero if `b` is the
/// larger.
pub open spec fn minus(a: nat, b: nat) -> nat {
    if a >= b {
        (a - b) as nat
    } else {
        0
    }
}

/// The nodes that a depth-first search with the given stack will yield,
/// in order. `tg` lists the successors of each node; `fuel` bounds the
/// number of nodes.
pub open spec fn run(tg: Seq<Seq<usize>>, stack: Seq<usize>, seen: Set<usize>, fuel: nat) -> Seq<usize>
    decreases fuel, stack.len(),
{
    if stack.len() == 0 {
        Seq::empty()
    } else if seen.contains(stack.last()) {
        run(tg, stack.drop_last(), seen, fuel)
    } else if fuel == 0 {
        Seq::empty()
    } else {
        let x = stack.last();
        seq![x] + run(
            tg,
            stack.drop_last() + later(tg[x as int], seen.insert(x)),
            seen.insert(x),
            (fuel - 1) as nat,
        )
    }
}

/// What a walk through a part of a graph has done: the nodes it visited,
/// in order, and all nodes visited by its end.
pub struct Tour {
    pub order: Seq<usize>,
    pub seen: Set<usize>,
}

/// The walk that visits `x` and then walks, from each successor of `x` in
/// turn that is not visited by then, in the same way. `fuel` bounds the
/// number of nodes.
pub open spec fn tour(tg: Seq<Seq<usize>>, seen: Set<usize>, x: usize, fuel: nat) -> Tour
    decreases fuel, 0nat,
{
    if fuel == 0 {
        Tour { order: Seq::empty(), seen }
    } else {
        let inner = tour_list(tg, seen.insert(x), tg[x as int], 0, (fuel - 1) as nat);
        Tour { order: seq![x] + inner.order, seen: inner.seen }
    }
}

/// The walks from the targets from position `k` on, each from a target
/// that is not visited when its turn comes.
pub open spec fn tour_list(
    tg: Seq<Seq<usize>>,
    seen: Set<usize>,
    targets: Seq<usize>,
    k: nat,
    fuel: nat,
) -> Tour
    decreases fuel, targets.len() - k + 1,
{
    if k >= targets.len() {
        Tour { order: Seq::empty(), seen }
    } else {
        let first = if seen.contains(targets[k as int]) {
            Tour { order: Seq::empty(), seen }
        } else {
            tour(tg, seen, targets[k as int], fuel)
        };
        let rest = tour_list(tg, first.seen, targets, k + 1, minus(fuel, first.order.len()));
        Tour { order: first.order + rest.order, seen: rest.seen }
    }
}

/// The nodes that `x` reaches, in the order in which a walk visits them
/// that goes on from each node to its first successor not yet visited and
/// comes back when nothing new is left: the pre-order of the walk.
pub open spec fn pre_order(tg: Seq<Seq<usize>>, x: usize) -> Seq<usize> {
    tour(tg, Set::empty(), x, tg.len()).order
}

/// Without fuel a search yields nothing.
pub proof fn lemma_run_dry(tg: Seq<Seq<usize>>, stack: Seq<usize>, seen: Set<usize>)
    ensures
        run(tg, stack, seen, 0) == Seq::<usize>::empty(),
    decreases stack.len(),
{
    if stack.len() > 0 && seen.contains(stack.last()) {
        lemma_run_dry(tg, stack.drop_last(), seen);
    }
}

/// Visited nodes at the top of the stack make no difference to what a
/// search yields.
pub proof fn lemma_run_strip(tg: Seq<Seq<usize>>, stack: Seq<usize>, seen: Set<usize>, fuel: nat)
    ensures
        run(tg, stack, seen, fuel) == run(tg, strip(stack, seen), seen, fuel),
    decreases stack.len(),
{
    if stack.len() > 0 && seen.contains(stack.last()) {
        lemma_run_strip(tg, stack.drop_last(), seen, fuel);
    }
}

/// The unvisited targets from position `k` on, the last first, end with
/// the target at `k` if that is not visited.
pub proof fn lemma_later_skip(targets: Seq<usize>, seen: Set<usize>, k: int)
    requires
        0 <= k < targets.len(),
    ensures
        later(targets.skip(k), seen) == later(targets.skip(k + 1), seen) + (if seen.contains(
            targets[k],
        ) {
            Seq::<usize>::empty()
        } else {
            seq![targets[k]]
        }),
    decreases targets.len() - k,
{
    let from = targets.skip(k);
    let after = targets.skip(k + 1);
    let head = if seen.contains(targets[k]) {
        Seq::<usize>::empty()
    } else {
        seq![targets[k]]
    };
    if k == targets.len() - 1 {
        assert(from.drop_last() =~= Seq::<usize>::empty());
        assert(after =~= Seq::<usize>::empty());
        assert(from.last() == targets[k]);
        assert(later(from.drop_last(), seen) =~= Seq::<usize>::empty());
        assert(later(from, seen) =~= later(after, seen) + head);
    } else {
        let shorter = targets.drop_last();
        lemma_later_skip(shorter, seen, k);
        assert(from.drop_last() =~= shorter.skip(k));
        assert(after.drop_last() =~= shorter.skip(k + 1));
        assert(from.last() == targets.last());
        assert(after.last() == targets.last());
        assert(shorter[k] == targets[k]);
        if seen.contains(targets.last()) {
            assert(later(from, seen) == later(shorter.skip(k), seen));
            assert(later(after, seen) == later(shorter.skip(k + 1), seen));
        } else {
            let tail = seq![targets.last()];
            assert(later(from, seen) == tail + later(shorter.skip(k), seen));
            assert(later(after, seen) == tail + later(shorter.skip(k + 1), seen));
            assert(tail + (later(shorter.skip(k + 1), seen) + head) =~= (tail + later(
                shorter.skip(k + 1),
                seen,
            )) + head);
        }
    }
}

/// A search with an unvisited node on top of its stack yields the walk
/// from that node and then goes on with the rest of the stack.
pub proof fn lemma_run_node(tg: Seq<Seq<usize>>, stack: Seq<usize>, seen: Set<usize>, x: usize, fuel: nat)
    requires
        !seen.contains(x),
    ensures
        run(tg, stack.push(x), seen, fuel) == tour(tg, seen, x, fuel).order + run(
            tg,
            stack,
            tour(tg, seen, x, fuel).seen,
            minus(fuel, tour(tg, seen, x, fuel).order.len()),
        ),
        forall|v: usize| seen.contains(v) ==> tour(tg, seen, x, fuel).seen.contains(v),
    decreases fuel, 0nat,
{
    let top = stack.push(x);
    assert(top.last() == x);
    assert(top.drop_last() =~= stack);
    if fuel == 0 {
        lemma_run_dry(tg, stack, seen);
        assert(Seq::<usize>::empty() + Seq::<usize>::empty() =~= Seq::<usize>::empty());
    } else {
        let marked = seen.insert(x);
        let targets = tg[x as int];
        assert(targets.skip(0) =~= targets);
        lemma_run_list(tg, stack, marked, marked, targets, 0, (fuel - 1) as nat);
        let inner = tour_list(tg, marked, targets, 0, (fuel - 1) as nat);
        let left = run(tg, stack, inner.seen, minus((fuel - 1) as nat, inner.order.len()));
        assert(seq![x] + (inner.order + left) =~= (seq![x] + inner.order) + left);
        assert(minus((fuel - 1) as nat, inner.order.len()) == minus(
            fuel,
            (seq![x] + inner.order).len(),
        ));
        assert forall|v: usize| seen.contains(v) implies tour(tg, seen, x, fuel).seen.contains(
            v,
        ) by {
            assert(marked.contains(v));
        }
    }
}

/// A search whose stack ends with the unvisited targets from position `k`
/// on yields the walks from those targets and then goes on with the rest
/// of the stack. The targets were put on the stack when the nodes of
/// `since` were visited; more may have been visited since.
pub proof fn lemma_run_list(
    tg: Seq<Seq<usize>>,
    stack: Seq<usize>,
    since: Set<usize>,
    seen: Set<usize>,
    targets: Seq<usize>,
    k: nat,
    fuel: nat,
)
    requires
        k <= targets.len(),
        forall|v: usize| since.contains(v) ==> seen.contains(v),
    ensures
        run(tg, stack + later(targets.skip(k as int), since), seen, fuel) == tour_list(
            tg,
            seen,
            targets,
            k,
            fuel,
        ).order + run(
            tg,
            stack,
            tour_list(tg, seen, targets, k, fuel).seen,
            minus(fuel, tour_list(tg, seen, targets, k, fuel).order.len()),
        ),
        forall|v: usize| seen.contains(v) ==> tour_list(tg, seen, targets, k, fuel).seen.contains(v),
    decreases fuel, targets.len() - k + 1,
{
    if k >= targets.len() {
        assert(targets.skip(k as int) =~= Seq::<usize>::empty());
        assert(stack + Seq::<usize>::empty() =~= stack);
        assert(Seq::<usize>::empty() + run(tg, stack, seen, fuel) =~= run(tg, stack, seen, fuel));
    } else {
        let t = targets[k as int];
        let below = stack + later(targets.skip((k + 1) as int), since);
        lemma_later_skip(targets, since, k as int);
        if since.contains(t) {
            assert(stack + later(targets.skip(k as int), since) =~= below);
            lemma_run_list(tg, stack, since, seen, targets, k + 1, fuel);
            let rest = tour_list(tg, seen, targets, k + 1, fuel);
            assert(Seq::<usize>::empty() + rest.order =~= rest.order);
        } else {
            assert(stack + later(targets.skip(k as int), since) =~= below.push(t));
            if seen.contains(t) {
                assert(below.push(t).last() == t);
                assert(below.push(t).drop_last() =~= below);
                lemma_run_list(tg, stack, since, seen, targets, k + 1, fuel);
                let rest = tour_list(tg, seen, targets, k + 1, fuel);
                assert(Seq::<usize>::empty() + rest.order =~= rest.order);
            } else {
                lemma_run_node(tg, below, seen, t, fuel);
                let first = tour(tg, seen, t, fuel);
                let left = minus(fuel, first.order.len());
                lemma_run_list(tg, stack, since, first.seen, targets, k + 1, left);
                let rest = tour_list(tg, first.seen, targets, k + 1, left);
                let end = run(tg, stack, rest.seen, minus(left, rest.order.len()));
                assert(first.order + (rest.order + end) =~= (first.order + rest.order) + end);
                assert(minus(left, rest.order.len()) == minus(
                    fuel,
                    (first.order + rest.order).len(),
                ));
            }
        }
    }
}

impl Search {
    /// What the traversal has yielded and what it will yield make up the
    /// pre-order of the walk from its origin.
    pub open spec fn on_tour(self, tg: Seq<Seq<usize>>) -> bool {
        self.yielded + run(tg, self.frontier, self.visited, (tg.len() - self.yielded.len()) as nat)
            == pre_order(tg, self.origin)
    }

    /// A depth-first traversal that starts is on its tour.
    pub proof fn lemma_tour_start(tg: Seq<Seq<usize>>, origin: usize)
        ensures
            Search::start_deep(origin).on_tour(tg),
    {
        let s = Search::start_deep(origin);
        let none = Set::<usize>::empty();
        lemma_run_node(tg, Seq::empty(), none, origin, tg.len());
        assert(Seq::<usize>::empty().push(origin) =~= seq![origin]);
        let t = tour(tg, none, origin, tg.len());
        assert(run(tg, Seq::empty(), t.seen, minus(tg.len(), t.order.len())) =~= Seq::<
            usize,
        >::empty());
        assert(t.order + Seq::<usize>::empty() =~= t.order);
        assert(Seq::<usize>::empty() + t.order =~= t.order);
    }

    /// The step of a depth-first search keeps it on its tour.
    pub proof fn lemma_tour_step(self, tg: Seq<Seq<usize>>)
        requires
            self.on_tour(tg),
            strip(self.frontier, self.visited).len() > 0,
            self.yielded.len() < tg.len(),
        ensures
            self.step_deep(tg[strip(self.frontier, self.visited).last() as int]).on_tour(tg),
    {
        let open = strip(self.frontier, self.visited);
        let x = open.last();
        let fuel = (tg.len() - self.yielded.len()) as nat;
        let next = self.step_deep(tg[x as int]);
        lemma_run_strip(tg, self.frontier, self.visited, fuel);
        lemma_strip(self.frontier, self.visited);
        let more = run(tg, next.frontier, next.visited, (fuel - 1) as nat);
        assert(run(tg, open, self.visited, fuel) == seq![x] + more);
        assert(self.yielded + (seq![x] + more) =~= self.yielded.push(x) + more);
    }

    /// A depth-first search whose stack holds visited nodes only has
    /// yielded the pre-order of the walk from its origin.
    pub proof fn lemma_tour_done(self, tg: Seq<Seq<usize>>)
        requires
            self.on_tour(tg),
            strip(self.frontier, self.visited).len() == 0,
        ensures
            self.yielded == pre_order(tg, self.origin),
            self.drained().on_tour(tg),
    {
        let fuel = (tg.len() - self.yielded.len()) as nat;
        lemma_run_strip(tg, self.frontier, self.visited, fuel);
        assert(self.yielded + Seq::<usize>::empty() =~= self.yielded);
    }
}

} // verus!

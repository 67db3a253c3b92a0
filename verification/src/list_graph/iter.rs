//! Breadth-first traversal of an adjacency-list graph.
use vstd::prelude::*;
use std::collections::HashSet;
use std::collections::VecDeque;
use super::graph::Graph;
use crate::orientation::Orientation;
use crate::search::{at_distance, discover, lemma_contains_push, leveled, Search};

verus! {

/// A breadth-first traversal of a graph from one start node.
///
/// Each call of [`BFS::next`] yields one node; the nodes come in the order
/// in which they were discovered, and the successors of a node are
/// discovered in the order of its edges.
pub struct BFS<'g, V, D, E> {
    graph: &'g Graph<V, D, E>,
    frontier: VecDeque<usize>,
    visited: HashSet<usize>,
    origin: Ghost<usize>,
    yielded: Ghost<Seq<usize>>,
    levels: Ghost<Map<usize, int>>,
}

impl<'g, V, D, E> View for BFS<'g, V, D, E> {
    type V = Search;

    closed spec fn view(&self) -> Search {
        Search {
            origin: self.origin@,
            frontier: self.frontier@,
            visited: self.visited@,
            yielded: self.yielded@,
        }
    }
}

impl<'g, V, D: Orientation, E> BFS<'g, V, D, E> {
    /// The graph that is traversed.
    pub closed spec fn graph(&self) -> Graph<V, D, E> {
        *self.graph
    }

    /// The number of edges of the walk on which each visited node was
    /// discovered.
    pub closed spec fn levels(&self) -> Map<usize, int> {
        self.levels@
    }

    /// The traversal is in a state that a breadth-first traversal of its
    /// graph can reach.
    pub open spec fn wf(&self) -> bool {
        &&& self.graph().wf()
        &&& self@.leveled_inv(self.graph().adjacency(), self.levels())
    }

    /// The nodes come in the order of their distances from the start: of
    /// two nodes yielded, the one yielded first lies no further from the
    /// start than the other.
    pub proof fn lemma_yield_order(&self, i: int, j: int) -> (d: (int, int))
        requires
            self.wf(),
            0 <= i <= j < self@.yielded.len(),
        ensures
            at_distance(
                self.graph().adjacency(),
                self@.origin as int,
                self@.yielded[i] as int,
                d.0,
            ),
            at_distance(
                self.graph().adjacency(),
                self@.origin as int,
                self@.yielded[j] as int,
                d.1,
            ),
            d.0 <= d.1,
    {
        self@.lemma_yield_order(self.graph().adjacency(), self.levels(), i, j)
    }

    /// A traversal of `graph` that has discovered `start` and yielded
    /// nothing yet.
    pub fn new(graph: &'g Graph<V, D, E>, start: usize) -> (it: Self)
        requires
            graph.wf(),
            start < graph@.len(),
        ensures
            it.wf(),
            it.graph() == *graph,
            it@ == Search::start(start),
    {
        let mut visited = HashSet::new();
        visited.insert(start);
        let mut frontier = VecDeque::new();
        frontier.push_front(start);
        let n = graph.len();
        let it = Self {
            frontier,
            visited,
            graph,
            origin: Ghost(start),
            yielded: Ghost(Seq::empty()),
            levels: Ghost(Map::empty().insert(start, 0int)),
        };
        proof {
            assert(it@.frontier =~= seq![start]);
            assert(it@.visited =~= set![start]);
            Search::lemma_start_leveled(graph.adjacency(), start);
        }
        it
    }

    /// The nodes discovered so far.
    pub fn visited(&self) -> (r: &HashSet<usize>)
        ensures
            r@ == self@.visited,
    {
        &self.visited
    }

    /// Yields the next node, or `None` when every node that the start
    /// reaches has been yielded.
    ///
    /// The node yielded is the oldest of the frontier. Those of its
    /// successors that were not discovered before join the frontier, in the
    /// order of its edges.
    pub fn next(&mut self) -> (r: Option<usize>)
        requires
            old(self).wf(),
        ensures
            final(self).wf(),
            final(self).graph() == old(self).graph(),
            match r {
                None => old(self)@.done() && final(self)@ == old(self)@ && final(self).levels()
                    == old(self).levels(),
                Some(x) => !old(self)@.done() && x == old(self)@.frontier[0] && final(self)@ == old(self)@.step_oldest(old(self).graph().targets(x as int)),
            },
    {
        let graph = self.graph;
        let ghost before = self@;
        let ghost level = self.levels@;
        let ghost adj = graph.adjacency();
        match self.frontier.pop_front() {
            None => {
                assert(self@.frontier =~= before.frontier);
                None
            },
            Some(x) => {
                proof {
                    assert(before.frontier.contains(x));
                    assert(before.visited.contains(x));
                }
                let edges = graph.edges(x);
                let ghost targets = graph.targets(x as int);
                let ghost rest = before.frontier.drop_first();
                assert(self.frontier@ =~= rest + discover(targets.take(0), before.visited));
                assert(self.visited@ =~= before.visited.union(
                    discover(targets.take(0), before.visited).to_set(),
                ));
                let mut k: usize = 0;
                while k < edges.len()
                    invariant
                        k <= edges.len(),
                        edges@ == graph.out(x as int),
                        targets == graph.targets(x as int),
                        *self.graph == *graph,
                        self.origin@ == before.origin,
                        self.yielded@ == before.yielded,
                        self.levels@ == level,
                        self.frontier@ == rest + discover(targets.take(k as int), before.visited),
                        self.visited@ == before.visited.union(
                            discover(targets.take(k as int), before.visited).to_set(),
                        ),
                    decreases edges.len() - k,
                {
                    let t = edges[k].next;
                    let ghost found = discover(targets.take(k as int), before.visited);
                    proof {
                        let tk = targets.take(k + 1);
                        assert(tk.drop_last() =~= targets.take(k as int));
                        assert(tk.last() == t);
                    }
                    if !self.visited.contains(&t) {
                        self.frontier.push_back(t);
                        self.visited.insert(t);
                        proof {
                            assert(self.frontier@ =~= rest + found.push(t));
                            assert forall|v: usize|
                                found.push(t).to_set().contains(v) <==> found.to_set().insert(
                                    t,
                                ).contains(v) by {
                                lemma_contains_push(found, t, v);
                            }
                            assert(self.visited@ =~= before.visited.union(found.push(t).to_set()));
                        }
                    }
                    k += 1;
                }
                self.yielded = Ghost(self.yielded@.push(x));
                self.levels = Ghost(leveled(level, discover(targets, before.visited), level[x] + 1));
                proof {
                    assert(targets.take(k as int) =~= targets);
                    graph.lemma_targets(x);
                    before.lemma_step_leveled(adj, level, targets);
                }
                Some(x)
            },
        }
    }
}

} // verus!

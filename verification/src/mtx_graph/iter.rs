//! Depth-first and breadth-first traversal of an adjacency-matrix graph.
use vstd::prelude::*;
use std::collections::HashSet;
use std::collections::VecDeque;
use std::hash::Hash;
use super::graph::{positive_columns, Graph, GraphIdx};
use crate::orientation::Orientation;
use crate::reach::reachable;
use crate::search::{
    at_distance,
    discover,
    later,
    lemma_contains_push,
    lemma_strip,
    leveled,
    pre_order,
    strip,
    Search,
};

verus! {

/// A depth-first traversal of a graph from one start node.
///
/// The nodes come in the order in which a walk visits them that goes on
/// from each node to its first successor not yet visited, and comes back
/// to a node when nothing new is left beyond it; the successors of a node
/// are tried in ascending order of their indices. The traversal keeps the
/// nodes it has still to try on a stack and marks a node as visited when
/// it yields it.
pub struct DFS<'g, T, D, W> where T: Hash + Eq + Clone, D: Clone + Orientation, W: Clone {
    frontier: Vec<usize>,
    visited: HashSet<usize>,
    graph: &'g Graph<T, D, W>,
    origin: Ghost<usize>,
    yielded: Ghost<Seq<usize>>,
}

/// A breadth-first traversal of a graph from one start node.
///
/// Each call of [`BFS::next`] yields the node that was discovered first
/// among those not yet yielded. The successors of a node are discovered in
/// ascending order of their indices, and a node is discovered once.
pub struct BFS<'g, T, D, W> where T: Hash + Eq + Clone, D: Clone + Orientation, W: Clone {
    frontier: VecDeque<usize>,
    visited: HashSet<usize>,
    graph: &'g Graph<T, D, W>,
    origin: Ghost<usize>,
    yielded: Ghost<Seq<usize>>,
    levels: Ghost<Map<usize, int>>,
}

impl<'g, T, D, W> View for DFS<'g, T, D, W> where
    T: Hash + Eq + Clone,
    D: Clone + Orientation,
    W: Clone,
 {
    type V = Search;

    closed spec fn view(&self) -> Search {
        Search {
            origin: self.origin@,
            frontier: self.frontier@,
            visited: self.visited@,
            yielded: self.yielded@,
        }
    }
}

impl<'g, T, D, W> View for BFS<'g, T, D, W> where
    T: Hash + Eq + Clone,
    D: Clone + Orientation,
    W: Clone,
 {
    type V = Search;

    closed spec fn view(&self) -> Search {
        Search {
            origin: self.origin@,
            frontier: self.frontier@,
            visited: self.visited@,
            yielded: self.yielded@,
        }
    }
}

/// Looks at the row of a node that has just left the frontier: every
/// column with a positive weight whose node was not discovered before is
/// marked as visited. Returns those columns in ascending order.
fn scan_row(row: &[usize], visited: &mut HashSet<usize>) -> (fresh: Vec<usize>)
    ensures
        fresh@ == discover(positive_columns(row@), old(visited)@),
        final(visited)@ == old(visited)@.union(fresh@.to_set()),
{
    let mut fresh: Vec<usize> = Vec::new();
    let mut j: usize = 0;
    assert(row@.take(0) =~= Seq::<usize>::empty());
    assert(visited@ =~= old(visited)@.union(fresh@.to_set()));
    while j < row.len()
        invariant
            j <= row.len(),
            fresh@ == discover(positive_columns(row@.take(j as int)), old(visited)@),
            visited@ == old(visited)@.union(fresh@.to_set()),
        decreases row.len() - j,
    {
        let ghost cols = positive_columns(row@.take(j as int));
        let ghost found = fresh@;
        proof {
            let next = row@.take(j + 1);
            assert(next.drop_last() =~= row@.take(j as int));
            assert(next.last() == row[j as int]);
            if row[j as int] > 0 {
                assert(positive_columns(next) == cols.push(j));
                assert(cols.push(j).drop_last() =~= cols);
                assert(cols.push(j).last() == j);
            }
        }
        if row[j] > 0 && !visited.contains(&j) {
            fresh.push(j);
            visited.insert(j);
            proof {
                assert forall|v: usize|
                    found.push(j).to_set().contains(v) <==> found.to_set().insert(j).contains(
                        v,
                    ) by {
                    lemma_contains_push(found, j, v);
                }
                assert(visited@ =~= old(visited)@.union(fresh@.to_set()));
            }
        }
        j += 1;
    }
    assert(row@.take(j as int) =~= row@);
    fresh
}

/// Looks at the row of a node that has just been yielded, from its last
/// column to its first: every column with a positive weight whose node is
/// not visited is put on the stack, so that the first of them ends on top.
fn stack_row(row: &[usize], visited: &HashSet<usize>, stack: &mut Vec<usize>)
    ensures
        final(stack)@ == old(stack)@ + later(positive_columns(row@), visited@),
{
    let ghost want = later(positive_columns(row@), visited@);
    let mut j: usize = row.len();
    assert(row@.take(j as int) =~= row@);
    assert(stack@ + want =~= old(stack)@ + want);
    while j > 0
        invariant
            j <= row.len(),
            want == later(positive_columns(row@), visited@),
            stack@ + later(positive_columns(row@.take(j as int)), visited@) == old(stack)@ + want,
        decreases j,
    {
        let ghost cols = positive_columns(row@.take(j as int));
        let ghost held = stack@;
        j -= 1;
        let ghost rest = positive_columns(row@.take(j as int));
        proof {
            let upto = row@.take(j + 1);
            assert(upto.drop_last() =~= row@.take(j as int));
            assert(upto.last() == row[j as int]);
            if row[j as int] > 0 {
                assert(cols == rest.push(j));
                assert(rest.push(j).drop_last() =~= rest);
                assert(rest.push(j).last() == j);
            }
        }
        if row[j] > 0 && !visited.contains(&j) {
            stack.push(j);
            proof {
                assert(later(cols, visited@) == seq![j] + later(rest, visited@));
                assert(stack@ + later(rest, visited@) =~= held + later(cols, visited@));
            }
        }
    }
    proof {
        assert(row@.take(0) =~= Seq::<usize>::empty());
        assert(stack@ + Seq::<usize>::empty() =~= stack@);
    }
}

impl<'g, T, D, W> DFS<'g, T, D, W> where T: Hash + Eq + Clone, D: Clone + Orientation, W: Clone {
    /// The graph that is traversed.
    pub closed spec fn graph(&self) -> Graph<T, D, W> {
        *self.graph
    }

    /// The traversal is in a state that a depth-first traversal of its
    /// graph can reach.
    pub open spec fn wf(&self) -> bool {
        &&& self.graph().wf()
        &&& self@.deep_inv(self.graph().adjacency())
        &&& self@.on_tour(self.graph().successors())
    }

    /// A traversal that has run to its end has yielded the nodes that the
    /// start reaches in pre-order: each node before the nodes that are
    /// first reached through it, and the successors of a node in ascending
    /// order.
    pub proof fn lemma_pre_order(&self)
        requires
            self.wf(),
            self@.done(),
        ensures
            self@.yielded == pre_order(self.graph().successors(), self@.origin),
    {
        self@.lemma_tour_done(self.graph().successors());
    }

    /// A traversal of `graph` that has `start` on its stack and has
    /// yielded nothing yet.
    pub fn new(graph: &'g Graph<T, D, W>, start: GraphIdx) -> (it: Self)
        requires
            graph.wf(),
            start.0 < graph@.len(),
        ensures
            it.wf(),
            it.graph() == *graph,
            it@ == Search::start_deep(start.0),
    {
        let visited = HashSet::new();
        let mut frontier = Vec::new();
        frontier.push(start.0);
        let it = Self {
            frontier,
            visited,
            graph,
            origin: Ghost(start.0),
            yielded: Ghost(Seq::empty()),
        };
        proof {
            assert(it@.frontier =~= seq![start.0]);
            graph.lemma_shape();
            Search::lemma_start_deep(graph.adjacency(), start.0);
            Search::lemma_tour_start(graph.successors(), start.0);
        }
        it
    }

    /// The nodes visited so far: those that were yielded.
    pub fn visited(&self) -> (r: &HashSet<usize>)
        ensures
            r@ == self@.visited,
    {
        &self.visited
    }

    /// Yields the next node, or `None` when every node that the start
    /// reaches has been yielded.
    ///
    /// The node yielded is the topmost node of the stack that is not
    /// visited; the visited nodes above it are dropped. Those of its
    /// successors that are not visited are put on the stack, the first of
    /// them on top.
    pub fn next(&mut self) -> (r: Option<GraphIdx>)
        requires
            old(self).wf(),
        ensures
            final(self).wf(),
            final(self).graph() == old(self).graph(),
            match r {
                None => strip(old(self)@.frontier, old(self)@.visited).len() == 0 && final(self)@
                    == old(self)@.drained(),
                Some(x) => strip(old(self)@.frontier, old(self)@.visited).len() > 0 && x.0 == strip(
                    old(self)@.frontier,
                    old(self)@.visited,
                ).last() && final(self)@ == old(self)@.step_deep(
                    positive_columns(old(self).graph()@[x.0 as int]),
                ),
            },
    {
        let graph = self.graph;
        let ghost before = self@;
        let ghost open = strip(before.frontier, before.visited);
        proof {
            lemma_strip(before.frontier, before.visited);
            before.lemma_strip_deep(graph.adjacency());
        }
        loop
            invariant
                (Search {
                    origin: before.origin,
                    frontier: open,
                    visited: before.visited,
                    yielded: before.yielded,
                }).deep_inv(graph.adjacency()),
                *self.graph == *graph,
                *graph == old(self).graph(),
                before == old(self)@,
                graph.wf(),
                self.origin@ == before.origin,
                self.yielded@ == before.yielded,
                self.visited@ == before.visited,
                before.deep_inv(graph.adjacency()),
                before.on_tour(graph.successors()),
                open == strip(before.frontier, before.visited),
                strip(self.frontier@, before.visited) == open,
            decreases self.frontier@.len(),
        {
            match self.frontier.pop() {
                None => {
                    proof {
                        assert(self@.frontier =~= Seq::<usize>::empty());
                        assert(open =~= Seq::<usize>::empty());
                        assert(self@ == before.drained());
                        assert(before.drained() == (Search {
                            origin: before.origin,
                            frontier: open,
                            visited: before.visited,
                            yielded: before.yielded,
                        }));
                        before.lemma_tour_done(graph.successors());
                    }
                    return None;
                },
                Some(x) => {
                    if !self.visited.contains(&x) {
                        proof {
                            assert(open.len() > 0);
                            assert(open[open.len() - 1] == x);
                            assert(self.frontier@ =~= open.drop_last());
                            graph.lemma_shape();
                            let stripped = Search {
                                origin: before.origin,
                                frontier: open,
                                visited: before.visited,
                                yielded: before.yielded,
                            };
                            assert(stripped.frontier[open.len() - 1] < graph.adjacency().len());
                        }
                        self.visited.insert(x);
                        let row = graph.edges(GraphIdx(x));
                        stack_row(row, &self.visited, &mut self.frontier);
                        self.yielded = Ghost(self.yielded@.push(x));
                        proof {
                            let tg = graph.successors();
                            graph.lemma_row_successors(x);
                            before.lemma_step_deep(graph.adjacency(), positive_columns(row@));
                            before.step_deep(positive_columns(row@)).lemma_yield_bound_deep(
                                graph.adjacency(),
                            );
                            assert(tg[x as int] == positive_columns(row@));
                            before.lemma_tour_step(tg);
                        }
                        return Some(GraphIdx(x));
                    }
                },
            }
        }
    }
}

impl<'g, T, D, W> BFS<'g, T, D, W> where T: Hash + Eq + Clone, D: Clone + Orientation, W: Clone {
    /// The graph that is traversed.
    pub closed spec fn graph(&self) -> Graph<T, D, W> {
        *self.graph
    }

    /// The number of edges of the walk on which each visited node was
    /// discovered.
    pub closed spec fn levels(&self) -> Map<usize, int> {
        self.levels@
    }

    /// The traversal is in a state that a breadth-first traversal of its
    /// graph can reach.
    pub open spec fn wf(&self) -> bool {
        &&& self.graph().wf()
        &&& self@.leveled_inv(self.graph().adjacency(), self.levels())
    }

    /// The nodes come in the order of their distances from the start: of
    /// two nodes yielded, the one yielded first lies no further from the
    /// start than the other.
    pub proof fn lemma_yield_order(&self, i: int, j: int) -> (d: (int, int))
        requires
            self.wf(),
            0 <= i <= j < self@.yielded.len(),
        ensures
            at_distance(
                self.graph().adjacency(),
                self@.origin as int,
                self@.yielded[i] as int,
                d.0,
            ),
            at_distance(
                self.graph().adjacency(),
                self@.origin as int,
                self@.yielded[j] as int,
                d.1,
            ),
            d.0 <= d.1,
    {
        self@.lemma_yield_order(self.graph().adjacency(), self.levels(), i, j)
    }

    /// A traversal of `graph` that has discovered `start` and yielded
    /// nothing yet.
    pub fn new(graph: &'g Graph<T, D, W>, start: GraphIdx) -> (it: Self)
        requires
            graph.wf(),
            start.0 < graph@.len(),
        ensures
            it.wf(),
            it.graph() == *graph,
            it@ == Search::start(start.0),
    {
        let mut visited = HashSet::new();
        visited.insert(start.0);
        let mut frontier = VecDeque::new();
        frontier.push_front(start.0);
        let it = Self {
            frontier,
            visited,
            graph,
            origin: Ghost(start.0),
            yielded: Ghost(Seq::empty()),
            levels: Ghost(Map::empty().insert(start.0, 0int)),
        };
        proof {
            assert(it@.frontier =~= seq![start.0]);
            assert(it@.visited =~= set![start.0]);
            graph.lemma_shape();
            Search::lemma_start_leveled(graph.adjacency(), start.0);
        }
        it
    }

    /// The nodes discovered so far.
    pub fn visited(&self) -> (r: &HashSet<usize>)
        ensures
            r@ == self@.visited,
    {
        &self.visited
    }

    /// Yields the next node, or `None` when every node that the start
    /// reaches has been yielded.
    ///
    /// The node yielded is the oldest of the frontier. Those of its
    /// successors that were not discovered before join the frontier, in
    /// ascending order.
    pub fn next(&mut self) -> (r: Option<GraphIdx>)
        requires
            old(self).wf(),
        ensures
            final(self).wf(),
            final(self).graph() == old(self).graph(),
            match r {
                None => old(self)@.done() && final(self)@ == old(self)@ && final(self).levels()
                    == old(self).levels(),
                Some(x) => !old(self)@.done() && x.0 == old(self)@.frontier[0] && final(self)@
                    == old(self)@.step_oldest(positive_columns(old(self).graph()@[x.0 as int])),
            },
    {
        let graph = self.graph;
        let ghost before = self@;
        let ghost level = self.levels@;
        match self.frontier.pop_front() {
            None => {
                assert(self@.frontier =~= before.frontier);
                None
            },
            Some(x) => {
                proof {
                    assert(before.frontier.contains(x));
                    assert(before.visited.contains(x));
                    graph.lemma_shape();
                }
                let row = graph.edges(GraphIdx(x));
                let fresh = scan_row(row, &mut self.visited);
                let ghost rest = self.frontier@;
                let mut k: usize = 0;
                while k < fresh.len()
                    invariant
                        k <= fresh.len(),
                        self.frontier@ == rest + fresh@.take(k as int),
                        *self.graph == *graph,
                        self.origin@ == before.origin,
                        self.yielded@ == before.yielded,
                        self.levels@ == level,
                        self.visited@ == before.visited.union(fresh@.to_set()),
                    decreases fresh.len() - k,
                {
                    self.frontier.push_back(fresh[k]);
                    k += 1;
                    assert(self.frontier@ =~= rest + fresh@.take(k as int));
                }
                self.yielded = Ghost(self.yielded@.push(x));
                self.levels = Ghost(leveled(level, fresh@, level[x] + 1));
                proof {
                    assert(fresh@.take(k as int) =~= fresh@);
                    graph.lemma_row_successors(x);
                    before.lemma_step_leveled(graph.adjacency(), level, positive_columns(row@));
                }
                Some(GraphIdx(x))
            },
        }
    }
}

/// A breadth-first and a depth-first traversal of one graph from one start
/// node, both run to their end, have yielded the same set of nodes: the
/// nodes that the start reaches.
pub proof fn lemma_same_visits<'a, 'b, T, D, W>(bfs: BFS<'a, T, D, W>, dfs: DFS<'b, T, D, W>) where
    T: Hash + Eq + Clone,
    D: Clone + Orientation,
    W: Clone,

    requires
        bfs.wf(),
        dfs.wf(),
        bfs.graph()@ == dfs.graph()@,
        bfs@.origin == dfs@.origin,
        bfs@.done(),
        dfs@.done(),
    ensures
        bfs@.yielded.to_set() == dfs@.yielded.to_set(),
        bfs@.visited == dfs@.visited,
        forall|v: usize|
            bfs@.yielded.contains(v) <==> reachable(
                bfs.graph().adjacency(),
                bfs@.origin as int,
                v as int,
            ),
{
    bfs.graph().lemma_shape();
    dfs.graph().lemma_shape();
    bfs@.lemma_done(bfs.graph().adjacency());
    dfs@.lemma_done_deep(dfs.graph().adjacency());
    assert(bfs@.yielded.to_set() =~= dfs@.yielded.to_set());
    assert(bfs@.visited =~= dfs@.visited);
}

} // verus!

//! The adjacency-matrix graph.
use vstd::prelude::*;
use vstd::slice::slice_subrange;
use std::collections::HashMap;
use std::hash::Hash;
use std::marker::PhantomData;
use vstd::std_specs::hash::obeys_key_model;
use crate::orientation::Orientation;
use crate::reach::{arc, closed_graph};
use super::iter::{BFS, DFS};
use crate::search::{lemma_contains_push, lists_successors, Search};

verus! {

/// Tags a graph whose edges carry a weight chosen by the caller.
#[derive(Clone, Copy)]
pub struct Weighted;

/// Tags a graph whose edges all have weight one.
#[derive(Clone, Copy)]
pub struct Unweighted;

/// Tags a graph whose edges go one way.
#[derive(Clone, Copy)]
pub struct Directed;

/// Tags a graph in which every edge is stored in both directions.
#[derive(Clone, Copy)]
pub struct Undirected;

impl Orientation for Directed {
    open spec fn directed() -> bool {
        true
    }
}

impl Orientation for Undirected {
    open spec fn directed() -> bool {
        false
    }
}

/// The index of a node: its position in the order in which the nodes were
/// added.
#[derive(Debug, Copy, Clone, PartialEq, Eq, Structural, Hash, PartialOrd, Ord)]
pub struct GraphIdx(pub usize);

impl vstd::std_specs::ops::MulSpecImpl<usize> for GraphIdx {
    open spec fn obeys_mul_spec() -> bool {
        true
    }

    open spec fn mul_req(self, rhs: usize) -> bool {
        self.0 * rhs <= usize::MAX
    }

    open spec fn mul_spec(self, rhs: usize) -> usize {
        (self.0 * rhs) as usize
    }
}

impl std::ops::Mul<usize> for GraphIdx {
    type Output = usize;

    /// The product of the index, as a number, and `rhs`.
    fn mul(self, rhs: usize) -> (r: usize) {
        self.0 * rhs
    }
}

impl vstd::std_specs::ops::AddSpecImpl<usize> for GraphIdx {
    open spec fn obeys_add_spec() -> bool {
        true
    }

    open spec fn add_req(self, rhs: usize) -> bool {
        self.0 + rhs <= usize::MAX
    }

    open spec fn add_spec(self, rhs: usize) -> usize {
        (self.0 + rhs) as usize
    }
}

impl std::ops::Add<usize> for GraphIdx {
    type Output = usize;

    /// The sum of the index, as a number, and `rhs`.
    fn add(self, rhs: usize) -> (r: usize) {
        self.0 + rhs
    }
}

impl vstd::std_specs::ops::MulSpecImpl<GraphIdx> for usize {
    open spec fn obeys_mul_spec() -> bool {
        true
    }

    open spec fn mul_req(self, rhs: GraphIdx) -> bool {
        self * rhs.0 <= usize::MAX
    }

    open spec fn mul_spec(self, rhs: GraphIdx) -> usize {
        (self * rhs.0) as usize
    }
}

impl std::ops::Mul<GraphIdx> for usize {
    type Output = usize;

    /// The product of `self` and the index, as a number.
    fn mul(self, rhs: GraphIdx) -> (r: usize) {
        self * rhs.0
    }
}

impl vstd::std_specs::ops::AddSpecImpl<GraphIdx> for usize {
    open spec fn obeys_add_spec() -> bool {
        true
    }

    open spec fn add_req(self, rhs: GraphIdx) -> bool {
        self + rhs.0 <= usize::MAX
    }

    open spec fn add_spec(self, rhs: GraphIdx) -> usize {
        (self + rhs.0) as usize
    }
}

impl std::ops::Add<GraphIdx> for usize {
    type Output = usize;

    /// The sum of `self` and the index, as a number.
    fn add(self, rhs: GraphIdx) -> (r: usize) {
        self + rhs.0
    }
}

/// A graph that keeps the weights of its edges in a square matrix, stored
/// row by row. Weight zero means that there is no edge, so an edge of
/// weight zero cannot be stored. Setting an edge that is already there
/// overwrites its weight.
///
/// The matrix lies in a square of cells that may be larger than the graph
/// needs. Adding a node moves the cells only when that square is full, and
/// then into one of twice the side, so that the cost of adding nodes is
/// spread over them.
///
/// The graph is directed or undirected, and weighted or unweighted,
/// according to its tags `D` and `W`; it is undirected and unweighted
/// where they are left out.
pub struct Graph<T, D = Undirected, W = Unweighted> where T: Hash + Eq + Clone, D: Clone + Orientation, W: Clone {
    n: usize,
    cap: usize,
    mtx: Vec<usize>,
    node_map: HashMap<T, GraphIdx>,
    vals: Vec<T>,
    pw: PhantomData<W>,
    pd: PhantomData<D>,
}

/// The position of cell `(a, b)` in a matrix of `n` columns stored row by
/// row.
pub open spec fn flat(n: int, a: int, b: int) -> int {
    a * n + b
}

/// Cells of one matrix have positions inside it.
pub proof fn lemma_flat_bound(n: int, a: int, b: int)
    requires
        0 <= a < n,
        0 <= b < n,
    ensures
        0 <= flat(n, a, b) < n * n,
        flat(n, a, 0) + n <= n * n,
{
    assert(a * n + n <= n * n) by (nonlinear_arith)
        requires
            0 <= a < n,
    ;
    assert(0 <= a * n) by (nonlinear_arith)
        requires
            0 <= a,
            0 <= n,
    ;
}

/// A graph with fewer than 65535 nodes has room for one more node: the
/// cells of the larger matrix can be counted in a `usize`.
pub proof fn lemma_room_for_node(n: nat)
    requires
        n < 65535,
    ensures
        (n + 1) * (n + 1) <= usize::MAX,
{
    assert((n + 1) * (n + 1) <= 65535 * 65535) by (nonlinear_arith)
        requires
            n + 1 <= 65535,
    ;
    assert(65535 * 65535 == 4294836225) by (nonlinear_arith);
    assert(4294836225 <= usize::MAX);
}

/// Cells are stored in the order of their rows, and within a row in the
/// order of their columns.
pub proof fn lemma_flat_order(n: int, a: int, b: int, x: int, y: int)
    requires
        0 <= a,
        0 <= b < n,
        0 <= y,
        a < x || (a == x && b < y),
    ensures
        flat(n, a, b) < flat(n, x, y),
{
    if a < x {
        assert(a * n + n <= x * n) by (nonlinear_arith)
            requires
                0 <= a < x,
                0 <= n,
        ;
    }
}

/// Different cells have different positions.
pub proof fn lemma_flat_distinct(n: int, a: int, b: int, x: int, y: int)
    requires
        0 <= a,
        0 <= b < n,
        0 <= x,
        0 <= y < n,
        a != x || b != y,
    ensures
        flat(n, a, b) != flat(n, x, y),
{
    if a < x {
        lemma_flat_order(n, a, b, x, y);
    } else if x < a {
        lemma_flat_order(n, x, y, a, b);
    }
}

/// The matrix with rows and columns exchanged.
pub open spec fn transposed(m: Seq<Seq<usize>>) -> Seq<Seq<usize>> {
    Seq::new(m.len(), |a: int| Seq::new(m.len(), |b: int| m[b][a]))
}

/// Every row is as long as the matrix has rows.
pub open spec fn square(m: Seq<Seq<usize>>) -> bool {
    forall|a: int| 0 <= a < m.len() ==> (#[trigger] m[a]).len() == m.len()
}

/// The weight from `a` to `b` is the weight from `b` to `a`.
pub open spec fn symmetric(m: Seq<Seq<usize>>) -> bool {
    forall|a: int, b: int| 0 <= a < m.len() && 0 <= b < m.len() ==> m[a][b] == m[b][a]
}

/// The matrix with the weight from `a` to `b` replaced.
pub open spec fn with_weight(m: Seq<Seq<usize>>, a: int, b: int, w: usize) -> Seq<Seq<usize>> {
    m.update(a, m[a].update(b, w))
}

/// The columns in which `row` holds a positive weight, in ascending order.
pub open spec fn positive_columns(row: Seq<usize>) -> Seq<usize>
    decreases row.len(),
{
    if row.len() == 0 {
        Seq::empty()
    } else {
        let init = positive_columns(row.drop_last());
        if row.last() > 0 {
            init.push((row.len() - 1) as usize)
        } else {
            init
        }
    }
}

/// The successor sets that a matrix of weights stands for: `b` follows `a`
/// where the weight from `a` to `b` is positive.
pub open spec fn adjacency_of(m: Seq<Seq<usize>>) -> Seq<Set<int>> {
    Seq::new(m.len(), |a: int| Set::new(|b: int| 0 <= b < m.len() && m[a][b] > 0))
}

/// The positive columns of a row are the columns with a positive weight.
pub proof fn lemma_positive_columns(row: Seq<usize>, t: usize)
    requires
        row.len() <= usize::MAX,
    ensures
        positive_columns(row).contains(t) <==> t < row.len() && row[t as int] > 0,
    decreases row.len(),
{
    if row.len() > 0 {
        let init = row.drop_last();
        lemma_positive_columns(init, t);
        lemma_contains_push(positive_columns(init), (row.len() - 1) as usize, t);
    }
}

/// Transposing twice gives the matrix back.
pub proof fn lemma_transposed_twice(m: Seq<Seq<usize>>)
    requires
        square(m),
    ensures
        transposed(transposed(m)) == m,
{
    let t = transposed(transposed(m));
    assert forall|a: int| 0 <= a < m.len() implies #[trigger] t[a] == m[a] by {
        assert(m[a].len() == m.len());
        assert(t[a] =~= m[a]);
    }
    assert(t =~= m);
}

/// Transposing a symmetric matrix changes nothing.
pub proof fn lemma_transposed_symmetric(m: Seq<Seq<usize>>)
    requires
        square(m),
        symmetric(m),
    ensures
        transposed(m) == m,
{
    let t = transposed(m);
    assert forall|a: int| 0 <= a < m.len() implies #[trigger] t[a] == m[a] by {
        assert(m[a].len() == m.len());
        assert(t[a] =~= m[a]);
    }
    assert(t =~= m);
}

impl<T, D, W> View for Graph<T, D, W> where T: Hash + Eq + Clone, D: Clone + Orientation, W: Clone {
    type V = Seq<Seq<usize>>;

    /// The matrix of weights, as a sequence of rows: `self@[a][b]` is the
    /// weight of the edge from `a` to `b`, or zero where there is none.
    closed spec fn view(&self) -> Seq<Seq<usize>> {
        Seq::new(
            self.n as nat,
            |a: int| Seq::new(self.n as nat, |b: int| self.mtx@[flat(self.cap as int, a, b)]),
        )
    }
}

impl<T, D, W> Graph<T, D, W> where T: Hash + Eq + Clone, D: Clone + Orientation, W: Clone {
    /// The graph is well formed: its matrix is square, and symmetric if the
    /// graph is undirected.
    pub open spec fn wf(&self) -> bool {
        &&& self.shaped()
        &&& !D::directed() ==> symmetric(self@)
    }

    /// The values of the nodes, in index order.
    pub closed spec fn values(&self) -> Seq<T> {
        self.vals@
    }

    /// The lookup from a value to the index of the node that was last
    /// added with it.
    pub closed spec fn index(&self) -> Map<T, GraphIdx> {
        self.node_map@
    }

    /// The graph as a sequence of successor sets.
    pub open spec fn adjacency(&self) -> Seq<Set<int>> {
        adjacency_of(self@)
    }

    /// The successors of every node, in ascending order: one list per
    /// node.
    pub open spec fn successors(&self) -> Seq<Seq<usize>> {
        Seq::new(self@.len(), |a: int| positive_columns(self@[a]))
    }

    /// The matrix is stored in a square of cells with room for at least
    /// the nodes of the graph, the cells beyond the nodes hold zero, one
    /// value is kept per node, and the lookup leads to nodes of the graph.
    pub closed spec fn shaped(&self) -> bool {
        &&& self.mtx@.len() == self.cap * self.cap
        &&& self.cap * self.cap <= usize::MAX
        &&& self.n <= self.cap
        &&& self.vals@.len() == self.n
        &&& forall|a: int, b: int|
            0 <= a < self.cap && 0 <= b < self.cap && (a >= self.n || b >= self.n) ==> #[trigger] self.mtx@[flat(
                self.cap as int,
                a,
                b,
            )] == 0
        &&& obeys_key_model::<T>() ==> forall|k: T| #[trigger]
            self.node_map@.contains_key(k) ==> self.node_map@[k].0 < self.n
    }

    /// The view is a square matrix with one row per node.
    pub proof fn lemma_shape(&self)
        requires
            self.shaped(),
        ensures
            square(self@),
            self@.len() <= usize::MAX,
            self.values().len() == self@.len(),
            self@.len() * self@.len() <= usize::MAX,
            closed_graph(self.adjacency()),
            self.adjacency().len() == self@.len(),
            obeys_key_model::<T>() ==> forall|k: T| #[trigger]
                self.index().contains_key(k) ==> self.index()[k].0 < self@.len(),
    {
        assert(self.n * self.n <= self.cap * self.cap) by (nonlinear_arith)
            requires
                self.n <= self.cap,
        ;
    }

    /// The positive columns of the row of `a` are its successors in the
    /// model.
    pub proof fn lemma_row_successors(&self, a: usize)
        requires
            self.shaped(),
            a < self@.len(),
        ensures
            lists_successors(self.adjacency(), a, positive_columns(self@[a as int])),
    {
        let row = self@[a as int];
        assert forall|t: usize| positive_columns(row).contains(t) <==> arc(
            self.adjacency(),
            a as int,
            t as int,
        ) by {
            lemma_positive_columns(row, t);
        }
    }

    /// Sets the weight of the edge from `x` to `y`.
    fn add_edge_weight(&mut self, x: GraphIdx, y: GraphIdx, weight: usize)
        requires
            old(self).shaped(),
            x.0 < old(self)@.len(),
            y.0 < old(self)@.len(),
        ensures
            final(self).shaped(),
            final(self)@ == with_weight(old(self)@, x.0 as int, y.0 as int, weight),
            final(self).values() == old(self).values(),
            final(self).index() == old(self).index(),
    {
        let idx = calc_2d_to_1d(x, y, self.cap);
        self.mtx[idx] = weight;
        proof {
            let n = self.n as int;
            let cap = self.cap as int;
            let target = with_weight(old(self)@, x.0 as int, y.0 as int, weight);
            assert(self.n == old(self).n);
            assert(self.mtx@ == old(self).mtx@.update(idx as int, weight));
            assert(old(self)@[x.0 as int].len() == n);
            assert forall|a: int| 0 <= a < n implies #[trigger] self@[a] == target[a] by {
                assert forall|b: int| 0 <= b < n implies self@[a][b] == target[a][b] by {
                    lemma_flat_bound(cap, a, b);
                    if a != x.0 || b != y.0 {
                        lemma_flat_distinct(cap, a, b, x.0 as int, y.0 as int);
                        assert(target[a][b] == old(self)@[a][b]);
                    } else {
                        assert(target[a][b] == weight);
                    }
                    assert(self@[a][b] == self.mtx@[flat(cap, a, b)]);
                }
                assert(self@[a] =~= target[a]);
            }
            assert(self@ =~= target);
            assert forall|a: int, b: int|
                0 <= a < cap && 0 <= b < cap && (a >= n || b >= n) implies #[trigger] self.mtx@[flat(
                cap,
                a,
                b,
            )] == 0 by {
                lemma_flat_bound(cap, a, b);
                lemma_flat_distinct(cap, a, b, x.0 as int, y.0 as int);
                assert(old(self).mtx@[flat(cap, a, b)] == 0);
            }
        }
    }

    /// Adds a node with the value `val` and without edges, and returns its
    /// index. The weights between the nodes that were there stay as they
    /// are. The lookup then leads from `val` to the new node, also where it
    /// led to another node before.
    pub fn add_node(&mut self, val: T) -> (idx: GraphIdx)
        requires
            old(self).wf(),
            (old(self)@.len() + 1) * (old(self)@.len() + 1) <= usize::MAX,
        ensures
            final(self).wf(),
            idx.0 == old(self)@.len(),
            final(self)@.len() == old(self)@.len() + 1,
            forall|a: int, b: int|
                0 <= a < old(self)@.len() && 0 <= b < old(self)@.len() ==> final(self)@[a][b]
                    == old(self)@[a][b],
            forall|a: int, b: int|
                0 <= a <= idx.0 && 0 <= b <= idx.0 && (a == idx.0 || b == idx.0) ==> final(self)@[a][b] == 0,
            final(self).values().len() == old(self).values().len() + 1,
            final(self).values().take(idx.0 as int) == old(self).values(),
            cloned(val, final(self).values()[idx.0 as int]),
            obeys_key_model::<T>() ==> final(self).index() == old(self).index().insert(val, idx),
    {
        let n = self.n;
        let ghost before = self@;
        assert(n + 1 <= usize::MAX) by (nonlinear_arith)
            requires
                (n + 1) * (n + 1) <= usize::MAX,
        ;
        if self.n == self.cap {
            self.grow();
        }
        self.n = n + 1;
        self.vals.push(val.clone());
        let idx = GraphIdx(n);
        self.node_map.insert(val, idx);
        proof {
            let cap = self.cap as int;
            assert(self.vals@.take(n as int) =~= old(self).vals@);
            assert forall|a: int, b: int| 0 <= a < n && 0 <= b < n implies self@[a][b]
                == before[a][b] by {
                assert(self@[a][b] == self.mtx@[flat(cap, a, b)]);
            }
            assert forall|a: int, b: int|
                0 <= a <= n && 0 <= b <= n && (a == n || b == n) implies self@[a][b] == 0 by {
                assert(self@[a][b] == self.mtx@[flat(cap, a, b)]);
            }
            if !D::directed() {
                assert forall|a: int, b: int|
                    0 <= a < self@.len() && 0 <= b < self@.len() implies self@[a][b]
                    == self@[b][a] by {
                    if a < n && b < n {
                        assert(before[a][b] == before[b][a]);
                    }
                }
            }
        }
        idx
    }

    /// Moves the matrix into a larger square of cells: one of twice the
    /// side if that can be counted, else one with room for one more node.
    fn grow(&mut self)
        requires
            old(self).shaped(),
            old(self).n == old(self).cap,
            (old(self).n + 1) * (old(self).n + 1) <= usize::MAX,
        ensures
            final(self).shaped(),
            final(self).n < final(self).cap,
            final(self).n == old(self).n,
            final(self)@ == old(self)@,
            final(self).vals == old(self).vals,
            final(self).node_map == old(self).node_map,
    {
        let n = self.n;
        let cap = self.cap;
        assert(n + 1 <= usize::MAX) by (nonlinear_arith)
            requires
                (n + 1) * (n + 1) <= usize::MAX,
        ;
        let wide = match cap.checked_mul(2) {
            Some(twice) => match twice.checked_mul(twice) {
                Some(_) => if twice > n {
                    twice
                } else {
                    n + 1
                },
                None => n + 1,
            },
            None => n + 1,
        };
        let m = wide;
        let mut grown: Vec<usize> = Vec::new();
        let mut x: usize = 0;
        while x < m
            invariant
                x <= m,
                n < m,
                n == self.n,
                cap == self.cap,
                n == cap,
                m * m <= usize::MAX,
                self.mtx@.len() == cap * cap,
                cap * cap <= usize::MAX,
                grown@.len() == flat(m as int, x as int, 0),
                forall|a: int, b: int|
                    0 <= a < x && 0 <= b < m ==> #[trigger] grown@[flat(m as int, a, b)] == (if a < n
                        && b < n {
                        self.mtx@[flat(cap as int, a, b)]
                    } else {
                        0usize
                    }),
            decreases m - x,
        {
            let mut y: usize = 0;
            while y < m
                invariant
                    x < m,
                    y <= m,
                    n < m,
                    n == self.n,
                    cap == self.cap,
                    n == cap,
                    m * m <= usize::MAX,
                    self.mtx@.len() == cap * cap,
                    cap * cap <= usize::MAX,
                    grown@.len() == flat(m as int, x as int, y as int),
                    forall|a: int, b: int|
                        (0 <= a < x && 0 <= b < m) || (a == x && 0 <= b < y) ==> #[trigger] grown@[flat(
                            m as int,
                            a,
                            b,
                        )] == (if a < n && b < n {
                            self.mtx@[flat(cap as int, a, b)]
                        } else {
                            0usize
                        }),
                decreases m - y,
            {
                let ghost prev = grown@;
                let cell = if x < n && y < n {
                    proof {
                        lemma_flat_bound(cap as int, x as int, y as int);
                    }
                    self.mtx[x * cap + y]
                } else {
                    0
                };
                grown.push(cell);
                proof {
                    assert forall|a: int, b: int|
                        (0 <= a < x && 0 <= b < m) || (a == x && 0 <= b < y + 1) implies #[trigger] grown@[flat(
                        m as int,
                        a,
                        b,
                    )] == (if a < n && b < n {
                        self.mtx@[flat(cap as int, a, b)]
                    } else {
                        0usize
                    }) by {
                        if a == x && b == y {
                        } else {
                            lemma_flat_order(m as int, a, b, x as int, y as int);
                            assert(grown@[flat(m as int, a, b)] == prev[flat(m as int, a, b)]);
                        }
                    }
                }
                y += 1;
            }
            proof {
                assert(flat(m as int, x as int, m as int) == flat(m as int, x + 1, 0))
                    by (nonlinear_arith);
            }
            x += 1;
        }
        proof {
            assert(flat(m as int, m as int, 0) == m * m) by (nonlinear_arith);
        }
        let ghost before = self@;
        let ghost old_cells = self.mtx@;
        self.mtx = grown;
        self.cap = m;
        proof {
            assert forall|a: int| 0 <= a < n implies #[trigger] self@[a] == before[a] by {
                assert forall|b: int| 0 <= b < n implies self@[a][b] == before[a][b] by {
                    assert(self@[a][b] == self.mtx@[flat(m as int, a, b)]);
                    assert(before[a][b] == old_cells[flat(cap as int, a, b)]);
                }
                assert(self@[a] =~= before[a]);
            }
            assert(self@ =~= before);
        }
    }

    /// Returns how many nodes are currently in the graph.
    pub fn nodes(&self) -> (n: usize)
        ensures
            n == self@.len(),
    {
        self.n
    }

    /// The number of cells of the matrix: the square of the number of
    /// nodes.
    pub fn cell_count(&self) -> (c: usize)
        requires
            self.wf(),
        ensures
            c == self@.len() * self@.len(),
    {
        proof {
            self.lemma_shape();
        }
        self.n * self.n
    }

    /// Returns the weights of all the edges of a given node: the row of
    /// the node, one weight per node of the graph, zero where there is no
    /// edge.
    pub fn edges(&self, idx: GraphIdx) -> (r: &[usize])
        requires
            self.wf(),
            idx.0 < self@.len(),
        ensures
            r@ == self@[idx.0 as int],
    {
        proof {
            lemma_flat_bound(self.cap as int, idx.0 as int, 0);
        }
        let r = idx * self.cap;
        let row = slice_subrange(self.mtx.as_slice(), r, r + self.n);
        assert(row@ =~= self@[idx.0 as int]);
        row
    }

    /// The nodes that node `idx` has an edge to, in ascending order.
    pub fn neighbors(&self, idx: GraphIdx) -> (r: Vec<GraphIdx>)
        requires
            self.wf(),
            idx.0 < self@.len(),
        ensures
            r@.len() == positive_columns(self@[idx.0 as int]).len(),
            forall|k: int| 0 <= k < r@.len() ==> (#[trigger] r@[k]).0 == positive_columns(
                self@[idx.0 as int],
            )[k],
    {
        let row = self.edges(idx);
        let mut out: Vec<GraphIdx> = Vec::new();
        let mut j: usize = 0;
        assert(row@.take(0) =~= Seq::<usize>::empty());
        while j < row.len()
            invariant
                j <= row.len(),
                out@.len() == positive_columns(row@.take(j as int)).len(),
                forall|k: int|
                    0 <= k < out@.len() ==> (#[trigger] out@[k]).0 == positive_columns(
                        row@.take(j as int),
                    )[k],
            decreases row.len() - j,
        {
            proof {
                let next = row@.take(j + 1);
                assert(next.drop_last() =~= row@.take(j as int));
                assert(next.last() == row[j as int]);
            }
            if row[j] > 0 {
                out.push(GraphIdx(j));
            }
            j += 1;
        }
        assert(row@.take(j as int) =~= row@);
        out
    }

    /// The value of the node `idx`.
    pub fn get_node(&self, idx: GraphIdx) -> (v: &T)
        requires
            self.wf(),
            idx.0 < self@.len(),
        ensures
            *v == self.values()[idx.0 as int],
    {
        &self.vals[idx.0]
    }

    /// The index of the node that was last added with the value `val`, if
    /// there is one.
    pub fn get_idx(&self, val: &T) -> (r: Option<GraphIdx>)
        ensures
            obeys_key_model::<T>() ==> r == (if self.index().contains_key(*val) {
                Some(self.index()[*val])
            } else {
                None
            }),
    {
        match self.node_map.get(val) {
            Some(idx) => Some(*idx),
            None => None,
        }
    }

    /// A depth-first traversal from `start`.
    pub fn dfs(&self, start: GraphIdx) -> (it: DFS<'_, T, D, W>)
        requires
            self.wf(),
            start.0 < self@.len(),
        ensures
            it.wf(),
            it.graph() == *self,
            it@ == Search::start_deep(start.0),
    {
        DFS::new(self, start)
    }

    /// A breadth-first traversal from `start`.
    pub fn bfs(&self, start: GraphIdx) -> (it: BFS<'_, T, D, W>)
        requires
            self.wf(),
            start.0 < self@.len(),
        ensures
            it.wf(),
            it.graph() == *self,
            it@ == Search::start(start.0),
    {
        BFS::new(self, start)
    }

    /// Whether there is an edge from `x` to `y`.
    pub fn has_edge(&self, x: GraphIdx, y: GraphIdx) -> (r: bool)
        requires
            self.wf(),
            x.0 < self@.len(),
            y.0 < self@.len(),
        ensures
            r == (self@[x.0 as int][y.0 as int] > 0),
            r == arc(self.adjacency(), x.0 as int, y.0 as int),
    {
        let idx = calc_2d_to_1d(x, y, self.cap);
        self.mtx[idx] > 0
    }
}

impl<T: Hash + Eq + Clone> Graph<T> {
    /// Adds an edge between `x` and `y`.
    pub fn add_edge(&mut self, x: GraphIdx, y: GraphIdx)
        requires
            old(self).wf(),
            x.0 < old(self)@.len(),
            y.0 < old(self)@.len(),
        ensures
            final(self).wf(),
            final(self)@ == with_weight(
                with_weight(old(self)@, x.0 as int, y.0 as int, 1),
                y.0 as int,
                x.0 as int,
                1,
            ),
            final(self).values() == old(self).values(),
            final(self).index() == old(self).index(),
    {
        proof {
            self.lemma_shape();
        }
        self.add_edge_weight(x, y, 1);
        self.add_edge_weight(y, x, 1);
        proof {
            lemma_with_weight_symmetric(old(self)@, x.0 as int, y.0 as int, 1);
        }
    }
}

impl<T: Hash + Eq + Clone> Graph<T, Directed, Unweighted> {
    /// Adds an edge from `x` to `y`.
    pub fn add_edge(&mut self, x: GraphIdx, y: GraphIdx)
        requires
            old(self).wf(),
            x.0 < old(self)@.len(),
            y.0 < old(self)@.len(),
        ensures
            final(self).wf(),
            final(self)@ == with_weight(old(self)@, x.0 as int, y.0 as int, 1),
            final(self).values() == old(self).values(),
            final(self).index() == old(self).index(),
    {
        self.add_edge_weight(x, y, 1);
    }
}

impl<T: Hash + Eq + Clone> Graph<T, Undirected, Weighted> {
    /// Sets the weight of the edge between `x` and `y`. Weight zero takes
    /// the edge away.
    pub fn add_edge(&mut self, x: GraphIdx, y: GraphIdx, weight: usize)
        requires
            old(self).wf(),
            x.0 < old(self)@.len(),
            y.0 < old(self)@.len(),
        ensures
            final(self).wf(),
            final(self)@ == with_weight(
                with_weight(old(self)@, x.0 as int, y.0 as int, weight),
                y.0 as int,
                x.0 as int,
                weight,
            ),
            final(self).values() == old(self).values(),
            final(self).index() == old(self).index(),
    {
        proof {
            self.lemma_shape();
        }
        self.add_edge_weight(x, y, weight);
        self.add_edge_weight(y, x, weight);
        proof {
            lemma_with_weight_symmetric(old(self)@, x.0 as int, y.0 as int, weight);
        }
    }
}

impl<T: Hash + Eq + Clone> Graph<T, Directed, Weighted> {
    /// Sets the weight of the edge from `x` to `y`. Weight zero takes the
    /// edge away.
    pub fn add_edge(&mut self, x: GraphIdx, y: GraphIdx, weight: usize)
        requires
            old(self).wf(),
            x.0 < old(self)@.len(),
            y.0 < old(self)@.len(),
        ensures
            final(self).wf(),
            final(self)@ == with_weight(old(self)@, x.0 as int, y.0 as int, weight),
            final(self).values() == old(self).values(),
            final(self).index() == old(self).index(),
    {
        self.add_edge_weight(x, y, weight);
    }
}

impl<T, D> Graph<T, D, Weighted> where T: Hash + Eq + Clone, D: Clone + Orientation {
    /// The weight of the edge from `x` to `y`, zero if there is none.
    pub fn edge_weight(&self, x: GraphIdx, y: GraphIdx) -> (w: usize)
        requires
            self.wf(),
            x.0 < self@.len(),
            y.0 < self@.len(),
        ensures
            w == self@[x.0 as int][y.0 as int],
    {
        let idx = calc_2d_to_1d(x, y, self.cap);
        self.mtx[idx]
    }
}

/// In a well-formed undirected graph the weight from `a` to `b` is the
/// weight from `b` to `a`, so there is an edge from `a` to `b` exactly when
/// there is one from `b` to `a`.
pub proof fn lemma_undirected_symmetric<T, D, W>(g: Graph<T, D, W>, a: int, b: int) where
    T: Hash + Eq + Clone,
    D: Clone + Orientation,
    W: Clone,

    requires
        g.wf(),
        !D::directed(),
        0 <= a < g@.len(),
        0 <= b < g@.len(),
    ensures
        g@[a][b] == g@[b][a],
        arc(g.adjacency(), a, b) == arc(g.adjacency(), b, a),
{
    g.lemma_shape();
}

/// Setting the weight between two nodes in both directions keeps a
/// symmetric matrix symmetric.
pub proof fn lemma_with_weight_symmetric(m: Seq<Seq<usize>>, x: int, y: int, w: usize)
    requires
        square(m),
        symmetric(m),
        0 <= x < m.len(),
        0 <= y < m.len(),
    ensures
        symmetric(with_weight(with_weight(m, x, y, w), y, x, w)),
        with_weight(with_weight(m, x, y, w), y, x, w)[x][y] == w,
        with_weight(with_weight(m, x, y, w), y, x, w)[y][x] == w,
{
    let r = with_weight(with_weight(m, x, y, w), y, x, w);
    assert(m[x].len() == m.len());
    assert(m[y].len() == m.len());
    assert forall|a: int, b: int| 0 <= a < r.len() && 0 <= b < r.len() implies r[a][b]
        == r[b][a] by {
        assert(m[a].len() == m.len());
        assert(m[b].len() == m.len());
        assert(m[a][b] == m[b][a]);
    }
}

/// Mutates a graph in place to its transpose: afterwards the weight from
/// `a` to `b` is what the weight from `b` to `a` was. An undirected graph
/// is left as it is.
pub fn transpose<T, D, W>(graph: &mut Graph<T, D, W>) where
    T: Hash + Eq + Clone,
    D: Clone + Orientation,
    W: Clone,

    requires
        old(graph).wf(),
    ensures
        final(graph).wf(),
        final(graph)@ == transposed(old(graph)@),
        !D::directed() ==> final(graph)@ == old(graph)@,
        final(graph).values() == old(graph).values(),
        final(graph).index() == old(graph).index(),
{
    let len = graph.nodes();
    let side = graph.cap;
    let ghost before = graph@;
    let mut y: usize = 0;
    while y < len
        invariant
            y <= len,
            len == graph.n,
            side == graph.cap,
            graph.shaped(),
            graph@.len() == before.len(),
            before.len() == len,
            graph.values() == old(graph).values(),
            graph.index() == old(graph).index(),
            forall|a: int, b: int|
                0 <= a < len && 0 <= b < len ==> graph@[a][b] == (if a < y || b < y {
                    before[b][a]
                } else {
                    before[a][b]
                }),
        decreases len - y,
    {
        let mut x: usize = y;
        while x < len
            invariant
                y < len,
                y <= x <= len,
                len == graph.n,
                side == graph.cap,
            side == graph.cap,
                graph.shaped(),
                graph@.len() == before.len(),
                before.len() == len,
                graph.values() == old(graph).values(),
                graph.index() == old(graph).index(),
                forall|a: int, b: int|
                    0 <= a < len && 0 <= b < len ==> graph@[a][b] == (if a < y || b < y || (a == y
                        && b < x) || (b == y && a < x) {
                        before[b][a]
                    } else {
                        before[a][b]
                    }),
            decreases len - x,
        {
            let idxy = GraphIdx(y);
            let idxx = GraphIdx(x);
            let a = calc_2d_to_1d(idxx, idxy, side);
            let b = calc_2d_to_1d(idxy, idxx, side);
            let ghost cur = graph@;
            let ghost mid = graph.mtx@;
            let tmp = graph.mtx[a];
            let other = graph.mtx[b];
            graph.mtx[a] = other;
            graph.mtx[b] = tmp;
            proof {
                let n = len as int;
                let cap = side as int;
                assert(graph.mtx@ == mid.update(a as int, other).update(b as int, tmp));
                assert(tmp == cur[x as int][y as int]);
                assert(other == cur[y as int][x as int]);
                assert forall|p: int, q: int| 0 <= p < n && 0 <= q < n implies graph@[p][q] == (if p
                    == x && q == y {
                    other
                } else if p == y && q == x {
                    tmp
                } else {
                    cur[p][q]
                }) by {
                    lemma_flat_bound(cap, p, q);
                    if !(p == x && q == y) {
                        lemma_flat_distinct(cap, p, q, x as int, y as int);
                    }
                    if !(p == y && q == x) {
                        lemma_flat_distinct(cap, p, q, y as int, x as int);
                    }
                    assert(graph@[p][q] == graph.mtx@[flat(cap, p, q)]);
                    assert(cur[p][q] == mid[flat(cap, p, q)]);
                }
            }
            proof {
                let cap = side as int;
                assert forall|p: int, q: int|
                    0 <= p < cap && 0 <= q < cap && (p >= len || q >= len) implies #[trigger] graph.mtx@[flat(
                    cap,
                    p,
                    q,
                )] == 0 by {
                    lemma_flat_bound(cap, p, q);
                    lemma_flat_distinct(cap, p, q, x as int, y as int);
                    lemma_flat_distinct(cap, p, q, y as int, x as int);
                    assert(mid[flat(cap, p, q)] == 0);
                }
            }
            x += 1;
        }
        y += 1;
    }
    proof {
        let t = transposed(before);
        assert forall|a: int| 0 <= a < len implies #[trigger] graph@[a] == t[a] by {
            assert(graph@[a] =~= t[a]);
        }
        assert(graph@ =~= t);
        if !D::directed() {
            lemma_transposed_symmetric(before);
        }
    }
}

impl<T, D, W> Clone for Graph<T, D, W> where T: Hash + Eq + Clone, D: Clone + Orientation, W: Clone {
    /// A graph with the same matrix, and with a clone of every value.
    fn clone(&self) -> (g: Self)
        ensures
            g@ == self@,
            g.index() == self.index(),
            g.values().len() == self.values().len(),
            forall|i: int|
                0 <= i < self.values().len() ==> cloned(self.values()[i], #[trigger] g.values()[i]),
    {
        let mtx = self.mtx.clone();
        assert(mtx@ =~= self.mtx@);
        Self {
            n: self.n,
            cap: self.cap,
            mtx,
            node_map: self.node_map.clone(),
            vals: self.vals.clone(),
            pw: PhantomData,
            pd: PhantomData,
        }
    }
}

impl<T, D, W> Default for Graph<T, D, W> where T: Hash + Eq + Clone, D: Clone + Orientation, W: Clone {
    /// A graph without nodes.
    fn default() -> (g: Self)
        ensures
            g.wf(),
            g@.len() == 0,
            g.values().len() == 0,
            g.index() == Map::<T, GraphIdx>::empty(),
    {
        Self {
            n: 0,
            cap: 0,
            mtx: Vec::new(),
            vals: Vec::new(),
            node_map: HashMap::new(),
            pw: PhantomData,
            pd: PhantomData,
        }
    }
}

/// The position of the cell in row `x` and column `y` of a matrix with
/// `len` columns.
fn calc_2d_to_1d(x: GraphIdx, y: GraphIdx, len: usize) -> (i: usize)
    requires
        x.0 < len,
        y.0 < len,
        len * len <= usize::MAX,
    ensures
        i == flat(len as int, x.0 as int, y.0 as int),
        i < len * len,
{
    proof {
        lemma_flat_bound(len as int, x.0 as int, y.0 as int);
    }
    x.0 * len + y.0
}

} // verus!

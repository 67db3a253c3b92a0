//! The square boolean matrix that a transitive closure is returned in.
use vstd::prelude::*;
use crate::reach::reachable;

verus! {

/// A matrix of booleans, one row per node: the cell in row `i` and column
/// `j` says whether node `i` reaches node `j`.
#[derive(Debug, PartialEq, Eq)]
pub struct TransitiveClosureMtx(Vec<Vec<bool>>);

/// `m` is a square matrix with `n` rows.
pub open spec fn square_of(m: Seq<Seq<bool>>, n: nat) -> bool {
    &&& m.len() == n
    &&& forall|i: int| 0 <= i < n ==> (#[trigger] m[i]).len() == n
}

/// `m` is the reachability matrix of `g`: it holds `true` in row `i` and
/// column `j` exactly where `i` reaches `j` by a walk of zero or more
/// edges.
pub open spec fn closure_of(m: Seq<Seq<bool>>, g: Seq<Set<int>>) -> bool {
    &&& square_of(m, g.len())
    &&& forall|i: int, j: int|
        0 <= i < g.len() && 0 <= j < g.len() ==> m[i][j] == reachable(g, i, j)
}

/// A graph has one reachability matrix: two ways of calculating the
/// transitive closure that both return the reachability matrix of a graph
/// return the same matrix, cell by cell.
pub proof fn lemma_closure_unique(a: Seq<Seq<bool>>, b: Seq<Seq<bool>>, g: Seq<Set<int>>)
    requires
        closure_of(a, g),
        closure_of(b, g),
    ensures
        a == b,
{
    assert forall|i: int| 0 <= i < g.len() implies #[trigger] a[i] == b[i] by {
        assert forall|j: int| 0 <= j < g.len() implies a[i][j] == b[i][j] by {
            assert(a[i][j] == reachable(g, i, j));
        }
        assert(a[i] =~= b[i]);
    }
    assert(a =~= b);
}

impl View for TransitiveClosureMtx {
    type V = Seq<Seq<bool>>;

    /// The rows of the matrix.
    closed spec fn view(&self) -> Seq<Seq<bool>> {
        Seq::new(self.0@.len(), |i: int| self.0@[i]@)
    }
}

impl TransitiveClosureMtx {
    /// Creates a square false-matrix with axis length of `len`.
    pub fn from_len(len: usize) -> (m: Self)
        ensures
            square_of(m@, len as nat),
            forall|i: int, j: int| 0 <= i < len && 0 <= j < len ==> !m@[i][j],
    {
        let mut rows: Vec<Vec<bool>> = Vec::new();
        let mut i: usize = 0;
        while i < len
            invariant
                i <= len,
                rows@.len() == i,
                forall|a: int| 0 <= a < i ==> (#[trigger] rows@[a])@.len() == len,
                forall|a: int, b: int| 0 <= a < i && 0 <= b < len ==> !rows@[a]@[b],
            decreases len - i,
        {
            let mut row: Vec<bool> = Vec::new();
            let mut j: usize = 0;
            while j < len
                invariant
                    j <= len,
                    row@.len() == j,
                    forall|b: int| 0 <= b < j ==> !row@[b],
                decreases len - j,
            {
                row.push(false);
                j += 1;
            }
            rows.push(row);
            i += 1;
        }
        Self(rows)
    }

    /// The number of rows.
    pub fn len(&self) -> (n: usize)
        ensures
            n == self@.len(),
    {
        self.0.len()
    }

    /// The row of node `index`.
    pub fn row(&self, index: usize) -> (r: &Vec<bool>)
        requires
            index < self@.len(),
        ensures
            r@ == self@[index as int],
    {
        &self.0[index]
    }

    /// The cell in row `i` and column `j`.
    pub fn get(&self, i: usize, j: usize) -> (b: bool)
        requires
            i < self@.len(),
            j < self@[i as int].len(),
        ensures
            b == self@[i as int][j as int],
    {
        self.0[i][j]
    }

    /// Sets the cell in row `i` and column `j`.
    pub fn set(&mut self, i: usize, j: usize, value: bool)
        requires
            i < old(self)@.len(),
            j < old(self)@[i as int].len(),
        ensures
            final(self)@ == old(self)@.update(i as int, old(self)@[i as int].update(j as int, value)),
    {
        let row = &mut self.0[i];
        row[j] = value;
        proof {
            let target = old(self)@.update(i as int, old(self)@[i as int].update(j as int, value));
            assert forall|a: int| 0 <= a < self@.len() implies #[trigger] self@[a] == target[a] by {
                assert(self@[a] =~= target[a]);
            }
            assert(self@ =~= target);
        }
    }
}

impl Default for TransitiveClosureMtx {
    /// The matrix without rows.
    fn default() -> (m: Self)
        ensures
            m@.len() == 0,
    {
        Self(Vec::new())
    }
}

impl vstd::std_specs::core::IndexSpecImpl<usize> for TransitiveClosureMtx {
    /// A matrix is indexed by the number of one of its rows.
    open spec fn index_req(&self, index: &usize) -> bool {
        *index < self@.len()
    }
}

impl std::ops::Index<usize> for TransitiveClosureMtx {
    type Output = Vec<bool>;

    /// The row of node `index`.
    fn index(&self, index: usize) -> (r: &Vec<bool>)
        ensures
            r@ == self@[index as int],
    {
        &self.0[index]
    }
}

impl vstd::std_specs::convert::FromSpecImpl<Vec<Vec<bool>>> for TransitiveClosureMtx {
    open spec fn obeys_from_spec() -> bool {
        true
    }

    closed spec fn from_spec(v: Vec<Vec<bool>>) -> Self {
        TransitiveClosureMtx(v)
    }
}

impl From<Vec<Vec<bool>>> for TransitiveClosureMtx {
    /// The matrix with the given rows.
    fn from(v: Vec<Vec<bool>>) -> (m: Self)
        ensures
            m@ == Seq::new(v@.len(), |i: int| v@[i]@),
    {
        Self(v)
    }
}

} // verus!

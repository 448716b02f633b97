//! The graph's edge relation: a square boolean matrix that is symmetric and
//! has no self-loops. It is fixed once built; the simulation only reads it.
use vstd::prelude::*;

verus! {

/// The matrix is square, symmetric and irreflexive.
pub open spec fn is_adjacency(m: Seq<Seq<bool>>) -> bool {
    &&& forall|i: int| 0 <= i < m.len() ==> #[trigger] m[i].len() == m.len()
    &&& forall|i: int, j: int|
        0 <= i < m.len() && 0 <= j < m.len() ==> #[trigger] m[i][j] == m[j][i]
    &&& forall|i: int| 0 <= i < m.len() ==> !#[trigger] m[i][i]
}

pub open spec fn rows_view(rows: Seq<Vec<bool>>) -> Seq<Seq<bool>> {
    rows.map_values(|r: Vec<bool>| r@)
}

pub(crate) proof fn lemma_rows_view(rows: Seq<Vec<bool>>)
    ensures
        rows_view(rows).len() == rows.len(),
        forall|i: int| 0 <= i < rows.len() ==> rows_view(rows)[i] == (#[trigger] rows[i])@,
{
}

/// The undirected edges among the nodes `0..n`, as an adjacency matrix.
pub struct Topology {
    rows: Vec<Vec<bool>>,
}

impl View for Topology {
    type V = Seq<Seq<bool>>;

    closed spec fn view(&self) -> Seq<Seq<bool>> {
        rows_view(self.rows@)
    }
}

impl Topology {
    pub open spec fn wf(&self) -> bool {
        is_adjacency(self@)
    }

    /// The graph with no nodes.
    pub fn empty() -> (r: Topology)
        ensures
            r.wf(),
            r@.len() == 0,
    {
        let r = Topology { rows: Vec::new() };
        assert(r@ =~= Seq::<Seq<bool>>::empty());
        r
    }

    /// Accepts a matrix that is square, symmetric and irreflexive, and
    /// refuses any other.
    pub fn from_matrix(rows: Vec<Vec<bool>>) -> (r: Option<Topology>)
        ensures
            r is Some <==> is_adjacency(rows_view(rows@)),
            r is Some ==> r->Some_0@ == rows_view(rows@) && r->Some_0.wf(),
    {
        let n = rows.len();
        let ghost m = rows_view(rows@);
        proof {
            lemma_rows_view(rows@);
        }
        let mut i: usize = 0;
        while i < n
            invariant
                n == rows@.len(),
                m == rows_view(rows@),
                i <= n,
                forall|a: int| 0 <= a < i ==> #[trigger] m[a].len() == n,
            decreases n - i,
        {
            proof {
                lemma_rows_view(rows@);
            }
            if rows[i].len() != n {
                assert(m[i as int].len() != m.len());
                return None;
            }
            i = i + 1;
        }
        let mut i: usize = 0;
        while i < n
            invariant
                n == rows@.len(),
                m == rows_view(rows@),
                i <= n,
                forall|a: int| 0 <= a < n ==> #[trigger] m[a].len() == n,
                forall|a: int, b: int| 0 <= a < i && 0 <= b < n ==> #[trigger] m[a][b] == m[b][a],
                forall|a: int| 0 <= a < i ==> !#[trigger] m[a][a],
            decreases n - i,
        {
            proof {
                lemma_rows_view(rows@);
            }
            if rows[i][i] {
                assert(m[i as int][i as int]);
                return None;
            }
            let mut j: usize = 0;
            while j < n
                invariant
                    n == rows@.len(),
                    m == rows_view(rows@),
                    i < n,
                    j <= n,
                    forall|a: int| 0 <= a < n ==> #[trigger] m[a].len() == n,
                    forall|b: int| 0 <= b < j ==> #[trigger] m[i as int][b] == m[b][i as int],
                decreases n - j,
            {
                proof {
                    lemma_rows_view(rows@);
                }
                if rows[i][j] != rows[j][i] {
                    assert(m[i as int][j as int] != m[j as int][i as int]);
                    return None;
                }
                j = j + 1;
            }
            i = i + 1;
        }
        Some(Topology { rows })
    }

    pub(crate) fn from_rows(rows: Vec<Vec<bool>>) -> (r: Topology)
        requires
            is_adjacency(rows_view(rows@)),
        ensures
            r@ == rows_view(rows@),
            r.wf(),
    {
        Topology { rows }
    }

    /// The number of nodes.
    pub fn node_count(&self) -> (r: usize)
        ensures
            r == self@.len(),
    {
        proof {
            lemma_rows_view(self.rows@);
        }
        self.rows.len()
    }

    /// Whether nodes `i` and `j` are joined by an edge.
    pub fn has_edge(&self, i: usize, j: usize) -> (r: bool)
        requires
            self.wf(),
            i < self@.len(),
            j < self@.len(),
        ensures
            r == self@[i as int][j as int],
    {
        proof {
            lemma_rows_view(self.rows@);
        }
        self.rows[i][j]
    }

    /// The nodes joined to `i`, in increasing order.
    pub fn neighbors(&self, i: usize) -> (r: Vec<usize>)
        requires
            self.wf(),
            i < self@.len(),
        ensures
            forall|k: int| 0 <= k < r@.len() ==> #[trigger] r@[k] < self@.len(),
            forall|k: int| 0 <= k < r@.len() ==> self@[i as int][#[trigger] r@[k] as int],
            forall|k: int, l: int| 0 <= k < l < r@.len() ==> r@[k] < r@[l],
            forall|j: int|
                0 <= j < self@.len() && #[trigger] self@[i as int][j] ==> r@.contains(j as usize),
    {
        proof {
            lemma_rows_view(self.rows@);
        }
        let n = self.rows.len();
        let mut r: Vec<usize> = Vec::new();
        let mut j: usize = 0;
        while j < n
            invariant
                self.wf(),
                n == self@.len(),
                i < n,
                j <= n,
                forall|k: int| 0 <= k < r@.len() ==> #[trigger] r@[k] < j,
                forall|k: int| 0 <= k < r@.len() ==> self@[i as int][#[trigger] r@[k] as int],
                forall|k: int, l: int| 0 <= k < l < r@.len() ==> r@[k] < r@[l],
                forall|b: int| 0 <= b < j && #[trigger] self@[i as int][b] ==> r@.contains(b as usize),
            decreases n - j,
        {
            proof {
                lemma_rows_view(self.rows@);
            }
            if self.rows[i][j] {
                let ghost prev = r@;
                r.push(j);
                proof {
                    assert forall|b: int|
                        0 <= b <= j && #[trigger] self@[i as int][b] implies r@.contains(
                        b as usize,
                    ) by {
                        if b < j {
                            let k = choose|k: int| 0 <= k < prev.len() && prev[k] == b as usize;
                            assert(r@[k] == b as usize);
                        } else {
                            assert(r@[r@.len() - 1] == j);
                        }
                    }
                }
            }
            j = j + 1;
        }
        r
    }

    /// Edges join distinct nodes, in both directions alike.
    pub proof fn lemma_symmetric_irreflexive(&self, i: int, j: int)
        requires
            self.wf(),
            0 <= i < self@.len(),
            0 <= j < self@.len(),
        ensures
            self@[i][j] == self@[j][i],
            !self@[i][i],
    {
        assert(self@[i][j] == self@[j][i]);
        assert(!self@[i][i]);
    }
}

} // verus!

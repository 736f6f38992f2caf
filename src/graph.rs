//! A symmetric weighted adjacency matrix stored flat, row by row.
use vstd::prelude::*;
use vstd::arithmetic::div_mod::lemma_fundamental_div_mod_converse;
use vstd::set_lib::{lemma_int_range, lemma_set_subset_finite, set_int_range};

verus! {

/// The weight that stands for 1.0, the strongest relationship.
pub const FULL_WEIGHT: u32 = 1_000_000;

/// Row-major addressing is one-to-one on the `n` by `n` grid.
proof fn lemma_cell_index(n: int, r1: int, c1: int, r2: int, c2: int)
    requires
        0 <= r1 < n,
        0 <= c1 < n,
        0 <= r2 < n,
        0 <= c2 < n,
    ensures
        0 <= r1 * n + c1 < n * n,
        r1 * n + c1 == r2 * n + c2 ==> r1 == r2 && c1 == c2,
{
    assert(0 <= r1 * n + c1 < n * n) by (nonlinear_arith)
        requires
            0 <= r1 < n,
            0 <= c1 < n,
    ;
    if r1 < r2 {
        assert(r1 * n + c1 < r2 * n + c2) by (nonlinear_arith)
            requires
                r1 < r2,
                0 <= c1 < n,
                0 <= c2,
        ;
    } else if r2 < r1 {
        assert(r2 * n + c2 < r1 * n + c1) by (nonlinear_arith)
            requires
                r2 < r1,
                0 <= c2 < n,
                0 <= c1,
        ;
    }
}

/// An `n` by `n` matrix of weights in `[0, FULL_WEIGHT]`, symmetric, with a
/// zero diagonal.
pub struct WeightedGraph {
    size: usize,
    data: Vec<u32>,
}

impl WeightedGraph {
    /// The number of nodes.
    pub closed spec fn dim(&self) -> nat {
        self.size as nat
    }

    /// The weight of the edge between `i` and `j`.
    pub closed spec fn weight(&self, i: int, j: int) -> int {
        self.data@[i * self.size + j] as int
    }

    /// The flat storage holds exactly one cell per pair of nodes.
    pub closed spec fn storage_ok(&self) -> bool {
        &&& self.data@.len() == self.size * self.size
        &&& self.size * self.size <= usize::MAX
    }

    /// The weight from `i` to `j` equals the weight from `j` to `i`.
    pub open spec fn symmetric(&self) -> bool {
        forall|i: int, j: int|
            0 <= i < self.dim() && 0 <= j < self.dim() ==> #[trigger] self.weight(i, j)
                == self.weight(j, i)
    }

    /// No node has an edge to itself.
    pub open spec fn loop_free(&self) -> bool {
        forall|i: int| 0 <= i < self.dim() ==> #[trigger] self.weight(i, i) == 0
    }

    /// Every weight lies in `[0, FULL_WEIGHT]`.
    pub open spec fn bounded(&self) -> bool {
        forall|i: int, j: int|
            0 <= i < self.dim() && 0 <= j < self.dim() ==> 0 <= #[trigger] self.weight(i, j)
                <= FULL_WEIGHT
    }

    pub open spec fn wf(&self) -> bool {
        &&& self.storage_ok()
        &&& self.symmetric()
        &&& self.loop_free()
        &&& self.bounded()
    }

    /// `self` and `other` hold the same weights on the same nodes.
    pub open spec fn same_weights(&self, other: &WeightedGraph) -> bool {
        &&& self.dim() == other.dim()
        &&& forall|i: int, j: int|
            0 <= i < self.dim() && 0 <= j < self.dim() ==> #[trigger] self.weight(i, j)
                == other.weight(i, j)
    }

    /// The edges, each unordered pair once, as (higher node, lower node).
    pub open spec fn edges(&self) -> Set<(int, int)> {
        Set::new(|e: (int, int)| 0 <= e.1 < e.0 < self.dim() && self.weight(e.0, e.1) != 0)
    }

    /// The number of edges.
    pub open spec fn edge_count(&self) -> nat {
        self.edges().len()
    }

    /// The edges lie in the finite grid of node pairs.
    pub proof fn lemma_edges_finite(&self)
        ensures
            self.edges().finite(),
    {
        let n = self.dim() as int;
        assert(0 <= n * n) by (nonlinear_arith);
        lemma_int_range(0, n * n);
        let codes = set_int_range(0, n * n);
        let decode = |p: int| (p / n, p % n);
        codes.lemma_map_finite(decode);
        assert forall|e: (int, int)| self.edges().contains(e) implies codes.map(decode).contains(
            e,
        ) by {
            let p = e.0 * n + e.1;
            lemma_fundamental_div_mod_converse(p, n, e.0, e.1);
            lemma_cell_index(n, e.0, e.1, e.0, e.1);
            assert(codes.contains(p) && decode(p) == e);
        }
        lemma_set_subset_finite(codes.map(decode), self.edges());
    }

    /// A graph of `size` nodes without edges.
    pub fn new(size: usize) -> (g: Self)
        requires
            size * size <= usize::MAX,
        ensures
            g.wf(),
            g.dim() == size,
            forall|i: int, j: int| 0 <= i < size && 0 <= j < size ==> #[trigger] g.weight(i, j) == 0,
    {
        let cells: usize = size * size;
        let mut data: Vec<u32> = Vec::new();
        while data.len() < cells
            invariant
                data.len() <= cells,
                forall|p: int| 0 <= p < data.len() ==> data@[p] == 0,
            decreases cells - data.len(),
        {
            data.push(0);
        }
        let g = WeightedGraph { size, data };
        assert forall|i: int, j: int| 0 <= i < size && 0 <= j < size implies g.weight(i, j) == 0 by {
            lemma_cell_index(size as int, i, j, i, j);
        }
        g
    }

    pub fn size(&self) -> (r: usize)
        ensures
            r == self.dim(),
    {
        self.size
    }

    fn index_for(&self, row: usize, col: usize) -> (r: usize)
        requires
            self.storage_ok(),
            row < self.dim(),
            col < self.dim(),
        ensures
            r == row * self.dim() + col,
            r < self.data@.len(),
    {
        proof {
            lemma_cell_index(self.size as int, row as int, col as int, row as int, col as int);
            assert(0 <= row * self.size <= row * self.size + col) by (nonlinear_arith)
                requires
                    0 <= row,
                    0 <= col,
                    0 <= self.size,
            ;
        }
        row * self.size + col
    }

    /// The weight between `row` and `col`.
    pub fn get(&self, row: usize, col: usize) -> (r: u32)
        requires
            self.wf(),
            row < self.dim(),
            col < self.dim(),
        ensures
            r == self.weight(row as int, col as int),
    {
        let index = self.index_for(row, col);
        self.data[index]
    }

    /// Sets the weight between `row` and `col`, in both directions at once.
    pub fn put(&mut self, row: usize, col: usize, value: u32)
        requires
            old(self).wf(),
            row < old(self).dim(),
            col < old(self).dim(),
            row != col,
            value <= FULL_WEIGHT,
        ensures
            final(self).wf(),
            final(self).dim() == old(self).dim(),
            final(self).weight(row as int, col as int) == value,
            final(self).weight(col as int, row as int) == value,
            forall|i: int, j: int|
                0 <= i < old(self).dim() && 0 <= j < old(self).dim() && !(i == row && j == col)
                    && !(i == col && j == row) ==> #[trigger] final(self).weight(i, j)
                    == old(self).weight(i, j),
    {
        let ghost before = *self;
        let index = self.index_for(row, col);
        self.data.set(index, value);
        let index2 = self.index_for(col, row);
        self.data.set(index2, value);
        let ghost n = self.size as int;
        assert forall|i: int, j: int| 0 <= i < n && 0 <= j < n implies #[trigger] self.weight(i, j)
            == if (i == row && j == col) || (i == col && j == row) {
            value as int
        } else {
            before.weight(i, j)
        } by {
            lemma_cell_index(n, i, j, row as int, col as int);
            lemma_cell_index(n, i, j, col as int, row as int);
        }
        assert forall|i: int, j: int| 0 <= i < n && 0 <= j < n implies #[trigger] self.weight(i, j)
            == self.weight(j, i) by {
            assert(self.weight(i, j) == self.weight(i, j));
            assert(self.weight(j, i) == self.weight(j, i));
            assert(before.weight(i, j) == before.weight(j, i));
        }
        assert forall|i: int| 0 <= i < n implies #[trigger] self.weight(i, i) == 0 by {
            assert(self.weight(i, i) == self.weight(i, i));
            assert(before.weight(i, i) == 0);
        }
    }
}

} // verus!

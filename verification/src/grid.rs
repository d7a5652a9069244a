//! A dense two-dimensional table stored row-major in a single vector, with
//! bounds-checked accessors. The dynamic program keeps its two tables in
//! these, so no raw offset arithmetic leaks into the algorithm itself.

use vstd::pervasive::VecAdditionalExecFns;
use vstd::prelude::*;

verus! {

/// A `rows` by `cols` matrix of copyable cells.
pub struct Grid<T> {
    rows: usize,
    cols: usize,
    cells: Vec<T>,
}

/// The row-major cell index is inside the table, and the table is small.
pub proof fn lemma_grid_index(r: int, c: int, rows: int, cols: int)
    requires
        0 <= r < rows,
        0 <= c < cols,
        rows <= 1000,
        cols <= 1000,
    ensures
        0 <= r * cols + c < rows * cols,
        rows * cols <= 1000000,
{
    assert(0 <= r * cols + c < rows * cols && rows * cols <= 1000000) by (nonlinear_arith)
        requires
            0 <= r < rows,
            0 <= c < cols,
            rows <= 1000,
            cols <= 1000,
    ;
}

/// Distinct cell coordinates give distinct row-major indices.
pub proof fn lemma_grid_index_injective(r1: int, c1: int, r2: int, c2: int, cols: int)
    requires
        0 <= c1 < cols,
        0 <= c2 < cols,
        0 <= r1,
        0 <= r2,
        r1 * cols + c1 == r2 * cols + c2,
    ensures
        r1 == r2 && c1 == c2,
{
    assert(r1 == r2 && c1 == c2) by (nonlinear_arith)
        requires
            0 <= c1 < cols,
            0 <= c2 < cols,
            0 <= r1,
            0 <= r2,
            r1 * cols + c1 == r2 * cols + c2,
    ;
}

impl<T: Copy> Grid<T> {
    /// Well-formed: the backing vector holds exactly one cell per coordinate,
    /// and both dimensions are small.
    pub closed spec fn wf(self) -> bool {
        &&& self.cells@.len() == self.rows * self.cols
        &&& self.rows <= 1000
        &&& self.cols <= 1000
    }

    pub closed spec fn rows_spec(self) -> int {
        self.rows as int
    }

    pub closed spec fn cols_spec(self) -> int {
        self.cols as int
    }

    /// The cell at row `r`, column `c`.
    pub closed spec fn at(self, r: int, c: int) -> T {
        self.cells@[r * (self.cols as int) + c]
    }

    /// A fresh table with every cell set to `fill`.
    pub fn new(rows: usize, cols: usize, fill: T) -> (g: Grid<T>)
        requires
            1 <= rows <= 1000,
            1 <= cols <= 1000,
        ensures
            g.wf(),
            g.rows_spec() == rows,
            g.cols_spec() == cols,
            forall|r: int, c: int|
                0 <= r < rows && 0 <= c < cols ==> #[trigger] g.at(r, c) == fill,
    {
        proof {
            lemma_grid_index(rows - 1, cols - 1, rows as int, cols as int);
        }
        let total: usize = rows * cols;
        let mut cells: Vec<T> = Vec::new();
        while cells.len() < total
            invariant
                cells@.len() <= total,
                forall|t: int| 0 <= t < cells@.len() ==> #[trigger] cells@[t] == fill,
            decreases total - cells@.len(),
        {
            cells.push(fill);
        }
        let g = Grid { rows, cols, cells };
        proof {
            assert forall|r: int, c: int|
                0 <= r < rows && 0 <= c < cols implies #[trigger] g.at(r, c) == fill by {
                lemma_grid_index(r, c, rows as int, cols as int);
            }
        }
        g
    }

    /// Read the cell at `(r, c)`.
    pub fn get(&self, r: usize, c: usize) -> (v: T)
        requires
            self.wf(),
            r < self.rows_spec(),
            c < self.cols_spec(),
        ensures
            v == self.at(r as int, c as int),
    {
        proof {
            lemma_grid_index(r as int, c as int, self.rows as int, self.cols as int);
        }
        let idx: usize = r * self.cols + c;
        self.cells[idx]
    }

    /// Write `v` to the cell at `(r, c)`, leaving every other cell unchanged.
    pub fn set(&mut self, r: usize, c: usize, v: T)
        requires
            old(self).wf(),
            r < old(self).rows_spec(),
            c < old(self).cols_spec(),
        ensures
            final(self).wf(),
            final(self).rows_spec() == old(self).rows_spec(),
            final(self).cols_spec() == old(self).cols_spec(),
            final(self).at(r as int, c as int) == v,
            forall|r2: int, c2: int|
                0 <= r2 < old(self).rows_spec() && 0 <= c2 < old(self).cols_spec() && !(r2 == r
                    && c2 == c) ==> #[trigger] final(self).at(r2, c2) == old(self).at(r2, c2),
    {
        proof {
            lemma_grid_index(r as int, c as int, self.rows as int, self.cols as int);
        }
        let idx: usize = r * self.cols + c;
        self.cells.set(idx, v);
        proof {
            assert forall|r2: int, c2: int|
                0 <= r2 < old(self).rows_spec() && 0 <= c2 < old(self).cols_spec() && !(r2 == r
                    && c2 == c) implies #[trigger] self.at(r2, c2) == old(self).at(r2, c2) by {
                lemma_grid_index(r2, c2, self.rows as int, self.cols as int);
                if r2 * (self.cols as int) + c2 == r as int * (self.cols as int) + c as int {
                    lemma_grid_index_injective(
                        r2,
                        c2,
                        r as int,
                        c as int,
                        self.cols as int,
                    );
                }
            }
        }
    }
}

} // verus!

use vstd::prelude::*;

verus! {

/// A dense, row-major table of `i64` cells with fixed dimensions.
pub struct Array2D {
    arr: Vec<i64>,
    rows: usize,
    cols: usize,
}

proof fn lemma_cell_in_bounds(r: int, c: int, rows: int, cols: int)
    requires
        0 <= r < rows,
        0 <= c < cols,
    ensures
        0 <= r * cols + c < rows * cols,
{
    assert(r * cols + c < rows * cols) by (nonlinear_arith)
        requires
            0 <= r < rows,
            0 <= c < cols,
    ;
    assert(0 <= r * cols) by (nonlinear_arith)
        requires
            0 <= r,
            0 <= c < cols,
    ;
}

proof fn lemma_cell_distinct(r: int, c: int, p: int, q: int, cols: int)
    requires
        0 <= r,
        0 <= p,
        0 <= c < cols,
        0 <= q < cols,
        r != p || c != q,
    ensures
        r * cols + c != p * cols + q,
{
    if r == p {
    } else if r < p {
        assert(r * cols + c < p * cols + q) by (nonlinear_arith)
            requires
                0 <= r < p,
                0 <= c < cols,
                0 <= q,
        ;
    } else {
        assert(p * cols + q < r * cols + c) by (nonlinear_arith)
            requires
                0 <= p < r,
                0 <= q < cols,
                0 <= c,
        ;
    }
}

impl Array2D {
    pub closed spec fn rows(&self) -> nat {
        self.rows as nat
    }

    pub closed spec fn cols(&self) -> nat {
        self.cols as nat
    }

    /// The value at row `r`, column `c`.
    pub closed spec fn cell(&self, r: int, c: int) -> i64 {
        self.arr@[r * self.cols + c]
    }

    pub closed spec fn wf(&self) -> bool {
        &&& self.arr@.len() == self.rows * self.cols
        &&& self.rows * self.cols <= usize::MAX
    }

    /// A `rows` by `columns` table with every cell zero.
    pub fn new(rows: usize, columns: usize) -> (r: Array2D)
        requires
            rows * columns <= usize::MAX,
        ensures
            r.wf(),
            r.rows() == rows,
            r.cols() == columns,
            forall|i: int, j: int|
                0 <= i < rows && 0 <= j < columns ==> #[trigger] r.cell(i, j) == 0,
    {
        let n: usize = rows * columns;
        let mut arr: Vec<i64> = Vec::with_capacity(n);
        while arr.len() < n
            invariant
                arr.len() <= n,
                forall|k: int| 0 <= k < arr.len() ==> arr@[k] == 0,
            decreases n - arr.len(),
        {
            arr.push(0);
        }
        let r = Array2D { arr, rows, cols: columns };
        assert forall|i: int, j: int| 0 <= i < rows && 0 <= j < columns implies #[trigger] r.cell(
            i,
            j,
        ) == 0 by {
            lemma_cell_in_bounds(i, j, rows as int, columns as int);
        }
        r
    }

    /// The value at row `r`, column `c`.
    pub fn get(&self, r: usize, c: usize) -> (v: i64)
        requires
            self.wf(),
            r < self.rows(),
            c < self.cols(),
        ensures
            v == self.cell(r as int, c as int),
    {
        proof {
            lemma_cell_in_bounds(r as int, c as int, self.rows as int, self.cols as int);
        }
        self.arr[r * self.cols + c]
    }

    /// Stores `v` at row `r`, column `c`, leaving every other cell as it was.
    pub fn set(&mut self, r: usize, c: usize, v: i64)
        requires
            old(self).wf(),
            r < old(self).rows(),
            c < old(self).cols(),
        ensures
            final(self).wf(),
            final(self).rows() == old(self).rows(),
            final(self).cols() == old(self).cols(),
            forall|i: int, j: int|
                0 <= i < old(self).rows() && 0 <= j < old(self).cols() ==> #[trigger] final(self).cell(i, j) == if i == r && j == c {
                    v
                } else {
                    old(self).cell(i, j)
                },
    {
        proof {
            lemma_cell_in_bounds(r as int, c as int, self.rows as int, self.cols as int);
        }
        let idx = r * self.cols + c;
        self.arr.set(idx, v);
        proof {
            assert forall|i: int, j: int|
                0 <= i < old(self).rows() && 0 <= j < old(self).cols() && !(i == r && j
                    == c) implies #[trigger] self.cell(i, j) == old(self).cell(i, j) by {
                lemma_cell_distinct(i, j, r as int, c as int, self.cols as int);
                lemma_cell_in_bounds(i, j, self.rows as int, self.cols as int);
            }
        }
    }
}

} // verus!

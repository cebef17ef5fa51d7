//! A two-dimensional matrix whose shape is fixed when it is built.
use vstd::prelude::*;
use crate::sums::{sum, lemma_sum_take_next, lemma_sum_bounds};

verus! {

/// Why a matrix could not be built from rows.
#[derive(Debug, Clone, Copy, PartialEq, Eq)]
pub enum MatrixError {
    /// The source has the wrong number of rows (or a row the wrong number
    /// of columns): what was expected and what was found.
    DimensionMismatch { expected: usize, actual: usize },
}

/// A `rows x cols` matrix, stored row after row.
#[derive(Debug, Clone)]
pub struct Matrix<T> {
    pub(crate) rows: usize,
    pub(crate) cols: usize,
    pub(crate) data: Vec<T>,
}

/// The entries of row `r` of an integer matrix.
pub open spec fn row_of(m: Seq<Seq<u64>>, r: int) -> Seq<int> {
    Seq::new(m[r].len(), |c: int| m[r][c] as int)
}

/// The entries of column `c` of an integer matrix.
pub open spec fn column_of(m: Seq<Seq<u64>>, c: int) -> Seq<int> {
    Seq::new(m.len(), |r: int| m[r][c] as int)
}

/// `r * cols + c` addresses a cell inside the storage, and a different cell
/// for each pair.
pub proof fn lemma_cell(r: int, c: int, rows: int, cols: int)
    requires
        0 <= r < rows,
        0 <= c < cols,
    ensures
        0 <= r * cols <= r * cols + c < rows * cols,
        forall|r2: int, c2: int|
            0 <= r2 < rows && 0 <= c2 < cols && #[trigger] (r2 * cols + c2) == r * cols + c
                ==> r2 == r && c2 == c,
{
    assert(0 <= r * cols <= r * cols + c < rows * cols) by (nonlinear_arith)
        requires 0 <= r < rows, 0 <= c < cols;
    assert forall|r2: int, c2: int|
        0 <= r2 < rows && 0 <= c2 < cols && #[trigger] (r2 * cols + c2) == r * cols + c
            implies r2 == r && c2 == c by {
        if r2 < r {
            assert(r2 * cols + c2 < r * cols) by (nonlinear_arith)
                requires r2 < r, 0 <= c2 < cols;
        } else if r2 > r {
            assert(r * cols + c < r2 * cols) by (nonlinear_arith)
                requires r < r2, 0 <= c < cols;
        }
    }
}

impl<T> View for Matrix<T> {
    type V = Seq<Seq<T>>;

    open(crate) spec fn view(&self) -> Seq<Seq<T>> {
        Seq::new(
            self.rows as nat,
            |r: int| Seq::new(self.cols as nat, |c: int| self.data@[r * self.cols + c]),
        )
    }
}

impl<T: Copy> Matrix<T> {
    /// The storage holds exactly `rows * cols` cells.
    pub open(crate) spec fn wf(&self) -> bool {
        self.data@.len() == self.rows * self.cols && self.rows * self.cols <= usize::MAX
    }

    /// The number of rows, as a specification value.
    pub open(crate) spec fn num_rows(&self) -> nat {
        self.rows as nat
    }

    /// The number of columns, as a specification value.
    pub open(crate) spec fn num_cols(&self) -> nat {
        self.cols as nat
    }

    /// A `rows x cols` matrix with every cell set to `fill`.
    pub fn new(rows: usize, cols: usize, fill: T) -> (m: Matrix<T>)
        requires
            rows * cols <= usize::MAX,
        ensures
            m.wf(),
            m.num_rows() == rows,
            m.num_cols() == cols,
            forall|r: int, c: int| 0 <= r < rows && 0 <= c < cols ==> #[trigger] m@[r][c] == fill,
    {
        let n: usize = rows * cols;
        let mut data: Vec<T> = Vec::new();
        let mut i: usize = 0;
        while i < n
            invariant
                i <= n,
                data@.len() == i,
                forall|j: int| 0 <= j < i ==> #[trigger] data@[j] == fill,
            decreases n - i,
        {
            data.push(fill);
            i += 1;
        }
        let m = Matrix { rows, cols, data };
        proof {
            assert forall|r: int, c: int| 0 <= r < rows && 0 <= c < cols implies #[trigger] m@[r][c]
                == fill by {
                lemma_cell(r, c, rows as int, cols as int);
            }
        }
        m
    }

    /// Builds a matrix from its rows; the source must have `rows` rows of
    /// `cols` entries each.
    pub fn from_rows(source: Vec<Vec<T>>, rows: usize, cols: usize) -> (res: Result<
        Matrix<T>,
        MatrixError,
    >)
        ensures
            source@.len() != rows ==> res == Err::<Matrix<T>, MatrixError>(
                MatrixError::DimensionMismatch { expected: rows, actual: source@.len() as usize },
            ),
            source@.len() == rows && (forall|r: int| 0 <= r < rows ==> (#[trigger] source@[r])@.len()
                == cols) ==> res is Ok,
            res is Ok ==> source@.len() == rows,
            match res {
                Ok(m) => m.wf() && m.num_rows() == rows && m.num_cols() == cols && forall|
                    r: int,
                    c: int,
                | 0 <= r < rows && 0 <= c < cols ==> #[trigger] m@[r][c] == source@[r]@[c],
                Err(MatrixError::DimensionMismatch { expected, actual }) => source@.len() == rows
                    ==> expected == cols && exists|r: int|
                    0 <= r < rows && (#[trigger] source@[r])@.len() != cols && actual
                        == source@[r]@.len(),
            },
    {
        if source.len() != rows {
            return Err(MatrixError::DimensionMismatch { expected: rows, actual: source.len() });
        }
        let mut data: Vec<T> = Vec::new();
        let mut r: usize = 0;
        while r < rows
            invariant
                r <= rows,
                source@.len() == rows,
                forall|q: int| 0 <= q < r ==> (#[trigger] source@[q])@.len() == cols,
                data@.len() == r * cols,
                forall|q: int, c: int|
                    0 <= q < r && 0 <= c < cols ==> data@[#[trigger] (q * cols + c)]
                        == source@[q]@[c],
            decreases rows - r,
        {
            let row = &source[r];
            if row.len() != cols {
                return Err(MatrixError::DimensionMismatch { expected: cols, actual: row.len() });
            }
            let ghost before = data@;
            let mut c: usize = 0;
            while c < cols
                invariant
                    c <= cols,
                    r < rows,
                    row@ == source@[r as int]@,
                    row@.len() == cols,
                    data@.len() == r * cols + c,
                    data@.take(r * cols) == before.take(r * cols),
                    before.len() == r * cols,
                    forall|j: int| 0 <= j < c ==> data@[r * cols + j] == row@[j],
                decreases cols - c,
            {
                data.push(row[c]);
                c += 1;
            }
            proof {
                assert((r + 1) * cols == r * cols + cols) by (nonlinear_arith);
                assert forall|q: int, c2: int|
                    0 <= q < r + 1 && 0 <= c2 < cols implies data@[#[trigger] (q * cols + c2)]
                    == source@[q]@[c2] by {
                    if q < r {
                        assert(q * cols + c2 < r * cols) by (nonlinear_arith)
                            requires q < r, 0 <= c2 < cols;
                        assert(data@.take(r * cols)[q * cols + c2] == before.take(r * cols)[q
                            * cols + c2]);
                    } else {
                        assert(q * cols + c2 == r * cols + c2);
                    }
                }
            }
            r += 1;
        }
        let stored: usize = data.len();
        let m = Matrix { rows, cols, data };
        proof {
            assert(stored == rows * cols);
            assert forall|q: int, c: int| 0 <= q < rows && 0 <= c < cols implies #[trigger] m@[q][c]
                == source@[q]@[c] by {
                lemma_cell(q, c, rows as int, cols as int);
            }
        }
        Ok(m)
    }

    /// A copy of the matrix, cell for cell.
    pub fn duplicate(&self) -> (d: Matrix<T>)
        requires
            self.wf(),
        ensures
            d.wf(),
            d.num_rows() == self.num_rows(),
            d.num_cols() == self.num_cols(),
            d@ == self@,
    {
        let mut data: Vec<T> = Vec::new();
        let mut i: usize = 0;
        while i < self.data.len()
            invariant
                i <= self.data@.len(),
                data@ == self.data@.take(i as int),
            decreases self.data@.len() - i,
        {
            data.push(self.data[i]);
            i += 1;
            proof {
                assert(data@ =~= self.data@.take(i as int));
            }
        }
        proof {
            assert(self.data@.take(i as int) =~= self.data@);
        }
        Matrix { rows: self.rows, cols: self.cols, data }
    }

    /// The number of rows.
    pub fn rows(&self) -> (r: usize)
        ensures
            r == self.num_rows(),
    {
        self.rows
    }

    /// The number of columns.
    pub fn cols(&self) -> (c: usize)
        ensures
            c == self.num_cols(),
    {
        self.cols
    }

    /// The cell at `(row, col)`.
    pub fn get(&self, row: usize, col: usize) -> (v: T)
        requires
            self.wf(),
            row < self.num_rows(),
            col < self.num_cols(),
        ensures
            v == self@[row as int][col as int],
    {
        proof {
            lemma_cell(row as int, col as int, self.rows as int, self.cols as int);
        }
        self.data[row * self.cols + col]
    }

    /// Sets the cell at `(row, col)` to `value`, leaving the others.
    pub fn set(&mut self, row: usize, col: usize, value: T)
        requires
            old(self).wf(),
            row < old(self).num_rows(),
            col < old(self).num_cols(),
        ensures
            final(self).wf(),
            final(self).num_rows() == old(self).num_rows(),
            final(self).num_cols() == old(self).num_cols(),
            final(self)@ == old(self)@.update(row as int, old(self)@[row as int].update(col as int, value)),
    {
        proof {
            lemma_cell(row as int, col as int, self.rows as int, self.cols as int);
        }
        let i = row * self.cols + col;
        self.data.set(i, value);
        proof {
            let o = old(self)@.update(row as int, old(self)@[row as int].update(col as int, value));
            assert forall|r: int| 0 <= r < self.rows implies #[trigger] self@[r] =~= o[r] by {
                assert forall|c: int| 0 <= c < self.cols implies #[trigger] self@[r][c] == o[r][c] by {
                    lemma_cell(r, c, self.rows as int, self.cols as int);
                }
            }
            assert(self@ =~= o);
        }
    }

    /// The matrix with rows and columns swapped.
    pub fn transpose(self) -> (t: Matrix<T>)
        requires
            self.wf(),
        ensures
            t.wf(),
            t.num_rows() == self.num_cols(),
            t.num_cols() == self.num_rows(),
            forall|r: int, c: int|
                0 <= r < self.num_cols() && 0 <= c < self.num_rows() ==> #[trigger] t@[r][c]
                    == self@[c][r],
    {
        let rows = self.cols;
        let cols = self.rows;
        let mut data: Vec<T> = Vec::new();
        let mut r: usize = 0;
        while r < rows
            invariant
                self.wf(),
                rows == self.cols,
                cols == self.rows,
                r <= rows,
                data@.len() == r * cols,
                forall|q: int, c: int|
                    0 <= q < r && 0 <= c < cols ==> data@[#[trigger] (q * cols + c)] == self@[c][q],
            decreases rows - r,
        {
            let ghost before = data@;
            let mut c: usize = 0;
            while c < cols
                invariant
                    self.wf(),
                    rows == self.cols,
                    cols == self.rows,
                    c <= cols,
                    r < rows,
                    data@.len() == r * cols + c,
                    data@.take(r * cols) == before.take(r * cols),
                    before.len() == r * cols,
                    forall|j: int| 0 <= j < c ==> data@[r * cols + j] == self@[j][r as int],
                decreases cols - c,
            {
                let v = self.get(c, r);
                data.push(v);
                c += 1;
            }
            proof {
                assert((r + 1) * cols == r * cols + cols) by (nonlinear_arith);
                assert forall|q: int, c2: int|
                    0 <= q < r + 1 && 0 <= c2 < cols implies data@[#[trigger] (q * cols + c2)]
                    == self@[c2][q] by {
                    if q < r {
                        assert(q * cols + c2 < r * cols) by (nonlinear_arith)
                            requires q < r, 0 <= c2 < cols;
                        assert(data@.take(r * cols)[q * cols + c2] == before.take(r * cols)[q
                            * cols + c2]);
                    } else {
                        assert(q * cols + c2 == r * cols + c2);
                    }
                }
            }
            r += 1;
        }
        let stored: usize = data.len();
        let t = Matrix { rows, cols, data };
        proof {
            assert(stored == rows * cols);
        }
        proof {
            assert forall|q: int, c: int| 0 <= q < rows && 0 <= c < cols implies #[trigger] t@[q][c]
                == self@[c][q] by {
                lemma_cell(q, c, rows as int, cols as int);
            }
        }
        t
    }
}

impl Matrix<u64> {
    /// The sum of the entries of one row.
    pub fn row_sum(&self, row: usize) -> (s: u128)
        requires
            self.wf(),
            row < self.num_rows(),
        ensures
            s == sum(row_of(self@, row as int)),
    {
        let ghost entries = row_of(self@, row as int);
        let mut acc: u128 = 0;
        let mut c: usize = 0;
        while c < self.cols
            invariant
                self.wf(),
                row < self.num_rows(),
                entries == row_of(self@, row as int),
                entries.len() == self.cols,
                c <= self.cols,
                acc == sum(entries.take(c as int)),
            decreases self.cols - c,
        {
            proof {
                lemma_sum_take_next(entries, c as int);
                lemma_sum_bounds(entries.take(c as int + 1), u64::MAX as int);
                assert((c + 1) * u64::MAX <= u128::MAX) by (nonlinear_arith)
                    requires c < usize::MAX;
            }
            acc = acc + self.get(row, c) as u128;
            c += 1;
        }
        proof {
            assert(entries.take(self.cols as int) =~= entries);
        }
        acc
    }

    /// The sum of the entries of one column.
    pub fn column_sum(&self, column: usize) -> (s: u128)
        requires
            self.wf(),
            column < self.num_cols(),
        ensures
            s == sum(column_of(self@, column as int)),
    {
        let ghost entries = column_of(self@, column as int);
        let mut acc: u128 = 0;
        let mut r: usize = 0;
        while r < self.rows
            invariant
                self.wf(),
                column < self.num_cols(),
                entries == column_of(self@, column as int),
                entries.len() == self.rows,
                r <= self.rows,
                acc == sum(entries.take(r as int)),
            decreases self.rows - r,
        {
            proof {
                lemma_sum_take_next(entries, r as int);
                lemma_sum_bounds(entries.take(r as int + 1), u64::MAX as int);
                assert((r + 1) * u64::MAX <= u128::MAX) by (nonlinear_arith)
                    requires r < usize::MAX;
            }
            acc = acc + self.get(r, column) as u128;
            r += 1;
        }
        proof {
            assert(entries.take(self.rows as int) =~= entries);
        }
        acc
    }
}

} // verus!

verus! {

/// Rows and columns of an integer matrix after one cell is changed.
pub proof fn lemma_update_lines(m: Seq<Seq<u64>>, r0: int, c0: int, v: u64, n: int)
    requires
        m.len() == n,
        forall|r: int| 0 <= r < n ==> (#[trigger] m[r]).len() == n,
        0 <= r0 < n,
        0 <= c0 < n,
    ensures
        ({
            let u = m.update(r0, m[r0].update(c0, v));
            &&& row_of(u, r0) == row_of(m, r0).update(c0, v as int)
            &&& forall|r: int| 0 <= r < n && r != r0 ==> #[trigger] row_of(u, r) == row_of(m, r)
            &&& column_of(u, c0) == column_of(m, c0).update(r0, v as int)
            &&& forall|c: int| 0 <= c < n && c != c0 ==> #[trigger] column_of(u, c) == column_of(m, c)
        }),
{
    let u = m.update(r0, m[r0].update(c0, v));
    assert(row_of(u, r0) =~= row_of(m, r0).update(c0, v as int));
    assert(column_of(u, c0) =~= column_of(m, c0).update(r0, v as int));
    assert forall|r: int| 0 <= r < n && r != r0 implies #[trigger] row_of(u, r) == row_of(m, r) by {
        assert(row_of(u, r) =~= row_of(m, r));
    }
    assert forall|c: int| 0 <= c < n && c != c0 implies #[trigger] column_of(u, c) == column_of(m, c) by {
        assert(column_of(u, c) =~= column_of(m, c));
    }
}

} // verus!

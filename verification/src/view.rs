use vstd::prelude::*;
use vstd::std_specs::ops::AddSpec;
use vstd::std_specs::ops::MulSpec;
use crate::field::{lemma_mul_zero, lemma_zero_add, Group};

verus! {

/// The mathematical model of a matrix: its shape, and the cells that hold
/// an explicit value. A cell without one stands for the additive identity.
/// A dense matrix holds every cell of its shape; a sparse one holds those
/// that were written.
pub struct MatrixView<T> {
    pub rows: nat,
    pub cols: nat,
    pub cells: Map<(int, int), T>,
}

impl<T: Group> MatrixView<T> {
    pub open spec fn in_range(self, r: int, c: int) -> bool {
        0 <= r < self.rows && 0 <= c < self.cols
    }

    /// Every explicit cell lies inside the shape.
    pub open spec fn well_formed(self) -> bool {
        forall|r: int, c: int| #[trigger] self.cells.contains_key((r, c)) ==> self.in_range(r, c)
    }

    /// Every cell of the shape is explicit.
    pub open spec fn is_full(self) -> bool {
        forall|r: int, c: int| self.in_range(r, c) ==> #[trigger] self.cells.contains_key((r, c))
    }

    /// The explicit value at `(r, c)`, if there is one.
    pub open spec fn entry(self, r: int, c: int) -> Option<T> {
        if self.cells.contains_key((r, c)) {
            Some(self.cells[(r, c)])
        } else {
            None
        }
    }

    /// The value that `(r, c)` stands for.
    pub open spec fn at(self, r: int, c: int) -> T {
        if self.cells.contains_key((r, c)) {
            self.cells[(r, c)]
        } else {
            T::zero()
        }
    }

    /// The view after `(r, c)` was overwritten with `v`.
    pub open spec fn with_cell(self, r: int, c: int, v: T) -> Self {
        MatrixView { rows: self.rows, cols: self.cols, cells: self.cells.insert((r, c), v) }
    }

    /// The view after the cells `(0, 0)`, `(1, 1)`, ... of the first `n`
    /// rows were overwritten with the multiplicative identity.
    pub open spec fn with_ones(self, n: nat) -> Self {
        MatrixView {
            rows: self.rows,
            cols: self.cols,
            cells: Map::new(
                |k: (int, int)| self.cells.contains_key(k) || (k.0 == k.1 && 0 <= k.0 < n),
                |k: (int, int)|
                    if k.0 == k.1 && 0 <= k.0 < n {
                        T::one()
                    } else {
                        self.cells[k]
                    },
            ),
        }
    }

    /// The view after `v` was accumulated onto `(r, c)`.
    pub open spec fn accumulate(self, r: int, c: int, v: T) -> Self {
        self.with_cell(
            r,
            c,
            match self.entry(r, c) {
                Some(o) => o.add_spec(v),
                None => v,
            },
        )
    }

    /// The row that row `r` comes from when rows `i` and `j` are exchanged.
    pub open spec fn swapped(r: int, i: int, j: int) -> int {
        if r == i {
            j
        } else if r == j {
            i
        } else {
            r
        }
    }

    /// The view after rows `i` and `j` were exchanged.
    pub open spec fn swap_rows(self, i: int, j: int) -> Self {
        MatrixView {
            rows: self.rows,
            cols: self.cols,
            cells: Map::new(
                |k: (int, int)| self.cells.contains_key((Self::swapped(k.0, i, j), k.1)),
                |k: (int, int)| self.cells[(Self::swapped(k.0, i, j), k.1)],
            ),
        }
    }

    /// The view after every explicit cell of row `r` was multiplied by `k`.
    pub open spec fn scale_row(self, r: int, k: T) -> Self {
        MatrixView {
            rows: self.rows,
            cols: self.cols,
            cells: Map::new(
                |key: (int, int)| self.cells.contains_key(key),
                |key: (int, int)|
                    if key.0 == r {
                        self.cells[key].mul_spec(k)
                    } else {
                        self.cells[key]
                    },
            ),
        }
    }

    /// What a cell of the target row holds after `k` times a cell of the
    /// source row was added to it.
    pub open spec fn merged(d: Option<T>, s: Option<T>, k: T) -> Option<T> {
        match (d, s) {
            (Some(dv), Some(sv)) => Some(dv.add_spec(sv.mul_spec(k))),
            (Some(dv), None) => Some(dv),
            (None, Some(sv)) => Some(sv.mul_spec(k)),
            (None, None) => None,
        }
    }

    /// The view after `k` times row `src` was added to row `dst`.
    pub open spec fn add_scaled_row(self, dst: int, src: int, k: T) -> Self {
        MatrixView {
            rows: self.rows,
            cols: self.cols,
            cells: Map::new(
                |key: (int, int)|
                    if key.0 == dst {
                        self.cells.contains_key(key) || self.cells.contains_key((src, key.1))
                    } else {
                        self.cells.contains_key(key)
                    },
                |key: (int, int)|
                    if key.0 == dst {
                        Self::merged(self.entry(dst, key.1), self.entry(src, key.1), k)->0
                    } else {
                        self.cells[key]
                    },
            ),
        }
    }

    /// The rectangle of `rows` by `cols` cells whose first cell is
    /// `(row_begin, col_begin)`, as a view of its own.
    pub open spec fn window(self, row_begin: int, rows: nat, col_begin: int, cols: nat) -> Self {
        MatrixView {
            rows: rows,
            cols: cols,
            cells: Map::new(
                |k: (int, int)|
                    0 <= k.0 < rows && 0 <= k.1 < cols && self.cells.contains_key(
                        (k.0 + row_begin, k.1 + col_begin),
                    ),
                |k: (int, int)| self.cells[(k.0 + row_begin, k.1 + col_begin)],
            ),
        }
    }

    /// Whether cell `k` lies under the block `m` placed at
    /// `(row_begin, col_begin)`, in one of the block's rows `0..done_rows` or
    /// in row `done_rows` in one of the columns `0..done_cols`.
    pub open spec fn covered(
        k: (int, int),
        row_begin: int,
        col_begin: int,
        m: Self,
        done_rows: int,
        done_cols: int,
    ) -> bool {
        &&& m.in_range(k.0 - row_begin, k.1 - col_begin)
        &&& (k.0 - row_begin < done_rows || (k.0 - row_begin == done_rows && k.1 - col_begin
            < done_cols))
    }

    /// The view while the block `m` is being written row by row: the cells
    /// that `covered` names are written, the others are as they were.
    pub open spec fn overlay_partial(
        self,
        row_begin: int,
        col_begin: int,
        m: Self,
        done_rows: int,
        done_cols: int,
    ) -> Self {
        MatrixView {
            rows: self.rows,
            cols: self.cols,
            cells: Map::new(
                |k: (int, int)|
                    self.cells.contains_key(k) || Self::covered(
                        k,
                        row_begin,
                        col_begin,
                        m,
                        done_rows,
                        done_cols,
                    ),
                |k: (int, int)|
                    if Self::covered(k, row_begin, col_begin, m, done_rows, done_cols) {
                        m.at(k.0 - row_begin, k.1 - col_begin)
                    } else {
                        self.cells[k]
                    },
            ),
        }
    }

    /// The view after the cells of `m` were written over the rectangle whose
    /// first cell is `(row_begin, col_begin)`; a cell that `m` leaves
    /// implicit is written as the additive identity.
    pub open spec fn overlay(self, row_begin: int, col_begin: int, m: Self) -> Self {
        MatrixView {
            rows: self.rows,
            cols: self.cols,
            cells: Map::new(
                |k: (int, int)|
                    self.cells.contains_key(k) || m.in_range(k.0 - row_begin, k.1 - col_begin),
                |k: (int, int)|
                    if m.in_range(k.0 - row_begin, k.1 - col_begin) {
                        m.at(k.0 - row_begin, k.1 - col_begin)
                    } else {
                        self.cells[k]
                    },
            ),
        }
    }

    /// The explicit cells of row `r` in columns `0..n`, by ascending column,
    /// each as row, column and value.
    pub open spec fn row_cells_upto(self, r: int, n: int) -> Seq<(int, int, T)>
        decreases n,
    {
        if n <= 0 {
            Seq::empty()
        } else if self.cells.contains_key((r, n - 1)) {
            self.row_cells_upto(r, n - 1).push((r, n - 1, self.cells[(r, n - 1)]))
        } else {
            self.row_cells_upto(r, n - 1)
        }
    }

    /// The explicit cells of row `r`, by ascending column.
    pub open spec fn row_cells(self, r: int) -> Seq<(int, int, T)> {
        self.row_cells_upto(r, self.cols as int)
    }

    /// Row `r` with every cell written out.
    pub open spec fn row(self, r: int) -> Seq<T> {
        Seq::new(self.cols, |c: int| self.at(r, c))
    }

    /// Column `c` with every cell written out.
    pub open spec fn col(self, c: int) -> Seq<T> {
        Seq::new(self.rows, |r: int| self.at(r, c))
    }

    /// The matrix with every cell written out, row by row.
    pub open spec fn grid(self) -> Seq<Seq<T>> {
        Seq::new(self.rows, |r: int| self.row(r))
    }
}

/// What a cell stands for after a cell was overwritten.
pub proof fn lemma_at_with_cell<T: Group>(m: MatrixView<T>, r0: int, c0: int, v: T, r: int, c: int)
    ensures
        m.with_cell(r0, c0, v).at(r, c) == (if r == r0 && c == c0 {
            v
        } else {
            m.at(r, c)
        }),
{
}

/// A cell onto which `v` was accumulated stands for its old value plus `v`,
/// whether it was explicit or not.
pub proof fn lemma_at_accumulate<T: Group>(m: MatrixView<T>, r0: int, c0: int, v: T, r: int, c: int)
    ensures
        m.accumulate(r0, c0, v).at(r, c) == (if r == r0 && c == c0 {
            m.at(r, c).add_spec(v)
        } else {
            m.at(r, c)
        }),
{
    lemma_zero_add(v);
}

/// After rows `i` and `j` were exchanged, each holds what the other held.
pub proof fn lemma_at_swap_rows<T: Group>(m: MatrixView<T>, i: int, j: int, r: int, c: int)
    ensures
        m.swap_rows(i, j).at(r, c) == m.at(MatrixView::<T>::swapped(r, i, j), c),
{
}

/// After row `r0` was scaled by `k`, each of its cells stands for `k` times
/// what it stood for, whether it is explicit or not.
pub proof fn lemma_at_scale_row<T: Group>(m: MatrixView<T>, r0: int, k: T, r: int, c: int)
    ensures
        m.scale_row(r0, k).at(r, c) == (if r == r0 {
            m.at(r, c).mul_spec(k)
        } else {
            m.at(r, c)
        }),
{
    lemma_mul_zero(k);
}

/// After `k` times row `src` was added to row `dst`, each cell of row `dst`
/// stands for what a dense row would hold: its old value plus `k` times the
/// value of row `src` in that column. Merging explicit cells and adding
/// the rows written out in full give one result.
pub proof fn lemma_at_add_scaled_row<T: Group>(
    m: MatrixView<T>,
    dst: int,
    src: int,
    k: T,
    r: int,
    c: int,
)
    ensures
        m.add_scaled_row(dst, src, k).at(r, c) == (if r == dst {
            m.at(dst, c).add_spec(m.at(src, c).mul_spec(k))
        } else {
            m.at(r, c)
        }),
{
    lemma_mul_zero(k);
    T::lemma_add_identity(m.at(dst, c));
    lemma_zero_add(m.at(src, c).mul_spec(k));
    T::lemma_add_identity(T::zero());
}

/// A cell of a window stands for what the cell of the matrix stands for.
pub proof fn lemma_at_window<T: Group>(
    m: MatrixView<T>,
    row_begin: int,
    rows: nat,
    col_begin: int,
    cols: nat,
    r: int,
    c: int,
)
    requires
        0 <= r < rows,
        0 <= c < cols,
    ensures
        m.window(row_begin, rows, col_begin, cols).at(r, c) == m.at(r + row_begin, c + col_begin),
{
}

/// After the block `b` was written at `(row_begin, col_begin)`, the cells
/// under the block stand for what the block's cells stand for; the others
/// are as they were.
pub proof fn lemma_at_overlay<T: Group>(
    m: MatrixView<T>,
    row_begin: int,
    col_begin: int,
    b: MatrixView<T>,
    r: int,
    c: int,
)
    ensures
        m.overlay(row_begin, col_begin, b).at(r, c) == (if b.in_range(
            r - row_begin,
            c - col_begin,
        ) {
            b.at(r - row_begin, c - col_begin)
        } else {
            m.at(r, c)
        }),
{
}

} // verus!

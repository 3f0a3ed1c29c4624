use vstd::prelude::*;
use vstd::std_specs::ops::AddSpec;
use vstd::std_specs::ops::MulSpec;
use crate::error::MatrixError;
use crate::field::Group;
use crate::matrix_base::{ConstMatrix, Matrix, MatrixInit, MatrixIterator};
use crate::vector::Vector;
use crate::view::MatrixView;

verus! {

/// The place of cell `(r, c)` in row-major storage with `cols` columns.
pub open spec fn flat(r: int, c: int, cols: int) -> int {
    r * cols + c
}

/// A cell of the shape has its place inside the storage.
pub proof fn lemma_flat_bounds(r: int, c: int, rows: int, cols: int)
    requires
        0 <= r < rows,
        0 <= c < cols,
    ensures
        0 <= flat(r, c, cols) < rows * cols,
        0 <= r * cols <= rows * cols - cols,
{
    assert(0 <= r * cols) by (nonlinear_arith)
        requires
            0 <= r,
            0 <= cols,
    ;
    assert(r * cols + cols <= rows * cols) by (nonlinear_arith)
        requires
            r + 1 <= rows,
            0 <= cols,
    ;
}

/// Two cells with the same place are the same cell.
pub proof fn lemma_flat_unique(r1: int, c1: int, r2: int, c2: int, cols: int)
    requires
        0 <= c1 < cols,
        0 <= c2 < cols,
        flat(r1, c1, cols) == flat(r2, c2, cols),
    ensures
        r1 == r2,
        c1 == c2,
{
    if r1 < r2 {
        assert(r1 * cols + cols <= r2 * cols) by (nonlinear_arith)
            requires
                r1 + 1 <= r2,
                0 <= cols,
        ;
    } else if r2 < r1 {
        assert(r2 * cols + cols <= r1 * cols) by (nonlinear_arith)
            requires
                r2 + 1 <= r1,
                0 <= cols,
        ;
    }
}

/// A matrix that stores every cell, row after row.
#[derive(Debug)]
pub struct DenseMatrix<T> {
    row: usize,
    col: usize,
    container: Vec<T>,
}

impl<T: Group> DenseMatrix<T> {
    /// The stored value of cell `(r, c)`.
    pub closed spec fn stored(&self, r: int, c: int) -> T {
        self.container@[flat(r, c, self.col as int)]
    }

    /// The number of rows.
    pub closed spec fn spec_rows(&self) -> nat {
        self.row as nat
    }

    /// The number of columns.
    pub closed spec fn spec_cols(&self) -> nat {
        self.col as nat
    }

    /// The storage holds one value for each cell.
    pub closed spec fn inv(&self) -> bool {
        self.container.len() == self.row * self.col
    }

    /// The place of cell `(r, c)` in the storage: `r * cols + c`.
    pub fn get_index(&self, r: usize, c: usize) -> (index: usize)
        requires
            r * self.spec_cols() + c <= usize::MAX,
        ensures
            index == flat(r as int, c as int, self.spec_cols() as int),
    {
        assert(r * self.col <= r * self.col + c) by (nonlinear_arith);
        r * self.col + c
    }

    /// A cell of the matrix has its place inside the storage.
    proof fn lemma_index(&self, r: int, c: int)
        requires
            self.inv(),
            0 <= r < self.row,
            0 <= c < self.col,
        ensures
            0 <= flat(r, c, self.col as int) < self.container@.len(),
            self.container@.len() <= usize::MAX,
    {
        lemma_flat_bounds(r, c, self.row as int, self.col as int);
    }
}

impl<T: Group> Clone for DenseMatrix<T> {
    fn clone(&self) -> (res: Self)
        ensures
            res@ == self@,
            res.wf() == self.wf(),
    {
        let mut container: Vec<T> = Vec::new();
        let mut i: usize = 0;
        while i < self.container.len()
            invariant
                i <= self.container@.len(),
                container@ == self.container@.subrange(0, i as int),
            decreases self.container@.len() - i,
        {
            container.push(self.container[i]);
            i += 1;
        }
        assert(container@ == self.container@);
        let res = DenseMatrix { row: self.row, col: self.col, container };
        assert(res@.cells =~= self@.cells);
        res
    }
}

impl<T: Group> ConstMatrix<T> for DenseMatrix<T> {
    open spec fn wf(&self) -> bool {
        self.inv()
    }

    open spec fn view(&self) -> MatrixView<T> {
        MatrixView {
            rows: self.spec_rows(),
            cols: self.spec_cols(),
            cells: Map::new(
                |k: (int, int)| 0 <= k.0 < self.spec_rows() && 0 <= k.1 < self.spec_cols(),
                |k: (int, int)| self.stored(k.0, k.1),
            ),
        }
    }

    open spec fn shape_fits(rows: nat, cols: nat) -> bool {
        rows * cols <= usize::MAX
    }

    /// Every cell of a new dense matrix is explicit.
    open spec fn fresh(rows: nat, cols: nat) -> MatrixView<T> {
        MatrixView {
            rows: rows,
            cols: cols,
            cells: Map::new(
                |k: (int, int)| 0 <= k.0 < rows && 0 <= k.1 < cols,
                |k: (int, int)| T::zero(),
            ),
        }
    }

    proof fn lemma_fresh(rows: nat, cols: nat) {
    }

    proof fn lemma_wf(&self) {
    }

    proof fn lemma_shape_fits(rows: nat, cols: nat, fewer_rows: nat, fewer_cols: nat) {
        assert(fewer_rows * fewer_cols <= rows * cols) by (nonlinear_arith)
            requires
                fewer_rows <= rows,
                fewer_cols <= cols,
        ;
    }

    fn get_row(&self) -> (n: usize) {
        self.row
    }

    fn get_column(&self) -> (n: usize) {
        self.col
    }

    /// Every cell of a dense matrix is explicit: inside the matrix the
    /// answer is never `None`.
    fn get(&self, row: usize, col: usize) -> (res: Result<Option<&T>, MatrixError>)
        ensures
            res matches Ok(o) ==> o.is_some(),
    {
        if row >= self.row {
            return Err(MatrixError::OutOfRange { index: row, extent: self.row });
        }
        if col >= self.col {
            return Err(MatrixError::OutOfRange { index: col, extent: self.col });
        }
        proof {
            self.lemma_index(row as int, col as int);
        }
        let index = self.get_index(row, col);
        Ok(Some(&self.container[index]))
    }

    fn get_sub_matrix(&self, row_begin: usize, row: usize, col_begin: usize, col: usize) -> (res:
        Result<Self, MatrixError>) {
        if row > self.row || row_begin > self.row - row {
            return Err(
                MatrixError::OutOfRange {
                    index: if row_begin >= self.row {
                        row_begin
                    } else {
                        self.row
                    },
                    extent: self.row,
                },
            );
        }
        if col > self.col || col_begin > self.col - col {
            return Err(
                MatrixError::OutOfRange {
                    index: if col_begin >= self.col {
                        col_begin
                    } else {
                        self.col
                    },
                    extent: self.col,
                },
            );
        }
        proof {
            Self::lemma_shape_fits(self.row as nat, self.col as nat, row as nat, col as nat);
        }
        let mut m: DenseMatrix<T> = DenseMatrix::new(row, col);
        let mut i: usize = 0;
        while i < row
            invariant
                self.inv(),
                m.inv(),
                m.row == row,
                m.col == col,
                i <= row,
                row_begin + row <= self.row,
                col_begin + col <= self.col,
                forall|r: int, c: int|
                    0 <= r < i && 0 <= c < col ==> #[trigger] m.stored(r, c) == self.stored(
                        r + row_begin,
                        c + col_begin,
                    ),
            decreases row - i,
        {
            let mut j: usize = 0;
            while j < col
                invariant
                    self.inv(),
                    m.inv(),
                    m.row == row,
                    m.col == col,
                    i < row,
                    j <= col,
                    row_begin + row <= self.row,
                    col_begin + col <= self.col,
                    forall|r: int, c: int|
                        (0 <= r < i && 0 <= c < col) || (r == i && 0 <= c < j)
                            ==> #[trigger] m.stored(r, c) == self.stored(
                            r + row_begin,
                            c + col_begin,
                        ),
                decreases col - j,
            {
                proof {
                    self.lemma_index(i + row_begin, j + col_begin);
                    m.lemma_index(i as int, j as int);
                }
                let from = self.get_index(i + row_begin, j + col_begin);
                let to = m.get_index(i, j);
                let ghost before = m;
                m.container[to] = self.container[from];
                proof {
                    assert forall|r: int, c: int|
                        (0 <= r < i && 0 <= c < col) || (r == i && 0 <= c < j + 1) implies #[trigger] m.stored(
                        r,
                        c,
                    ) == self.stored(r + row_begin, c + col_begin) by {
                        if r == i && c == j {
                        } else {
                            before.lemma_index(r, c);
                            if flat(r, c, col as int) == flat(i as int, j as int, col as int) {
                                lemma_flat_unique(r, c, i as int, j as int, col as int);
                            }
                            assert(m.stored(r, c) == before.stored(r, c));
                        }
                    }
                }
                j += 1;
            }
            i += 1;
        }
        assert(m@.cells =~= self@.window(
            row_begin as int,
            row as nat,
            col_begin as int,
            col as nat,
        ).cells);
        Ok(m)
    }
}

impl<T: Group> MatrixInit<T> for DenseMatrix<T> {
    fn new(row: usize, col: usize) -> (m: Self) {
        let n: usize = row * col;
        let mut container: Vec<T> = Vec::new();
        let mut i: usize = 0;
        while i < n
            invariant
                i <= n,
                container@.len() == i,
                forall|t: int| 0 <= t < i ==> container@[t] == T::zero(),
            decreases n - i,
        {
            container.push(T::get_identity_add());
            i += 1;
        }
        let m = DenseMatrix { row, col, container };
        proof {
            assert forall|k: (int, int)| 0 <= k.0 < row && 0 <= k.1 < col implies m.stored(
                k.0,
                k.1,
            ) == T::zero() by {
                m.lemma_index(k.0, k.1);
            }
            assert(m@.cells =~= Self::fresh(row as nat, col as nat).cells);
        }
        m
    }
}

impl<T: Group> DenseMatrix<T> {
    /// Writing one place of the storage changes one cell.
    proof fn lemma_write(&self, after: &Self, row: int, col: int, v: T)
        requires
            self.inv(),
            after.row == self.row,
            after.col == self.col,
            0 <= row < self.row,
            0 <= col < self.col,
            after.container@ == self.container@.update(flat(row, col, self.col as int), v),
        ensures
            after.inv(),
            forall|r: int, c: int|
                0 <= r < self.row && 0 <= c < self.col ==> #[trigger] after.stored(r, c) == (if r
                    == row && c == col {
                    v
                } else {
                    self.stored(r, c)
                }),
    {
        self.lemma_index(row, col);
        assert forall|r: int, c: int| 0 <= r < self.row && 0 <= c < self.col implies #[trigger] after.stored(
            r,
            c,
        ) == (if r == row && c == col {
            v
        } else {
            self.stored(r, c)
        }) by {
            self.lemma_index(r, c);
            if flat(r, c, self.col as int) == flat(row, col, self.col as int) {
                lemma_flat_unique(r, c, row, col, self.col as int);
            }
        }
    }
}

impl<T: Group> Matrix<T> for DenseMatrix<T> {
    proof fn lemma_clone(&self, other: &Self) {
        if *self != *other {
            assert(vstd::pervasive::strictly_cloned(*self, *other));
            assert(call_ensures(Clone::clone, (self,), *other));
        }
    }

    fn set(&mut self, row: usize, col: usize, value: T) -> (res: Result<(), MatrixError>) {
        if row >= self.row {
            return Err(MatrixError::OutOfRange { index: row, extent: self.row });
        }
        if col >= self.col {
            return Err(MatrixError::OutOfRange { index: col, extent: self.col });
        }
        proof {
            self.lemma_index(row as int, col as int);
        }
        let index = self.get_index(row, col);
        self.container[index] = value;
        proof {
            old(self).lemma_write(self, row as int, col as int, value);
            assert(self@.cells =~= old(self)@.with_cell(row as int, col as int, value).cells);
        }
        Ok(())
    }

    fn add(&mut self, row: usize, col: usize, value: T) -> (res: Result<(), MatrixError>) {
        if row >= self.row {
            return Err(MatrixError::OutOfRange { index: row, extent: self.row });
        }
        if col >= self.col {
            return Err(MatrixError::OutOfRange { index: col, extent: self.col });
        }
        proof {
            self.lemma_index(row as int, col as int);
            T::lemma_operators();
        }
        let index = self.get_index(row, col);
        let sum = self.container[index] + value;
        self.container[index] = sum;
        proof {
            old(self).lemma_write(self, row as int, col as int, sum);
            assert(self@.cells =~= old(self)@.accumulate(row as int, col as int, value).cells);
        }
        Ok(())
    }

    fn element_row_transform_swap(&mut self, row_i: usize, row_j: usize) -> (res: Result<
        (),
        MatrixError,
    >) {
        if row_i >= self.row {
            return Err(MatrixError::OutOfRange { index: row_i, extent: self.row });
        }
        if row_j >= self.row {
            return Err(MatrixError::OutOfRange { index: row_j, extent: self.row });
        }
        let mut j: usize = 0;
        while j < self.col
            invariant
                self.inv(),
                self.row == old(self).row,
                self.col == old(self).col,
                old(self).inv(),
                row_i < self.row,
                row_j < self.row,
                j <= self.col,
                forall|r: int, c: int|
                    0 <= r < self.row && 0 <= c < self.col ==> #[trigger] self.stored(r, c) == (
                    if c < j {
                        old(self).stored(MatrixView::<T>::swapped(r, row_i as int, row_j as int), c)
                    } else {
                        old(self).stored(r, c)
                    }),
            decreases self.col - j,
        {
            proof {
                self.lemma_index(row_i as int, j as int);
                self.lemma_index(row_j as int, j as int);
            }
            let i1 = self.get_index(row_i, j);
            let i2 = self.get_index(row_j, j);
            let a = self.container[i1];
            let b = self.container[i2];
            let ghost s0 = *self;
            self.container[i1] = b;
            let ghost s1 = *self;
            self.container[i2] = a;
            proof {
                assert(a == s0.stored(row_i as int, j as int));
                assert(b == s0.stored(row_j as int, j as int));
                s0.lemma_write(&s1, row_i as int, j as int, b);
                s1.lemma_write(self, row_j as int, j as int, a);
            }
            j += 1;
        }
        proof {
            assert(self@.cells =~= old(self)@.swap_rows(row_i as int, row_j as int).cells);
        }
        Ok(())
    }

    fn element_row_transform_multi(&mut self, row: usize, k: T) -> (res: Result<(), MatrixError>) {
        if row >= self.row {
            return Err(MatrixError::OutOfRange { index: row, extent: self.row });
        }
        let mut j: usize = 0;
        while j < self.col
            invariant
                self.inv(),
                self.row == old(self).row,
                self.col == old(self).col,
                old(self).inv(),
                row < self.row,
                j <= self.col,
                forall|r: int, c: int|
                    0 <= r < self.row && 0 <= c < self.col ==> #[trigger] self.stored(r, c) == (
                    if r == row && c < j {
                        old(self).stored(r, c).mul_spec(k)
                    } else {
                        old(self).stored(r, c)
                    }),
            decreases self.col - j,
        {
            proof {
                self.lemma_index(row as int, j as int);
                T::lemma_operators();
            }
            let index = self.get_index(row, j);
            let v = self.container[index] * k;
            let ghost s0 = *self;
            self.container[index] = v;
            proof {
                assert(s0.stored(row as int, j as int) == old(self).stored(row as int, j as int));
                s0.lemma_write(self, row as int, j as int, v);
            }
            j += 1;
        }
        proof {
            assert(self@.cells =~= old(self)@.scale_row(row as int, k).cells);
        }
        Ok(())
    }

    fn element_row_transform_plus(&mut self, row_i: usize, row_j: usize, k: T) -> (res: Result<
        (),
        MatrixError,
    >) {
        if row_i >= self.row {
            return Err(MatrixError::OutOfRange { index: row_i, extent: self.row });
        }
        if row_j >= self.row {
            return Err(MatrixError::OutOfRange { index: row_j, extent: self.row });
        }
        let mut j: usize = 0;
        while j < self.col
            invariant
                self.inv(),
                self.row == old(self).row,
                self.col == old(self).col,
                old(self).inv(),
                row_i < self.row,
                row_j < self.row,
                j <= self.col,
                forall|r: int, c: int|
                    0 <= r < self.row && 0 <= c < self.col ==> #[trigger] self.stored(r, c) == (
                    if r == row_i && c < j {
                        old(self).stored(r, c).add_spec(
                            old(self).stored(row_j as int, c).mul_spec(k),
                        )
                    } else {
                        old(self).stored(r, c)
                    }),
            decreases self.col - j,
        {
            proof {
                self.lemma_index(row_i as int, j as int);
                self.lemma_index(row_j as int, j as int);
                T::lemma_operators();
            }
            let i1 = self.get_index(row_i, j);
            let i2 = self.get_index(row_j, j);
            let v = self.container[i1] + self.container[i2] * k;
            let ghost s0 = *self;
            self.container[i1] = v;
            proof {
                assert(s0.stored(row_i as int, j as int) == old(self).stored(row_i as int, j as int));
                assert(s0.stored(row_j as int, j as int) == old(self).stored(row_j as int, j as int));
                s0.lemma_write(self, row_i as int, j as int, v);
            }
            j += 1;
        }
        proof {
            assert(self@.cells =~= old(self)@.add_scaled_row(row_i as int, row_j as int, k).cells);
        }
        Ok(())
    }
}

/// A cell handed out by a row cursor: row, column and value.
pub struct Item<'a, T>(usize, usize, &'a T);

impl<'a, T> Item<'a, T> {
    /// Row, column and value of the cell.
    pub closed spec fn cell(&self) -> (int, int, T) {
        (self.0 as int, self.1 as int, *self.2)
    }

    /// The cell `(row, col)` with the value `v`.
    pub fn new(row: usize, col: usize, v: &'a T) -> (item: Item<'a, T>)
        ensures
            item.cell() == (row as int, col as int, *v),
    {
        Item(row, col, v)
    }

    pub fn get_row(&self) -> (r: usize)
        ensures
            r == self.cell().0,
    {
        self.0
    }

    pub fn get_col(&self) -> (c: usize)
        ensures
            c == self.cell().1,
    {
        self.1
    }

    pub fn get_v(&self) -> (v: &T)
        ensures
            *v == self.cell().2,
    {
        self.2
    }
}

/// A cursor over one row of a dense matrix: it hands out every cell of the
/// row, from column 0 on.
pub struct RowIterator<'a, T: Group> {
    row: usize,
    col: usize,
    holder: &'a DenseMatrix<T>,
}

impl<'a, T: Group> RowIterator<'a, T> {
    /// The cursor stands inside a row of a well-formed matrix.
    #[verifier::type_invariant]
    spec fn inside(&self) -> bool {
        &&& self.holder.inv()
        &&& self.row < self.holder.row
        &&& self.col <= self.holder.col
    }

    /// The cells yet to be handed out.
    pub closed spec fn remaining(&self) -> Seq<(int, int, T)> {
        Seq::new(
            (self.holder.col - self.col) as nat,
            |t: int| (self.row as int, self.col + t, self.holder.stored(self.row as int, self.col + t)),
        )
    }

    /// A cursor over row `r` of `h`, placed at column 0.
    pub(crate) fn new(r: usize, h: &'a DenseMatrix<T>) -> (it: RowIterator<'a, T>)
        requires
            h.wf(),
            r < h@.rows,
        ensures
            it.remaining() == h@.row_cells(r as int),
            it.remaining().len() == h@.cols,
    {
        let it = RowIterator { row: r, col: 0, holder: h };
        proof {
            h.lemma_row_cells(r as int, h.col as int);
            assert(it.remaining() =~= h@.row_cells(r as int));
        }
        it
    }

    /// The next cell of the row, or `None` once the row is exhausted.
    pub fn next(&mut self) -> (r: Option<Item<'a, T>>)
        ensures
            old(self).remaining().len() == 0 ==> r.is_none() && final(self).remaining() == old(self).remaining(),
            old(self).remaining().len() > 0 ==> r.is_some() && r.unwrap().cell() == old(self).remaining()[0] && final(self).remaining() == old(self).remaining().drop_first(),
    {
        proof {
            use_type_invariant(&*self);
        }
        if self.col >= self.holder.col {
            None
        } else {
            proof {
                self.holder.lemma_index(self.row as int, self.col as int);
            }
            let index = self.holder.get_index(self.row, self.col);
            let v = &self.holder.container[index];
            let item = Item::new(self.row, self.col, v);
            self.col += 1;
            proof {
                assert(self.remaining() =~= old(self).remaining().drop_first());
            }
            Some(item)
        }
    }
}

impl<T: Group> DenseMatrix<T> {
    /// The explicit cells of a row of a dense matrix are all its cells.
    proof fn lemma_row_cells(&self, r: int, n: int)
        requires
            self.inv(),
            0 <= r < self.row,
            0 <= n <= self.col,
        ensures
            self@.row_cells_upto(r, n) == Seq::new(
                n as nat,
                |t: int| (r, 0 + t, self.stored(r, 0 + t)),
            ),
        decreases n,
    {
        if n > 0 {
            self.lemma_row_cells(r, n - 1);
            assert(self@.cells.contains_key((r, n - 1)));
            assert(self@.row_cells_upto(r, n) =~= Seq::new(
                n as nat,
                |t: int| (r, 0 + t, self.stored(r, 0 + t)),
            ));
        } else {
            assert(self@.row_cells_upto(r, n) =~= Seq::new(
                n as nat,
                |t: int| (r, 0 + t, self.stored(r, 0 + t)),
            ));
        }
    }

    /// Overwrites column `col` with the elements of `v`, which must be as
    /// many as the matrix has rows.
    pub fn set_nth_column(&mut self, col: usize, v: Vector<T>) -> (res: Result<(), MatrixError>)
        requires
            old(self).wf(),
        ensures
            final(self).wf(),
            final(self)@.rows == old(self)@.rows,
            final(self)@.cols == old(self)@.cols,
            v@.len() != old(self)@.rows ==> res == Err::<(), MatrixError>(
                MatrixError::ShapeMismatch {
                    expected: old(self)@.rows as usize,
                    found: v@.len() as usize,
                },
            ),
            v@.len() == old(self)@.rows && col >= old(self)@.cols ==> res == Err::<
                (),
                MatrixError,
            >(MatrixError::OutOfRange { index: col, extent: old(self)@.cols as usize }),
            res.is_err() ==> final(self)@ == old(self)@,
            v@.len() == old(self)@.rows && col < old(self)@.cols ==> res.is_ok() && final(self)@.is_full() && forall|r: int, c: int|
                0 <= r < old(self)@.rows && 0 <= c < old(self)@.cols ==> #[trigger] final(self)@.at(r, c) == (if c == col {
                    v@[r]
                } else {
                    old(self)@.at(r, c)
                }),
    {
        if v.length() != self.row {
            return Err(MatrixError::ShapeMismatch { expected: self.row, found: v.length() });
        }
        if col >= self.col {
            return Err(MatrixError::OutOfRange { index: col, extent: self.col });
        }
        let mut i: usize = 0;
        while i < self.row
            invariant
                self.inv(),
                old(self).inv(),
                self.row == old(self).row,
                self.col == old(self).col,
                v@.len() == self.row,
                col < self.col,
                i <= self.row,
                forall|r: int, c: int|
                    0 <= r < self.row && 0 <= c < self.col ==> #[trigger] self.stored(r, c) == (
                    if c == col && r < i {
                        v@[r]
                    } else {
                        old(self).stored(r, c)
                    }),
            decreases self.row - i,
        {
            proof {
                self.lemma_index(i as int, col as int);
            }
            let index = self.get_index(i, col);
            let ghost s0 = *self;
            let value = v[i];
            self.container[index] = value;
            proof {
                s0.lemma_write(self, i as int, col as int, value);
            }
            i += 1;
        }
        Ok(())
    }

    /// Column `col`, as a vector of as many elements as the matrix has rows.
    pub fn get_nth_column(&self, col: usize) -> (res: Result<Vector<T>, MatrixError>)
        requires
            self.wf(),
        ensures
            col >= self@.cols ==> res == Err::<Vector<T>, MatrixError>(
                MatrixError::OutOfRange { index: col, extent: self@.cols as usize },
            ),
            col < self@.cols ==> (res matches Ok(v) && v@ == self@.col(col as int)),
    {
        if col >= self.col {
            return Err(MatrixError::OutOfRange { index: col, extent: self.col });
        }
        let mut v = Vector::new_with(self.row, T::get_identity_add());
        let mut i: usize = 0;
        while i < self.row
            invariant
                self.inv(),
                col < self.col,
                i <= self.row,
                v@.len() == self.row,
                forall|r: int| 0 <= r < i ==> #[trigger] v@[r] == self.stored(r, col as int),
            decreases self.row - i,
        {
            proof {
                self.lemma_index(i as int, col as int);
            }
            let index = self.get_index(i, col);
            v.set(i, self.container[index]);
            i += 1;
        }
        proof {
            assert(v@ =~= self@.col(col as int));
        }
        Ok(v)
    }
}

impl<'a, T: Group> MatrixIterator<'a, T, RowIterator<'a, T>> for DenseMatrix<T> {
    open spec fn remaining(it: &RowIterator<'a, T>) -> Seq<(int, int, T)> {
        it.remaining()
    }

    /// The cursor hands out as many cells as the matrix has columns.
    fn get_iterator<'b: 'a>(&'b self, row: usize) -> (res: Result<RowIterator<'a, T>, MatrixError>)
        ensures
            res matches Ok(it) ==> it.remaining().len() == self@.cols,
    {
        if row >= self.row {
            return Err(MatrixError::OutOfRange { index: row, extent: self.row });
        }
        Ok(RowIterator::new(row, self))
    }
}

} // verus!

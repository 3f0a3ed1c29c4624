use vstd::prelude::*;
use crate::error::MatrixError;
pub use crate::field::Group;
use crate::gauss::{
    add_scaled_column, clear_between, is_identity, lemma_initial, lemma_inverse_found,
    lemma_identity_reached, lemma_linked_add_scaled, lemma_linked_scale, lemma_linked_swap,
    lemma_no_pivot, lemma_one_by_one, lemma_one_by_one_singular, lemma_singular_has_no_inverse, lemma_step_back, lemma_step_eliminate,
    lemma_step_normalize, lemma_step_swap, linked, reduced_above, reduced_below, scale_column,
    swap_columns,
};
use crate::field::lemma_recip_nonzero;
use crate::linear::{identity, is_inverse, singular};
use crate::view::{lemma_at_with_cell, MatrixView};
use vstd::std_specs::ops::MulSpec;
use vstd::std_specs::cmp::PartialEqSpec;

verus! {

/// The first index of a window of indices from `begin` on that does not
/// lie below `extent`, where the window does not fit below `extent`.
pub open spec fn first_outside(begin: usize, extent: usize) -> usize {
    if begin >= extent {
        begin
    } else {
        extent
    }
}

/// The error for `index`, which does not lie below `extent`.
pub open spec fn out_of_range(index: usize, extent: nat) -> MatrixError {
    MatrixError::OutOfRange { index: index, extent: extent as usize }
}

/// Read access to a matrix: its shape, its cells, a rectangle of it.
pub trait ConstMatrix<T: Group>: Sized {
    /// The representation invariant. Every constructor establishes it and
    /// every operation keeps it.
    spec fn wf(&self) -> bool;

    /// The shape and the explicit cells.
    spec fn view(&self) -> MatrixView<T>;

    /// The shapes that this backend can allocate.
    spec fn shape_fits(rows: nat, cols: nat) -> bool;

    /// The view of a matrix of `rows` by `cols` cells as this backend
    /// makes it: every cell stands for the additive identity.
    spec fn fresh(rows: nat, cols: nat) -> MatrixView<T>;

    proof fn lemma_fresh(rows: nat, cols: nat)
        ensures
            Self::fresh(rows, cols).rows == rows,
            Self::fresh(rows, cols).cols == cols,
            forall|r: int, c: int| #[trigger] Self::fresh(rows, cols).at(r, c) == T::zero(),
    ;

    proof fn lemma_wf(&self)
        requires
            self.wf(),
        ensures
            self@.well_formed(),
            self@.rows <= usize::MAX,
            self@.cols <= usize::MAX,
            Self::shape_fits(self@.rows, self@.cols),
    ;

    proof fn lemma_shape_fits(rows: nat, cols: nat, fewer_rows: nat, fewer_cols: nat)
        requires
            Self::shape_fits(rows, cols),
            fewer_rows <= rows,
            fewer_cols <= cols,
        ensures
            Self::shape_fits(fewer_rows, fewer_cols),
    ;

    fn get_row(&self) -> (n: usize)
        requires
            self.wf(),
        ensures
            n == self@.rows,
    ;

    fn get_column(&self) -> (n: usize)
        requires
            self.wf(),
        ensures
            n == self@.cols,
    ;

    /// The explicit value at `(row, col)`; `None` where the cell is
    /// implicit and stands for the additive identity.
    fn get(&self, row: usize, col: usize) -> (res: Result<Option<&T>, MatrixError>)
        requires
            self.wf(),
        ensures
            row >= self@.rows ==> res == Err::<Option<&T>, MatrixError>(
                out_of_range(row, self@.rows),
            ),
            row < self@.rows && col >= self@.cols ==> res == Err::<Option<&T>, MatrixError>(
                out_of_range(col, self@.cols),
            ),
            row < self@.rows && col < self@.cols ==> (res matches Ok(o) && (match o {
                Some(v) => self@.entry(row as int, col as int) == Some(*v),
                None => self@.entry(row as int, col as int).is_none(),
            })),
    ;

    /// A fresh matrix of `row` by `col` cells that holds the rectangle of
    /// `self` whose first cell is `(row_begin, col_begin)`.
    fn get_sub_matrix(&self, row_begin: usize, row: usize, col_begin: usize, col: usize) -> (res:
        Result<Self, MatrixError>)
        requires
            self.wf(),
        ensures
            row_begin + row > self@.rows ==> res == Err::<Self, MatrixError>(
                out_of_range(first_outside(row_begin, self@.rows as usize), self@.rows),
            ),
            row_begin + row <= self@.rows && col_begin + col > self@.cols ==> res == Err::<
                Self,
                MatrixError,
            >(out_of_range(first_outside(col_begin, self@.cols as usize), self@.cols)),
            row_begin + row <= self@.rows && col_begin + col <= self@.cols ==> (res matches Ok(m)
                && m.wf() && m@ == self@.window(
                row_begin as int,
                row as nat,
                col_begin as int,
                col as nat,
            )),
    ;
}

/// Construction by shape.
pub trait MatrixInit<T: Group>: ConstMatrix<T> {
    /// A matrix of `row` by `col` cells, each at the additive identity.
    fn new(row: usize, col: usize) -> (m: Self)
        requires
            Self::shape_fits(row as nat, col as nat),
        ensures
            m.wf(),
            m@ == Self::fresh(row as nat, col as nat),
    ;
}

/// What an operation on row `i` answers with `rows` rows: the error where
/// `i` is no row, nothing where it is one.
pub open spec fn row_error(i: usize, rows: nat) -> Option<MatrixError> {
    if i >= rows {
        Some(out_of_range(i, rows))
    } else {
        None
    }
}

/// What an operation on cell `(row, col)` answers with `rows` by `cols`
/// cells: the row is tested first.
pub open spec fn cell_error(row: usize, col: usize, rows: nat, cols: nat) -> Option<MatrixError> {
    if row >= rows {
        Some(out_of_range(row, rows))
    } else if col >= cols {
        Some(out_of_range(col, cols))
    } else {
        None
    }
}

/// What an operation on rows `i` and `j` answers: `i` is tested first.
pub open spec fn row_pair_error(i: usize, j: usize, rows: nat) -> Option<MatrixError> {
    if i >= rows {
        Some(out_of_range(i, rows))
    } else if j >= rows {
        Some(out_of_range(j, rows))
    } else {
        None
    }
}

/// What writing a block of `block_rows` by `block_cols` cells at
/// `(row_begin, col_begin)` answers: the rows are tested first.
pub open spec fn block_error(
    row_begin: usize,
    block_rows: nat,
    col_begin: usize,
    block_cols: nat,
    rows: nat,
    cols: nat,
) -> Option<MatrixError> {
    if row_begin + block_rows > rows {
        Some(out_of_range(first_outside(row_begin, rows as usize), rows))
    } else if col_begin + block_cols > cols {
        Some(out_of_range(first_outside(col_begin, cols as usize), cols))
    } else {
        None
    }
}

/// Row iteration: a cursor over the explicit cells of one row.
pub trait MatrixIterator<'a, T: Group, I>: ConstMatrix<T> {
    /// The cells that the cursor `it` has yet to hand out, each as row,
    /// column and value.
    spec fn remaining(it: &I) -> Seq<(int, int, T)>;

    /// A cursor placed before the first explicit cell of `row`; it hands
    /// out the explicit cells of the row by ascending column. Each call
    /// starts anew.
    fn get_iterator<'b: 'a>(&'b self, row: usize) -> (res: Result<I, MatrixError>)
        requires
            self.wf(),
        ensures
            row >= self@.rows ==> res == Err::<I, MatrixError>(out_of_range(row, self@.rows)),
            row < self@.rows ==> (res matches Ok(it) && Self::remaining(&it) == self@.row_cells(
                row as int,
            )),
    ;
}

/// The result of a mutation: the error, or none.
pub open spec fn outcome(e: Option<MatrixError>) -> Result<(), MatrixError> {
    match e {
        Some(e) => Err(e),
        None => Ok(()),
    }
}

/// What cell `(row, col)` of `m` stands for: its explicit value, or the
/// additive identity where it has none or lies outside the matrix.
pub fn value_at<T: Group, M: ConstMatrix<T>>(m: &M, row: usize, col: usize) -> (v: T)
    requires
        m.wf(),
    ensures
        v == m@.at(row as int, col as int),
{
    proof {
        m.lemma_wf();
    }
    match m.get(row, col) {
        Ok(Some(v)) => *v,
        _ => T::get_identity_add(),
    }
}

/// What `inverse` answers with for an operand of `rows` by `cols` cells
/// that it does not invert.
pub open spec fn inverse_error(rows: nat, cols: nat) -> MatrixError {
    if rows != cols {
        MatrixError::ShapeMismatch { expected: rows as usize, found: cols as usize }
    } else {
        MatrixError::SingularMatrix
    }
}

/// Mutation of a matrix: single cells and the three elementary row
/// transforms. An operation that answers with an error leaves the matrix
/// as it was.
pub trait Matrix<T: Group>: MatrixInit<T> + Clone {
    /// A clone has the shape and the cells of its origin.
    proof fn lemma_clone(&self, other: &Self)
        requires
            self.wf(),
            cloned(*self, *other),
        ensures
            other.wf(),
            other@ == self@,
    ;

    /// Overwrites `(row, col)` with `value`.
    fn set(&mut self, row: usize, col: usize, value: T) -> (res: Result<(), MatrixError>)
        requires
            old(self).wf(),
        ensures
            final(self).wf(),
            res == outcome(cell_error(row, col, old(self)@.rows, old(self)@.cols)),
            res.is_err() ==> final(self)@ == old(self)@,
            res.is_ok() ==> final(self)@ == old(self)@.with_cell(row as int, col as int, value),
    ;

    /// Accumulates `value` onto `(row, col)`: an explicit cell holds its
    /// old value plus `value`, an implicit one becomes explicit with `value`.
    fn add(&mut self, row: usize, col: usize, value: T) -> (res: Result<(), MatrixError>)
        requires
            old(self).wf(),
        ensures
            final(self).wf(),
            res == outcome(cell_error(row, col, old(self)@.rows, old(self)@.cols)),
            res.is_err() ==> final(self)@ == old(self)@,
            res.is_ok() ==> final(self)@ == old(self)@.accumulate(row as int, col as int, value),
    ;

    /// Exchanges rows `row_i` and `row_j`.
    fn element_row_transform_swap(&mut self, row_i: usize, row_j: usize) -> (res: Result<
        (),
        MatrixError,
    >)
        requires
            old(self).wf(),
        ensures
            final(self).wf(),
            res == outcome(row_pair_error(row_i, row_j, old(self)@.rows)),
            res.is_err() ==> final(self)@ == old(self)@,
            res.is_ok() ==> final(self)@ == old(self)@.swap_rows(row_i as int, row_j as int),
    ;

    /// Multiplies every explicit cell of `row` by `k`.
    fn element_row_transform_multi(&mut self, row: usize, k: T) -> (res: Result<(), MatrixError>)
        requires
            old(self).wf(),
        ensures
            final(self).wf(),
            res == outcome(row_error(row, old(self)@.rows)),
            res.is_err() ==> final(self)@ == old(self)@,
            res.is_ok() ==> final(self)@ == old(self)@.scale_row(row as int, k),
    ;

    /// Adds `k` times row `row_j` to row `row_i`; row `row_j` stays as it is
    /// (unless it is row `row_i` itself).
    fn element_row_transform_plus(&mut self, row_i: usize, row_j: usize, k: T) -> (res: Result<
        (),
        MatrixError,
    >)
        requires
            old(self).wf(),
        ensures
            final(self).wf(),
            res == outcome(row_pair_error(row_i, row_j, old(self)@.rows)),
            res.is_err() ==> final(self)@ == old(self)@,
            res.is_ok() ==> final(self)@ == old(self)@.add_scaled_row(
                row_i as int,
                row_j as int,
                k,
            ),
    ;

    /// Writes the cells of `m` over the rectangle of `self` whose first
    /// cell is `(row_begin, col_begin)`. Every cell under `m` becomes
    /// explicit; where `m` has no explicit value, the additive identity is
    /// written. Where `m` does not fit, nothing is written.
    fn set_from_matrix<T2: ConstMatrix<T>>(
        &mut self,
        row_begin: usize,
        col_begin: usize,
        m: &T2,
    ) -> (res: Result<(), MatrixError>)
        requires
            old(self).wf(),
            m.wf(),
        ensures
            final(self).wf(),
            res == outcome(
                block_error(
                    row_begin,
                    m@.rows,
                    col_begin,
                    m@.cols,
                    old(self)@.rows,
                    old(self)@.cols,
                ),
            ),
            res.is_err() ==> final(self)@ == old(self)@,
            res.is_ok() ==> final(self)@ == old(self)@.overlay(row_begin as int, col_begin as int, m@),
    {
        let rows = self.get_row();
        let cols = self.get_column();
        let block_rows = m.get_row();
        let block_cols = m.get_column();
        if block_rows > rows || row_begin > rows - block_rows {
            return Err(
                MatrixError::OutOfRange {
                    index: if row_begin >= rows {
                        row_begin
                    } else {
                        rows
                    },
                    extent: rows,
                },
            );
        }
        if block_cols > cols || col_begin > cols - block_cols {
            return Err(
                MatrixError::OutOfRange {
                    index: if col_begin >= cols {
                        col_begin
                    } else {
                        cols
                    },
                    extent: cols,
                },
            );
        }
        proof {
            assert(self@.cells =~= old(self)@.overlay_partial(
                row_begin as int,
                col_begin as int,
                m@,
                0,
                0,
            ).cells);
        }
        let mut i: usize = 0;
        while i < block_rows
            invariant
                self.wf(),
                m.wf(),
                self@.rows == rows,
                self@.cols == cols,
                old(self)@.rows == rows,
                old(self)@.cols == cols,
                m@.rows == block_rows,
                m@.cols == block_cols,
                row_begin + block_rows <= rows,
                col_begin + block_cols <= cols,
                i <= block_rows,
                self@ == old(self)@.overlay_partial(
                    row_begin as int,
                    col_begin as int,
                    m@,
                    i as int,
                    0,
                ),
            decreases block_rows - i,
        {
            let mut j: usize = 0;
            while j < block_cols
                invariant
                    self.wf(),
                    m.wf(),
                    self@.rows == rows,
                    self@.cols == cols,
                    old(self)@.rows == rows,
                    old(self)@.cols == cols,
                    m@.rows == block_rows,
                    m@.cols == block_cols,
                    row_begin + block_rows <= rows,
                    col_begin + block_cols <= cols,
                    i < block_rows,
                    j <= block_cols,
                    self@ == old(self)@.overlay_partial(
                        row_begin as int,
                        col_begin as int,
                        m@,
                        i as int,
                        j as int,
                    ),
                decreases block_cols - j,
            {
                let value = value_at(m, i, j);
                let ghost before = self@;
                let written = self.set(i + row_begin, j + col_begin, value);
                proof {
                    assert(self@.cells =~= old(self)@.overlay_partial(
                        row_begin as int,
                        col_begin as int,
                        m@,
                        i as int,
                        j + 1,
                    ).cells);
                }
                j += 1;
            }
            proof {
                assert(self@.cells =~= old(self)@.overlay_partial(
                    row_begin as int,
                    col_begin as int,
                    m@,
                    i + 1,
                    0,
                ).cells);
            }
            i += 1;
        }
        proof {
            assert(self@.cells =~= old(self)@.overlay(row_begin as int, col_begin as int, m@).cells);
        }
        Ok(())
    }

    /// The identity matrix of `rc` rows.
    fn get_identity_matrix(rc: usize) -> (m: Self)
        requires
            Self::shape_fits(rc as nat, rc as nat),
        ensures
            m.wf(),
            m@ == Self::fresh(rc as nat, rc as nat).with_ones(rc as nat),
            is_identity(m@, rc as nat),
    {
        let mut m = Self::new(rc, rc);
        proof {
            Self::lemma_fresh(rc as nat, rc as nat);
            assert(m@.cells =~= Self::fresh(rc as nat, rc as nat).with_ones(0).cells);
        }
        let mut i: usize = 0;
        while i < rc
            invariant
                m.wf(),
                i <= rc,
                m@ == Self::fresh(rc as nat, rc as nat).with_ones(i as nat),
                Self::fresh(rc as nat, rc as nat).rows == rc,
                Self::fresh(rc as nat, rc as nat).cols == rc,
            decreases rc - i,
        {
            let one = T::get_identity_mul();
            let done = m.set(i, i, one);
            proof {
                assert(m@.cells =~= Self::fresh(rc as nat, rc as nat).with_ones(
                    (i + 1) as nat,
                ).cells);
            }
            i += 1;
        }
        proof {
            assert forall|r: int, c: int| 0 <= r < rc && 0 <= c < rc implies #[trigger] m@.at(
                r,
                c,
            ) == (if r == c {
                T::one()
            } else {
                T::zero()
            }) by {
                assert(Self::fresh(rc as nat, rc as nat).at(r, c) == T::zero());
            }
        }
        m
    }

    /// The inverse of `self`, by Gauss-Jordan elimination on a copy: `self`
    /// stays as it is. The answer is `Ok` exactly for a square matrix that
    /// has an inverse; the matrix returned is that inverse, on both sides.
    /// A pivot is the first cell of its column, from the diagonal down,
    /// that differs from the additive identity. A matrix of one cell is
    /// answered at once, with the multiplicative inverse of that cell; where
    /// the cell is the additive identity the matrix is singular like any
    /// other without a pivot.
    fn inverse(&self) -> (res: Result<Self, MatrixError>)
        requires
            self.wf(),
        ensures
            res.is_ok() <==> self@.rows == self@.cols && !singular(self@.grid(), self@.rows),
            res matches Ok(r) ==> r.wf() && r@.rows == self@.rows && r@.cols == self@.cols
                && is_inverse(r@.grid(), self@.grid(), self@.rows),
            res matches Err(e) ==> e == inverse_error(self@.rows, self@.cols),
    {
        let n = self.get_row();
        let cols = self.get_column();
        if n != cols {
            return Err(MatrixError::ShapeMismatch { expected: n, found: cols });
        }
        proof {
            self.lemma_wf();
            T::lemma_operators();
        }
        let zero = T::get_identity_add();
        if n == 1 {
            let sole = value_at(self, 0, 0);
            match sole.get_inverse_mul() {
                Ok(inverse_of_sole) => {
                    let mut m = self.clone();
                    proof {
                        self.lemma_clone(&m);
                    }
                    let written = m.set(0, 0, inverse_of_sole);
                    proof {
                        lemma_at_with_cell(self@, 0, 0, inverse_of_sole, 0, 0);
                        lemma_one_by_one(self@, m@);
                        if singular(self@.grid(), 1) {
                            lemma_singular_has_no_inverse(self@.grid(), m@.grid(), 1);
                        }
                    }
                    return Ok(m);
                },
                Err(_) => {
                    proof {
                        lemma_one_by_one_singular(self@);
                    }
                    return Err(MatrixError::SingularMatrix);
                },
            }
        }
        let mut myself = self.clone();
        proof {
            self.lemma_clone(&myself);
        }
        let mut result = Self::get_identity_matrix(n);
        let ghost mut q = identity::<T>(n as nat);
        proof {
            lemma_initial(self@, result@, n as nat);
        }
        let mut i: usize = 0;
        while i < n
            invariant
                self.wf(),
                myself.wf(),
                result.wf(),
                n == self@.rows,
                i <= n,
                zero == T::zero(),
                linked(result@, myself@, self@, q, n as nat),
                reduced_below(myself@, n as nat, i as int),
                T::obeys_eq_spec(),
                T::obeys_mul_spec(),
                forall|a: T, b: T| #[trigger] a.mul_req(b),
                forall|a: T, b: T| #[trigger] a.eq_spec(&b) <==> a == b,
            decreases n - i,
        {
            let mut pivot = value_at(&myself, i, i);
            if pivot == zero {
                let mut j: usize = i + 1;
                let mut found = false;
                while j < n && !found
                    invariant
                        self.wf(),
                        myself.wf(),
                        result.wf(),
                        n == self@.rows,
                        i < j <= n,
                        zero == T::zero(),
                        linked(result@, myself@, self@, q, n as nat),
                        reduced_below(myself@, n as nat, i as int),
                        !found ==> clear_between(myself@, i as int, i as int, j as int),
                        found ==> myself@.at(i as int, i as int) != T::zero(),
                        T::obeys_eq_spec(),
                        forall|a: T, b: T| #[trigger] a.eq_spec(&b) <==> a == b,
                    decreases n - j + (if found { 0int } else { 1int }),
                {
                    let candidate = value_at(&myself, j, i);
                    if candidate != zero {
                        proof {
                            lemma_linked_swap(
                                result@,
                                myself@,
                                self@,
                                q,
                                n as nat,
                                i as int,
                                j as int,
                            );
                            lemma_step_swap(myself@, n as nat, i as int, j as int);
                            q = swap_columns(q, i as int, j as int);
                        }
                        let swapped_w = myself.element_row_transform_swap(i, j);
                        let swapped_r = result.element_row_transform_swap(i, j);
                        found = true;
                    } else {
                        j += 1;
                    }
                }
                if !found {
                    proof {
                        lemma_no_pivot(q, myself@, self@, n as nat, i as int);
                    }
                    return Err(MatrixError::SingularMatrix);
                }
                pivot = value_at(&myself, i, i);
            }
            let inverse_of_pivot = match pivot.get_inverse_mul() {
                Ok(p) => p,
                Err(e) => {
                    return Err(e);
                },
            };
            let mut j: usize = i + 1;
            while j < n
                invariant
                    self.wf(),
                    myself.wf(),
                    result.wf(),
                    n == self@.rows,
                    i < j <= n,
                    zero == T::zero(),
                    pivot != T::zero(),
                    pivot == myself@.at(i as int, i as int),
                    inverse_of_pivot == pivot.recip(),
                    linked(result@, myself@, self@, q, n as nat),
                    reduced_below(myself@, n as nat, i as int),
                    clear_between(myself@, i as int, i + 1, j as int),
                    T::obeys_eq_spec(),
                    T::obeys_mul_spec(),
                    forall|a: T, b: T| #[trigger] a.mul_req(b),
                    forall|a: T, b: T| #[trigger] a.eq_spec(&b) <==> a == b,
                decreases n - j,
            {
                let below = value_at(&myself, j, i);
                if below != zero {
                    let k = (below * inverse_of_pivot).get_inverse_add();
                    proof {
                        lemma_linked_add_scaled(
                            result@,
                            myself@,
                            self@,
                            q,
                            n as nat,
                            j as int,
                            i as int,
                            k,
                        );
                        lemma_step_eliminate(myself@, n as nat, i as int, j as int, k);
                        q = add_scaled_column(q, i as int, j as int, k.neg());
                    }
                    let added_w = myself.element_row_transform_plus(j, i, k);
                    let added_r = result.element_row_transform_plus(j, i, k);
                }
                j += 1;
            }
            proof {
                lemma_recip_nonzero(pivot);
                lemma_linked_scale(
                    result@,
                    myself@,
                    self@,
                    q,
                    n as nat,
                    i as int,
                    inverse_of_pivot,
                );
                lemma_step_normalize(myself@, n as nat, i as int, inverse_of_pivot);
                q = scale_column(q, i as int, inverse_of_pivot.recip());
            }
            let scaled_w = myself.element_row_transform_multi(i, inverse_of_pivot);
            let scaled_r = result.element_row_transform_multi(i, inverse_of_pivot);
            i += 1;
        }
        let mut i: usize = 1;
        while i < n
            invariant
                self.wf(),
                myself.wf(),
                result.wf(),
                n == self@.rows,
                1 <= i,
                linked(result@, myself@, self@, q, n as nat),
                reduced_below(myself@, n as nat, n as int),
                reduced_above(myself@, i as int),
            decreases n - i,
        {
            let mut j: usize = i;
            while j > 0
                invariant
                    self.wf(),
                    myself.wf(),
                    result.wf(),
                    n == self@.rows,
                    j <= i < n,
                    linked(result@, myself@, self@, q, n as nat),
                    reduced_below(myself@, n as nat, n as int),
                    reduced_above(myself@, i as int),
                    clear_between(myself@, i as int, j as int, i as int),
                decreases j,
            {
                j -= 1;
                let k = value_at(&myself, j, i).get_inverse_add();
                proof {
                    lemma_linked_add_scaled(
                        result@,
                        myself@,
                        self@,
                        q,
                        n as nat,
                        j as int,
                        i as int,
                        k,
                    );
                    lemma_step_back(myself@, n as nat, i as int, j as int, k);
                    q = add_scaled_column(q, i as int, j as int, k.neg());
                }
                let added_w = myself.element_row_transform_plus(j, i, k);
                let added_r = result.element_row_transform_plus(j, i, k);
            }
            i += 1;
        }
        proof {
            lemma_identity_reached(myself@, n as nat);
            lemma_inverse_found(result@, myself@, self@, q, n as nat);
            if singular(self@.grid(), n as nat) {
                lemma_singular_has_no_inverse(self@.grid(), result@.grid(), n as nat);
            }
        }
        Ok(result)
    }
}

} // verus!

use vstd::prelude::*;
use vstd::std_specs::ops::AddSpec;
use vstd::std_specs::ops::MulSpec;
use crate::field::{lemma_zero_add, Group};
use crate::gauss::lemma_singular_has_no_inverse;
use crate::linear::{
    column, dot, identity, is_grid, is_inverse, lemma_associative, lemma_dot_unit_left,
    lemma_dot_unit_right, mat_vec, product, singular, unit, vec_mat,
};
use crate::view::{
    lemma_at_accumulate, lemma_at_add_scaled_row, lemma_at_overlay, lemma_at_window, MatrixView,
};

verus! {

// What holds of the operations taken together, stated over the views that
// their contracts speak of.

/// A cell that was overwritten with `v` is explicit and holds `v`; every
/// other cell is as it was.
pub proof fn lemma_get_after_set<T: Group>(m: MatrixView<T>, row: int, col: int, v: T)
    ensures
        m.with_cell(row, col, v).entry(row, col) == Some(v),
        forall|r: int, c: int|
            !(r == row && c == col) ==> #[trigger] m.with_cell(row, col, v).entry(r, c) == m.entry(
                r,
                c,
            ),
{
}

/// After `v1` and then `v2` were accumulated onto a cell, the cell is
/// explicit and holds its old value plus `v1` plus `v2`: `v1 + v2` where it
/// stood for the additive identity before.
pub proof fn lemma_get_after_two_adds<T: Group>(m: MatrixView<T>, row: int, col: int, v1: T, v2: T)
    ensures
        m.accumulate(row, col, v1).accumulate(row, col, v2).entry(row, col) == Some(
            m.at(row, col).add_spec(v1).add_spec(v2),
        ),
        m.at(row, col) == T::zero() ==> m.accumulate(row, col, v1).accumulate(row, col, v2).entry(
            row,
            col,
        ) == Some(v1.add_spec(v2)),
{
    lemma_at_accumulate(m, row, col, v1, row, col);
    lemma_at_accumulate(m.accumulate(row, col, v1), row, col, v2, row, col);
    lemma_zero_add(v1);
}

/// Exchanging two rows twice restores the matrix.
pub proof fn lemma_swap_twice<T: Group>(m: MatrixView<T>, i: int, j: int)
    ensures
        m.swap_rows(i, j).swap_rows(i, j) == m,
{
    assert(m.swap_rows(i, j).swap_rows(i, j).cells =~= m.cells);
}

/// A matrix has one inverse at most: where `l` times `a` and `a` times `r`
/// are both the identity, `l` and `r` are equal.
pub proof fn lemma_inverse_unique<T: Group>(l: Seq<Seq<T>>, a: Seq<Seq<T>>, r: Seq<Seq<T>>, n: nat)
    requires
        is_grid(l, n, n),
        is_grid(a, n, n),
        is_grid(r, n, n),
        product(l, a, n) == identity::<T>(n),
        product(a, r, n) == identity::<T>(n),
    ensures
        l == r,
{
    assert forall|i: int| 0 <= i < n implies #[trigger] l[i] == r[i] by {
        assert forall|j: int| 0 <= j < n implies l[i][j] == r[i][j] by {
            // l[i][j] == l[i] . (a r)[..][j] == (l[i] a) . r[..][j] == r[i][j]
            let x = column(r, j);
            assert forall|t: int| 0 <= t < n implies mat_vec(a, x)[t] == unit::<T>(n, j)[t] by {
                assert(product(a, r, n)[t][j] == dot(a[t], column(r, j)));
                assert(identity::<T>(n)[t][j] == unit::<T>(n, t)[j]);
            }
            assert(mat_vec(a, x) =~= unit::<T>(n, j));
            assert forall|t: int| 0 <= t < n implies vec_mat(l[i], a, n)[t] == unit::<T>(n, i)[t] by {
                assert(product(l, a, n)[i][t] == dot(l[i], column(a, t)));
                assert(identity::<T>(n)[i][t] == unit::<T>(n, i)[t]);
            }
            assert(vec_mat(l[i], a, n) =~= unit::<T>(n, i));
            lemma_associative(l[i], a, x);
            lemma_dot_unit_right(l[i], j);
            lemma_dot_unit_left(x, i);
        }
        assert(l[i] =~= r[i]);
    }
    assert(l =~= r);
}

/// Inverting twice gives the matrix back: where `r` is the inverse of `m`,
/// `r` has an inverse, and every inverse of `r` is `m`.
pub proof fn lemma_inverse_round_trip<T: Group>(m: Seq<Seq<T>>, r: Seq<Seq<T>>, back: Seq<Seq<T>>, n: nat)
    requires
        is_inverse(r, m, n),
    ensures
        !singular(r, n),
        is_inverse(back, r, n) ==> back == m,
{
    if singular(r, n) {
        lemma_singular_has_no_inverse(r, m, n);
    }
    if is_inverse(back, r, n) {
        lemma_inverse_unique(back, r, m, n);
    }
}

/// Adding `k` times one row to another by merging the explicit cells of
/// both gives what adding the two rows written out in full gives: two
/// matrices that stand for the same two rows stand for the same target row
/// afterwards, and a cell of the merged row is explicit exactly where it
/// was explicit in one of the two rows.
pub proof fn lemma_merge_matches_full_rows<T: Group>(
    sparse: MatrixView<T>,
    dense: MatrixView<T>,
    dst: int,
    src: int,
    k: T,
)
    requires
        forall|c: int| #[trigger] sparse.at(dst, c) == dense.at(dst, c),
        forall|c: int| #[trigger] sparse.at(src, c) == dense.at(src, c),
    ensures
        forall|c: int| #[trigger]
            sparse.add_scaled_row(dst, src, k).at(dst, c) == dense.add_scaled_row(dst, src, k).at(
                dst,
                c,
            ),
        forall|c: int| #[trigger]
            sparse.add_scaled_row(dst, src, k).at(dst, c) == sparse.at(dst, c).add_spec(
                sparse.at(src, c).mul_spec(k),
            ),
        forall|c: int| #[trigger]
            sparse.add_scaled_row(dst, src, k).cells.contains_key((dst, c)) == (
            sparse.cells.contains_key((dst, c)) || sparse.cells.contains_key((src, c))),
{
    assert forall|c: int| #[trigger]
        sparse.add_scaled_row(dst, src, k).at(dst, c) == dense.add_scaled_row(dst, src, k).at(
            dst,
            c,
        ) && sparse.add_scaled_row(dst, src, k).at(dst, c) == sparse.at(dst, c).add_spec(
            sparse.at(src, c).mul_spec(k),
        ) by {
        lemma_at_add_scaled_row(sparse, dst, src, k, dst, c);
        lemma_at_add_scaled_row(dense, dst, src, k, dst, c);
        assert(sparse.at(dst, c) == dense.at(dst, c));
        assert(sparse.at(src, c) == dense.at(src, c));
    }
}

/// A rectangle that was taken out of `m` and written into `target` at the
/// place it came from makes `target` stand, under the rectangle, for what
/// `m` stands for there; the rest of `target` is as it was. Written back
/// into a matrix `m` that holds every cell, it restores `m` exactly.
pub proof fn lemma_window_written_back<T: Group>(
    m: MatrixView<T>,
    target: MatrixView<T>,
    row_begin: int,
    rows: nat,
    col_begin: int,
    cols: nat,
)
    requires
        m.well_formed(),
        0 <= row_begin,
        0 <= col_begin,
        row_begin + rows <= m.rows,
        col_begin + cols <= m.cols,
    ensures
        forall|r: int, c: int|
            row_begin <= r < row_begin + rows && col_begin <= c < col_begin + cols
                ==> #[trigger] target.overlay(
                row_begin,
                col_begin,
                m.window(row_begin, rows, col_begin, cols),
            ).at(r, c) == m.at(r, c),
        forall|r: int, c: int|
            !(row_begin <= r < row_begin + rows && col_begin <= c < col_begin + cols)
                ==> #[trigger] target.overlay(
                row_begin,
                col_begin,
                m.window(row_begin, rows, col_begin, cols),
            ).entry(r, c) == target.entry(r, c),
        m.is_full() ==> m.overlay(row_begin, col_begin, m.window(row_begin, rows, col_begin, cols))
            == m,
{
    let w = m.window(row_begin, rows, col_begin, cols);
    assert forall|r: int, c: int|
        row_begin <= r < row_begin + rows && col_begin <= c < col_begin + cols implies #[trigger] target.overlay(
        row_begin,
        col_begin,
        w,
    ).at(r, c) == m.at(r, c) by {
        lemma_at_overlay(target, row_begin, col_begin, w, r, c);
        lemma_at_window(m, row_begin, rows, col_begin, cols, r - row_begin, c - col_begin);
    }
    if m.is_full() {
        assert forall|k: (int, int)|
            #![trigger m.overlay(row_begin, col_begin, w).cells.dom().contains(k)]
            #![trigger m.cells.dom().contains(k)]
            m.overlay(row_begin, col_begin, w).cells.dom().contains(k) == m.cells.dom().contains(
                k,
            ) && (m.cells.dom().contains(k) ==> m.overlay(row_begin, col_begin, w).cells[k]
                == m.cells[k]) by {
            if w.in_range(k.0 - row_begin, k.1 - col_begin) {
                assert(m.in_range(k.0, k.1));
                assert(m.cells.contains_key((k.0, k.1)));
            }
        }
        assert(m.overlay(row_begin, col_begin, w).cells =~= m.cells);
    }
}

} // verus!

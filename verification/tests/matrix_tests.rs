use matrix_kernel::dense_matrix::DenseMatrix;
use matrix_kernel::error::MatrixError;
use matrix_kernel::field::Group;
use matrix_kernel::matrix_base::{value_at, ConstMatrix, Matrix, MatrixInit, MatrixIterator};
use matrix_kernel::sparse_matrix::{merge_rows, Item};
use matrix_kernel::vector::Vector;
use matrix_kernel::sparse_matrix::SparseMatrix;
use std::ops::{Add, Mul};

const P: u64 = 1_000_000_007;

/// The integers modulo the prime `P`: an exact field.
#[derive(Clone, Copy, Debug, PartialEq)]
struct Fp(u64);

impl Add for Fp {
    type Output = Fp;
    fn add(self, other: Fp) -> Fp {
        Fp((self.0 + other.0) % P)
    }
}

impl Mul for Fp {
    type Output = Fp;
    fn mul(self, other: Fp) -> Fp {
        Fp((self.0 * other.0) % P)
    }
}

fn power(base: Fp, mut e: u64) -> Fp {
    let mut b = base;
    let mut r = Fp(1);
    while e > 0 {
        if e & 1 == 1 {
            r = r * b;
        }
        b = b * b;
        e >>= 1;
    }
    r
}

impl Group for Fp {
    fn zero() -> Fp {
        Fp(0)
    }

    fn one() -> Fp {
        Fp(1)
    }

    fn neg(self) -> Fp {
        Fp((P - self.0) % P)
    }

    fn recip(self) -> Fp {
        power(self, P - 2)
    }

    fn lemma_operators() {
    }

    fn lemma_add_associative(_a: Fp, _b: Fp, _c: Fp) {
    }

    fn lemma_add_commutative(_a: Fp, _b: Fp) {
    }

    fn lemma_add_identity(_a: Fp) {
    }

    fn lemma_add_inverse(_a: Fp) {
    }

    fn lemma_mul_associative(_a: Fp, _b: Fp, _c: Fp) {
    }

    fn lemma_mul_commutative(_a: Fp, _b: Fp) {
    }

    fn lemma_mul_identity(_a: Fp) {
    }

    fn lemma_mul_inverse(_a: Fp) {
    }

    fn lemma_distributive(_a: Fp, _b: Fp, _c: Fp) {
    }

    fn lemma_nontrivial() {
    }

    fn get_inverse_mul(&self) -> Result<Fp, MatrixError> {
        if self.0 == 0 {
            Err(MatrixError::DivisionByZero)
        } else {
            Ok(power(*self, P - 2))
        }
    }

    fn get_identity_mul() -> Fp {
        Fp(1)
    }

    fn get_identity_add() -> Fp {
        Fp(0)
    }

    fn get_inverse_add(&self) -> Fp {
        Fp((P - self.0) % P)
    }
}

fn fp(v: i64) -> Fp {
    Fp(v.rem_euclid(P as i64) as u64)
}


fn dense(rows: &[&[i64]]) -> DenseMatrix<Fp> {
    let mut m: DenseMatrix<Fp> = DenseMatrix::new(rows.len(), rows[0].len());
    for (r, row) in rows.iter().enumerate() {
        for (c, v) in row.iter().enumerate() {
            m.set(r, c, fp(*v)).unwrap();
        }
    }
    m
}

/// Only the values that differ from zero become explicit cells.
fn sparse(rows: &[&[i64]]) -> SparseMatrix<Fp> {
    let mut m: SparseMatrix<Fp> = SparseMatrix::new(rows.len(), rows[0].len());
    for (r, row) in rows.iter().enumerate() {
        for (c, v) in row.iter().enumerate() {
            if *v != 0 {
                m.set(r, c, fp(*v)).unwrap();
            }
        }
    }
    m
}

fn values<M: ConstMatrix<Fp>>(m: &M) -> Vec<Vec<Fp>> {
    let mut out = Vec::new();
    for r in 0..m.get_row() {
        let mut row = Vec::new();
        for c in 0..m.get_column() {
            row.push(value_at(m, r, c));
        }
        out.push(row);
    }
    out
}

fn expected(rows: &[&[i64]]) -> Vec<Vec<Fp>> {
    rows.iter().map(|row| row.iter().map(|v| fp(*v)).collect()).collect()
}

fn multiply<A: ConstMatrix<Fp>, B: ConstMatrix<Fp>>(a: &A, b: &B) -> Vec<Vec<Fp>> {
    let mut out = Vec::new();
    for i in 0..a.get_row() {
        let mut row = Vec::new();
        for j in 0..b.get_column() {
            let mut sum = Fp(0);
            for t in 0..a.get_column() {
                sum = sum + value_at(a, i, t) * value_at(b, t, j);
            }
            row.push(sum);
        }
        out.push(row);
    }
    out
}

fn identity_values(n: usize) -> Vec<Vec<Fp>> {
    (0..n).map(|r| (0..n).map(|c| if r == c { Fp(1) } else { Fp(0) }).collect()).collect()
}

fn explicit_cells(m: &SparseMatrix<Fp>, row: usize) -> Vec<(usize, usize, Fp)> {
    let mut out = Vec::new();
    let mut it = m.get_iterator(row).unwrap();
    while let Some(cell) = it.next() {
        out.push((cell.get_row(), cell.get_col(), *cell.get_v()));
    }
    out
}

fn all_cells(m: &DenseMatrix<Fp>, row: usize) -> Vec<(usize, usize, Fp)> {
    let mut out = Vec::new();
    let mut it = m.get_iterator(row).unwrap();
    while let Some(cell) = it.next() {
        out.push((cell.get_row(), cell.get_col(), *cell.get_v()));
    }
    out
}

#[test]
fn field_inverse_of_zero_is_division_by_zero() {
    assert_eq!(Fp(0).get_inverse_mul(), Err(MatrixError::DivisionByZero));
    assert_eq!(Fp(2).get_inverse_mul(), Ok(Fp(500_000_004)));
    assert_eq!(Fp(2) * Fp(500_000_004), Fp(1));
    assert_eq!(Fp(5) + Fp(5).get_inverse_add(), Fp(0));
    assert_eq!(Fp::get_identity_add(), Fp(0));
    assert_eq!(Fp::get_identity_mul(), Fp(1));
}

#[test]
fn dense_new_is_all_zero() {
    let m: DenseMatrix<Fp> = DenseMatrix::new(2, 3);
    assert_eq!(m.get_row(), 2);
    assert_eq!(m.get_column(), 3);
    assert_eq!(values(&m), expected(&[&[0, 0, 0], &[0, 0, 0]]));
    assert_eq!(m.get(1, 2), Ok(Some(&Fp(0))));
}

#[test]
fn sparse_new_has_no_explicit_cell() {
    let m: SparseMatrix<Fp> = SparseMatrix::new(2, 3);
    assert_eq!(m.get_row(), 2);
    assert_eq!(m.get_column(), 3);
    for r in 0..2 {
        for c in 0..3 {
            assert_eq!(m.get(r, c), Ok(None));
            assert_eq!(value_at(&m, r, c), Fp(0));
        }
        assert_eq!(explicit_cells(&m, r), vec![]);
    }
}

#[test]
fn dense_get_index_is_row_major() {
    let m: DenseMatrix<Fp> = DenseMatrix::new(4, 5);
    assert_eq!(m.get_index(0, 0), 0);
    assert_eq!(m.get_index(2, 3), 13);
    assert_eq!(m.get_index(3, 4), 19);
}

#[test]
fn dense_get_after_set() {
    let mut m: DenseMatrix<Fp> = DenseMatrix::new(3, 4);
    for r in 0..3 {
        for c in 0..4 {
            let v = Fp((10 * r + c + 1) as u64);
            assert_eq!(m.set(r, c, v), Ok(()));
            assert_eq!(m.get(r, c), Ok(Some(&v)));
        }
    }
    assert_eq!(values(&m), expected(&[&[1, 2, 3, 4], &[11, 12, 13, 14], &[21, 22, 23, 24]]));
    assert_eq!(m.set(1, 2, Fp(0)), Ok(()));
    assert_eq!(m.get(1, 2), Ok(Some(&Fp(0))));
    assert_eq!(m.get(1, 1), Ok(Some(&Fp(12))));
}

#[test]
fn sparse_get_after_set() {
    let mut m: SparseMatrix<Fp> = SparseMatrix::new(3, 4);
    for r in 0..3 {
        for c in 0..4 {
            let v = Fp((10 * r + c + 1) as u64);
            assert_eq!(m.get(r, c), Ok(None));
            assert_eq!(m.set(r, c, v), Ok(()));
            assert_eq!(m.get(r, c), Ok(Some(&v)));
        }
    }
    assert_eq!(values(&m), expected(&[&[1, 2, 3, 4], &[11, 12, 13, 14], &[21, 22, 23, 24]]));
    assert_eq!(m.set(1, 2, Fp(77)), Ok(()));
    assert_eq!(m.get(1, 2), Ok(Some(&Fp(77))));
    assert_eq!(m.get(1, 1), Ok(Some(&Fp(12))));
    assert_eq!(m.get(1, 3), Ok(Some(&Fp(14))));
}

#[test]
fn sparse_set_stores_the_additive_identity_too() {
    let mut m: SparseMatrix<Fp> = SparseMatrix::new(2, 2);
    assert_eq!(m.set(0, 1, Fp(0)), Ok(()));
    assert_eq!(m.get(0, 1), Ok(Some(&Fp(0))));
    assert_eq!(explicit_cells(&m, 0), vec![(0, 1, Fp(0))]);
}

#[test]
fn dense_get_after_two_adds() {
    let mut m: DenseMatrix<Fp> = DenseMatrix::new(3, 3);
    assert_eq!(m.add(1, 2, Fp(5)), Ok(()));
    assert_eq!(m.add(1, 2, Fp(7)), Ok(()));
    assert_eq!(m.get(1, 2), Ok(Some(&Fp(12))));
    assert_eq!(m.get(2, 1), Ok(Some(&Fp(0))));
    m.set(0, 0, Fp(100)).unwrap();
    m.add(0, 0, Fp(5)).unwrap();
    m.add(0, 0, Fp(7)).unwrap();
    assert_eq!(m.get(0, 0), Ok(Some(&Fp(112))));
}

#[test]
fn sparse_get_after_two_adds() {
    let mut m: SparseMatrix<Fp> = SparseMatrix::new(3, 3);
    assert_eq!(m.add(1, 2, Fp(5)), Ok(()));
    assert_eq!(m.get(1, 2), Ok(Some(&Fp(5))));
    assert_eq!(m.add(1, 2, Fp(7)), Ok(()));
    assert_eq!(m.get(1, 2), Ok(Some(&Fp(12))));
    assert_eq!(m.get(2, 1), Ok(None));
    m.set(0, 0, Fp(100)).unwrap();
    m.add(0, 0, Fp(5)).unwrap();
    m.add(0, 0, Fp(7)).unwrap();
    assert_eq!(m.get(0, 0), Ok(Some(&Fp(112))));
}

#[test]
fn sparse_add_that_cancels_leaves_an_explicit_zero() {
    let mut m: SparseMatrix<Fp> = SparseMatrix::new(2, 3);
    m.add(1, 1, Fp(4)).unwrap();
    m.add(1, 1, fp(-4)).unwrap();
    assert_eq!(m.get(1, 1), Ok(Some(&Fp(0))));
    assert_eq!(explicit_cells(&m, 1), vec![(1, 1, Fp(0))]);
}

#[test]
fn sparse_rows_ascend_whatever_the_order_of_writes() {
    let mut m: SparseMatrix<Fp> = SparseMatrix::new(2, 10);
    for c in [7usize, 2, 9, 0, 4] {
        m.set(1, c, Fp(c as u64 + 100)).unwrap();
    }
    m.add(1, 3, Fp(1)).unwrap();
    m.set(1, 2, Fp(55)).unwrap();
    assert_eq!(
        explicit_cells(&m, 1),
        vec![
            (1, 0, Fp(100)),
            (1, 2, Fp(55)),
            (1, 3, Fp(1)),
            (1, 4, Fp(104)),
            (1, 7, Fp(107)),
            (1, 9, Fp(109)),
        ]
    );
    assert_eq!(explicit_cells(&m, 0), vec![]);
    // a fresh cursor starts anew
    assert_eq!(explicit_cells(&m, 1).len(), 6);
}

#[test]
fn dense_cursor_hands_out_every_column() {
    let m = dense(&[&[1, 0, 3], &[0, 0, 0]]);
    assert_eq!(all_cells(&m, 0), vec![(0, 0, Fp(1)), (0, 1, Fp(0)), (0, 2, Fp(3))]);
    assert_eq!(all_cells(&m, 1), vec![(1, 0, Fp(0)), (1, 1, Fp(0)), (1, 2, Fp(0))]);
    let mut it = m.get_iterator(0).unwrap();
    for _ in 0..3 {
        assert!(it.next().is_some());
    }
    assert!(it.next().is_none());
    assert!(it.next().is_none());
    assert!(m.get_iterator(2).is_err());
}

#[test]
fn cursor_on_a_missing_row_is_out_of_range() {
    let d = dense(&[&[1, 2], &[3, 4]]);
    let s = sparse(&[&[1, 2], &[3, 4]]);
    match d.get_iterator(2) {
        Err(e) => assert_eq!(e, MatrixError::OutOfRange { index: 2, extent: 2 }),
        Ok(_) => panic!("row 2 of 2 rows"),
    }
    match s.get_iterator(5) {
        Err(e) => assert_eq!(e, MatrixError::OutOfRange { index: 5, extent: 2 }),
        Ok(_) => panic!("row 5 of 2 rows"),
    }
}

#[test]
fn swap_twice_restores_dense() {
    let start = dense(&[&[1, 2, 3], &[4, 5, 6], &[7, 8, 9]]);
    let mut m = start.clone();
    assert_eq!(m.element_row_transform_swap(0, 2), Ok(()));
    assert_eq!(values(&m), expected(&[&[7, 8, 9], &[4, 5, 6], &[1, 2, 3]]));
    assert_eq!(m.element_row_transform_swap(0, 2), Ok(()));
    assert_eq!(values(&m), values(&start));
    assert_eq!(m.element_row_transform_swap(1, 1), Ok(()));
    assert_eq!(values(&m), values(&start));
}

#[test]
fn swap_twice_restores_sparse() {
    let start = sparse(&[&[1, 0, 3], &[0, 0, 0], &[0, 8, 0]]);
    let mut m = start.clone();
    assert_eq!(m.element_row_transform_swap(0, 2), Ok(()));
    assert_eq!(values(&m), expected(&[&[0, 8, 0], &[0, 0, 0], &[1, 0, 3]]));
    // each row carries its new row index
    assert_eq!(explicit_cells(&m, 0), vec![(0, 1, Fp(8))]);
    assert_eq!(explicit_cells(&m, 2), vec![(2, 0, Fp(1)), (2, 2, Fp(3))]);
    assert_eq!(m.element_row_transform_swap(0, 2), Ok(()));
    for r in 0..3 {
        assert_eq!(explicit_cells(&m, r), explicit_cells(&start, r));
    }
    assert_eq!(m.element_row_transform_swap(2, 2), Ok(()));
    for r in 0..3 {
        assert_eq!(explicit_cells(&m, r), explicit_cells(&start, r));
    }
}

#[test]
fn scale_multiplies_one_row() {
    let mut d = dense(&[&[1, 2, 3], &[4, 5, 6]]);
    assert_eq!(d.element_row_transform_multi(1, Fp(3)), Ok(()));
    assert_eq!(values(&d), expected(&[&[1, 2, 3], &[12, 15, 18]]));
    let mut s = sparse(&[&[1, 0, 3], &[0, 5, 0]]);
    assert_eq!(s.element_row_transform_multi(0, Fp(3)), Ok(()));
    assert_eq!(explicit_cells(&s, 0), vec![(0, 0, Fp(3)), (0, 2, Fp(9))]);
    assert_eq!(explicit_cells(&s, 1), vec![(1, 1, Fp(5))]);
    // scaling by zero keeps the cells explicit
    assert_eq!(s.element_row_transform_multi(0, Fp(0)), Ok(()));
    assert_eq!(explicit_cells(&s, 0), vec![(0, 0, Fp(0)), (0, 2, Fp(0))]);
}

#[test]
fn dense_add_scaled_row() {
    let mut m = dense(&[&[1, 2, 3], &[4, 5, 6], &[7, 8, 9]]);
    assert_eq!(m.element_row_transform_plus(0, 2, Fp(2)), Ok(()));
    assert_eq!(values(&m), expected(&[&[15, 18, 21], &[4, 5, 6], &[7, 8, 9]]));
    assert_eq!(m.element_row_transform_plus(1, 1, Fp(2)), Ok(()));
    assert_eq!(values(&m), expected(&[&[15, 18, 21], &[12, 15, 18], &[7, 8, 9]]));
}

#[test]
fn merge_of_two_rows_is_exact() {
    let dst = vec![Item::new(1, Fp(10)), Item::new(4, Fp(40)), Item::new(6, Fp(60))];
    let src = vec![Item::new(0, Fp(1)), Item::new(4, Fp(2)), Item::new(9, Fp(3))];
    let out = merge_rows(&dst, &src, Fp(5));
    let got: Vec<(usize, Fp)> = out.iter().map(|e| (e.index, e.value)).collect();
    assert_eq!(got, vec![(0, Fp(5)), (1, Fp(10)), (4, Fp(50)), (6, Fp(60)), (9, Fp(15))]);
    let none: Vec<Item<Fp>> = Vec::new();
    let only_src = merge_rows(&none, &src, Fp(5));
    let got: Vec<(usize, Fp)> = only_src.iter().map(|e| (e.index, e.value)).collect();
    assert_eq!(got, vec![(0, Fp(5)), (4, Fp(10)), (9, Fp(15))]);
    let only_dst = merge_rows(&dst, &none, Fp(5));
    let got: Vec<(usize, Fp)> = only_dst.iter().map(|e| (e.index, e.value)).collect();
    assert_eq!(got, vec![(1, Fp(10)), (4, Fp(40)), (6, Fp(60))]);
    assert_eq!(merge_rows(&none, &none, Fp(5)).len(), 0);
}

#[test]
fn cell_arithmetic_keeps_the_column() {
    let a = Item::new(3, Fp(4));
    let b = a.mul(Fp(5));
    assert_eq!((b.index, b.value), (3, Fp(20)));
    let c = a.add(Item::new(3, Fp(6)));
    assert_eq!((c.index, c.value), (3, Fp(10)));
}

#[test]
fn sparse_merge_matches_dense_rows() {
    let cases: Vec<(Vec<i64>, Vec<i64>)> = vec![
        (vec![1, 0, 0, 4, 0, 6], vec![0, 2, 0, 5, 0, 0]),
        (vec![0, 0, 0, 0, 0, 0], vec![0, 2, 0, 5, 0, 7]),
        (vec![1, 0, 3, 0, 0, 0], vec![0, 0, 0, 0, 0, 0]),
        (vec![1, 2, 3, 4, 5, 6], vec![6, 5, 4, 3, 2, 1]),
        (vec![1, 0, 3, 0, 5, 0], vec![0, 2, 0, 4, 0, 6]),
        (vec![0, 0, 0, 0, 0, 9], vec![8, 0, 0, 0, 0, 0]),
        (vec![3, 0, 0, 0, 0, 0], vec![3, 0, 0, 0, 0, 0]),
    ];
    for k in [0i64, 1, 2, -1, 12345] {
        for (dst, src) in cases.iter() {
            let rows: [&[i64]; 3] = [&dst[..], &[9, 9, 9, 9, 9, 9], &src[..]];
            let mut d = dense(&rows);
            let mut s = sparse(&rows);
            assert_eq!(d.element_row_transform_plus(0, 2, fp(k)), Ok(()));
            assert_eq!(s.element_row_transform_plus(0, 2, fp(k)), Ok(()));
            assert_eq!(values(&s), values(&d));
            let cols: Vec<usize> = explicit_cells(&s, 0).iter().map(|c| c.1).collect();
            let union: Vec<usize> = (0..6).filter(|c| dst[*c] != 0 || src[*c] != 0).collect();
            assert_eq!(cols, union);
            assert_eq!(explicit_cells(&s, 2).len(), src.iter().filter(|v| **v != 0).count());
        }
    }
}

#[test]
fn sparse_add_scaled_row_onto_itself() {
    let mut s = sparse(&[&[1, 0, 3], &[0, 5, 0]]);
    assert_eq!(s.element_row_transform_plus(0, 0, Fp(2)), Ok(()));
    assert_eq!(explicit_cells(&s, 0), vec![(0, 0, Fp(3)), (0, 2, Fp(9))]);
}

#[test]
fn sub_matrix_copies_the_rectangle() {
    let rows: [&[i64]; 3] = [&[1, 2, 3, 4], &[5, 0, 7, 8], &[9, 10, 0, 12]];
    let d = dense(&rows);
    let s = sparse(&rows);
    let dw = d.get_sub_matrix(1, 2, 1, 3).unwrap();
    let sw = s.get_sub_matrix(1, 2, 1, 3).unwrap();
    assert_eq!((dw.get_row(), dw.get_column()), (2, 3));
    assert_eq!((sw.get_row(), sw.get_column()), (2, 3));
    assert_eq!(values(&dw), expected(&[&[0, 7, 8], &[10, 0, 12]]));
    assert_eq!(values(&sw), expected(&[&[0, 7, 8], &[10, 0, 12]]));
    assert_eq!(explicit_cells(&sw, 0), vec![(0, 1, Fp(7)), (0, 2, Fp(8))]);
    assert_eq!(explicit_cells(&sw, 1), vec![(1, 0, Fp(10)), (1, 2, Fp(12))]);
    let empty = d.get_sub_matrix(3, 0, 4, 0).unwrap();
    assert_eq!((empty.get_row(), empty.get_column()), (0, 0));
}

#[test]
fn sub_matrix_outside_is_out_of_range() {
    let d = dense(&[&[1, 2, 3], &[4, 5, 6]]);
    let s = sparse(&[&[1, 2, 3], &[4, 5, 6]]);
    assert_eq!(d.get_sub_matrix(1, 2, 0, 1).err(), Some(MatrixError::OutOfRange { index: 2, extent: 2 }));
    assert_eq!(s.get_sub_matrix(1, 2, 0, 1).err(), Some(MatrixError::OutOfRange { index: 2, extent: 2 }));
    assert_eq!(d.get_sub_matrix(5, 0, 0, 1).err(), Some(MatrixError::OutOfRange { index: 5, extent: 2 }));
    assert_eq!(s.get_sub_matrix(0, 1, 2, 2).err(), Some(MatrixError::OutOfRange { index: 3, extent: 3 }));
    assert_eq!(d.get_sub_matrix(0, 1, 7, 1).err(), Some(MatrixError::OutOfRange { index: 7, extent: 3 }));
    assert_eq!(
        s.get_sub_matrix(usize::MAX, 2, 0, 1).err(),
        Some(MatrixError::OutOfRange { index: usize::MAX, extent: 2 })
    );
}

#[test]
fn window_written_back_reproduces_the_region() {
    let rows: [&[i64]; 3] = [&[1, 2, 3, 4], &[5, 0, 7, 8], &[9, 10, 0, 12]];
    let d = dense(&rows);
    let s = sparse(&rows);
    let dw = d.get_sub_matrix(1, 2, 1, 3).unwrap();
    let sw = s.get_sub_matrix(1, 2, 1, 3).unwrap();
    // into the matrix it came from
    let mut d2 = d.clone();
    assert_eq!(d2.set_from_matrix(1, 1, &dw), Ok(()));
    assert_eq!(values(&d2), values(&d));
    let mut s2 = s.clone();
    assert_eq!(s2.set_from_matrix(1, 1, &sw), Ok(()));
    assert_eq!(values(&s2), values(&s));
    // into another matrix, across backends
    let mut other = dense(&[&[7, 7, 7, 7], &[7, 7, 7, 7], &[7, 7, 7, 7]]);
    assert_eq!(other.set_from_matrix(1, 1, &sw), Ok(()));
    assert_eq!(values(&other), expected(&[&[7, 7, 7, 7], &[7, 0, 7, 8], &[7, 10, 0, 12]]));
    let mut blank: SparseMatrix<Fp> = SparseMatrix::new(3, 4);
    assert_eq!(blank.set_from_matrix(1, 1, &dw), Ok(()));
    assert_eq!(values(&blank), expected(&[&[0, 0, 0, 0], &[0, 0, 7, 8], &[0, 10, 0, 12]]));
    assert_eq!(explicit_cells(&blank, 1).len(), 3);
}

#[test]
fn block_that_does_not_fit_writes_nothing() {
    let block = dense(&[&[1, 2], &[3, 4]]);
    let mut m = dense(&[&[9, 9, 9], &[9, 9, 9]]);
    assert_eq!(m.set_from_matrix(1, 0, &block), Err(MatrixError::OutOfRange { index: 2, extent: 2 }));
    assert_eq!(m.set_from_matrix(0, 2, &block), Err(MatrixError::OutOfRange { index: 3, extent: 3 }));
    assert_eq!(m.set_from_matrix(4, 0, &block), Err(MatrixError::OutOfRange { index: 4, extent: 2 }));
    assert_eq!(values(&m), expected(&[&[9, 9, 9], &[9, 9, 9]]));
    assert_eq!(m.set_from_matrix(0, 1, &block), Ok(()));
    assert_eq!(values(&m), expected(&[&[9, 1, 2], &[9, 3, 4]]));
}

#[test]
fn out_of_range_leaves_the_matrix_as_it_was() {
    let rows: [&[i64]; 2] = [&[1, 2, 3], &[4, 5, 6]];
    let mut d = dense(&rows);
    let mut s = sparse(&rows);
    let row_err = MatrixError::OutOfRange { index: 2, extent: 2 };
    let col_err = MatrixError::OutOfRange { index: 3, extent: 3 };
    assert_eq!(d.get(2, 0), Err(row_err));
    assert_eq!(s.get(2, 0), Err(row_err));
    assert_eq!(d.get(0, 3), Err(col_err));
    assert_eq!(s.get(0, 3), Err(col_err));
    assert_eq!(d.get(2, 3), Err(row_err));
    assert_eq!(d.set(2, 0, Fp(1)), Err(row_err));
    assert_eq!(s.set(2, 0, Fp(1)), Err(row_err));
    assert_eq!(d.set(1, 3, Fp(1)), Err(col_err));
    assert_eq!(s.set(1, 3, Fp(1)), Err(col_err));
    assert_eq!(d.add(2, 0, Fp(1)), Err(row_err));
    assert_eq!(s.add(1, 3, Fp(1)), Err(col_err));
    assert_eq!(d.element_row_transform_swap(2, 0), Err(row_err));
    assert_eq!(s.element_row_transform_swap(0, 2), Err(row_err));
    assert_eq!(d.element_row_transform_swap(7, 9), Err(MatrixError::OutOfRange { index: 7, extent: 2 }));
    assert_eq!(d.element_row_transform_multi(2, Fp(2)), Err(row_err));
    assert_eq!(s.element_row_transform_multi(2, Fp(2)), Err(row_err));
    assert_eq!(d.element_row_transform_plus(0, 2, Fp(2)), Err(row_err));
    assert_eq!(s.element_row_transform_plus(2, 0, Fp(2)), Err(row_err));
    assert_eq!(values(&d), expected(&rows));
    assert_eq!(values(&s), expected(&rows));
}

#[test]
fn value_outside_the_matrix_is_zero() {
    let d = dense(&[&[1, 2], &[3, 4]]);
    assert_eq!(value_at(&d, 1, 1), Fp(4));
    assert_eq!(value_at(&d, 2, 0), Fp(0));
    assert_eq!(value_at(&d, 0, 2), Fp(0));
}

#[test]
fn identity_matrix_has_ones_on_the_diagonal() {
    let d: DenseMatrix<Fp> = DenseMatrix::get_identity_matrix(3);
    assert_eq!(values(&d), identity_values(3));
    let s: SparseMatrix<Fp> = SparseMatrix::get_identity_matrix(3);
    assert_eq!(values(&s), identity_values(3));
    assert_eq!(explicit_cells(&s, 1), vec![(1, 1, Fp(1))]);
    let none: DenseMatrix<Fp> = DenseMatrix::get_identity_matrix(0);
    assert_eq!((none.get_row(), none.get_column()), (0, 0));
}

#[test]
fn column_is_loaded_and_read_as_a_vector() {
    let mut m = dense(&[&[1, 2, 3], &[4, 5, 6]]);
    let mut v: Vector<Fp> = Vector::new_with(2, Fp(0));
    v.set(0, Fp(70));
    v.set(1, Fp(80));
    assert_eq!(m.set_nth_column(1, v), Ok(()));
    assert_eq!(values(&m), expected(&[&[1, 70, 3], &[4, 80, 6]]));
    let col = m.get_nth_column(2).unwrap();
    assert_eq!(col.length(), 2);
    assert_eq!(col[0], Fp(3));
    assert_eq!(col[1], Fp(6));
    assert_eq!(m.get_nth_column(3).err(), Some(MatrixError::OutOfRange { index: 3, extent: 3 }));
}

#[test]
fn column_of_another_length_is_a_shape_mismatch() {
    let mut m = dense(&[&[1, 2, 3], &[4, 5, 6]]);
    let v: Vector<Fp> = Vector::new_with(3, Fp(9));
    assert_eq!(m.set_nth_column(1, v), Err(MatrixError::ShapeMismatch { expected: 2, found: 3 }));
    let v: Vector<Fp> = Vector::new_with(3, Fp(9));
    assert_eq!(m.set_nth_column(5, v), Err(MatrixError::ShapeMismatch { expected: 2, found: 3 }));
    let v: Vector<Fp> = Vector::new_with(2, Fp(9));
    assert_eq!(m.set_nth_column(5, v), Err(MatrixError::OutOfRange { index: 5, extent: 3 }));
    assert_eq!(values(&m), expected(&[&[1, 2, 3], &[4, 5, 6]]));
}

const INVERTIBLE: [[i64; 3]; 3] = [[1, 2, 3], [2, 2, 1], [3, 4, 3]];

fn rows_of(m: &[[i64; 3]; 3]) -> [&[i64]; 3] {
    [&m[0][..], &m[1][..], &m[2][..]]
}

#[test]
fn inverse_times_matrix_is_identity() {
    let d = dense(&rows_of(&INVERTIBLE));
    let s = sparse(&rows_of(&INVERTIBLE));
    let di = d.inverse().unwrap();
    let si = s.inverse().unwrap();
    assert_eq!(multiply(&d, &di), identity_values(3));
    assert_eq!(multiply(&di, &d), identity_values(3));
    assert_eq!(multiply(&s, &si), identity_values(3));
    assert_eq!(multiply(&si, &s), identity_values(3));
    // twice the inverse is [[2, 6, -4], [-3, -6, 5], [2, 2, -2]]
    let mut twice = di.clone();
    for r in 0..3 {
        twice.element_row_transform_multi(r, Fp(2)).unwrap();
    }
    assert_eq!(values(&twice), expected(&[&[2, 6, -4], &[-3, -6, 5], &[2, 2, -2]]));
    // the operand is as it was
    assert_eq!(values(&d), expected(&rows_of(&INVERTIBLE)));
    assert_eq!(values(&s), expected(&rows_of(&INVERTIBLE)));
}

#[test]
fn inverse_is_the_same_on_both_backends() {
    let samples: Vec<Vec<Vec<i64>>> = vec![
        vec![vec![2]],
        vec![vec![0, 1], vec![1, 0]],
        vec![vec![0, 2, 0], vec![0, 0, 3], vec![4, 0, 0]],
        vec![vec![1, 2, 3], vec![2, 2, 1], vec![3, 4, 3]],
        vec![vec![0, 0, 0, 1], vec![0, 3, 1, 0], vec![2, 0, 0, 5], vec![0, 1, 1, 0]],
        vec![vec![4, 7, 2, 3], vec![0, 5, 0, 1], vec![1, 0, 6, 0], vec![0, 2, 0, 8]],
    ];
    for sample in samples.iter() {
        let rows: Vec<&[i64]> = sample.iter().map(|r| &r[..]).collect();
        let n = rows.len();
        let d = dense(&rows);
        let s = sparse(&rows);
        let di = d.inverse().unwrap();
        let si = s.inverse().unwrap();
        assert_eq!(values(&di), values(&si));
        assert_eq!(multiply(&d, &di), identity_values(n));
        assert_eq!(multiply(&si, &s), identity_values(n));
    }
}

#[test]
fn inverse_of_inverse_is_the_matrix() {
    let d = dense(&rows_of(&INVERTIBLE));
    let s = sparse(&rows_of(&INVERTIBLE));
    let back = d.inverse().unwrap().inverse().unwrap();
    assert_eq!(values(&back), values(&d));
    let back = s.inverse().unwrap().inverse().unwrap();
    assert_eq!(values(&back), values(&s));
}

#[test]
fn inverse_of_one_cell() {
    let d = dense(&[&[2]]);
    assert_eq!(values(&d.inverse().unwrap()), vec![vec![Fp(500_000_004)]]);
    let s = sparse(&[&[2]]);
    assert_eq!(values(&s.inverse().unwrap()), vec![vec![Fp(500_000_004)]]);
    let zero = dense(&[&[0]]);
    assert_eq!(zero.inverse().err(), Some(MatrixError::SingularMatrix));
    let unset: SparseMatrix<Fp> = SparseMatrix::new(1, 1);
    assert_eq!(unset.inverse().err(), Some(MatrixError::SingularMatrix));
}

#[test]
fn inverse_of_no_cell_is_no_cell() {
    let d: DenseMatrix<Fp> = DenseMatrix::new(0, 0);
    let i = d.inverse().unwrap();
    assert_eq!((i.get_row(), i.get_column()), (0, 0));
}

#[test]
fn inverse_brings_a_pivot_up_from_below() {
    // the first pivot is zero; the first row below with a value there is row 2
    let rows: [&[i64]; 3] = [&[0, 1, 2], &[0, 3, 4], &[5, 6, 7]];
    let d = dense(&rows);
    let di = d.inverse().unwrap();
    assert_eq!(multiply(&d, &di), identity_values(3));
    let s = sparse(&rows);
    let si = s.inverse().unwrap();
    assert_eq!(multiply(&s, &si), identity_values(3));
    assert_eq!(values(&di), values(&si));
}

#[test]
fn inverse_looks_for_the_pivot_in_the_working_copy() {
    // cell (2, 1) of the operand is zero, yet after the first column is
    // cleared the working copy holds a pivot there
    let rows: [&[i64]; 3] = [&[1, 1, 0], &[1, 1, 1], &[1, 0, 1]];
    let d = dense(&rows);
    let di = d.inverse().unwrap();
    assert_eq!(multiply(&d, &di), identity_values(3));
    let s = sparse(&rows);
    let si = s.inverse().unwrap();
    assert_eq!(multiply(&si, &s), identity_values(3));
}

#[test]
fn singular_matrix_is_an_error() {
    let samples: Vec<Vec<Vec<i64>>> = vec![
        vec![vec![0, 0], vec![0, 0]],
        vec![vec![1, 2], vec![2, 4]],
        vec![vec![1, 2, 3], vec![4, 5, 6], vec![7, 8, 9]],
        vec![vec![0, 1, 0], vec![0, 2, 0], vec![0, 3, 1]],
        vec![vec![1, 0, 0], vec![0, 1, 0], vec![0, 0, 0]],
    ];
    for sample in samples.iter() {
        let rows: Vec<&[i64]> = sample.iter().map(|r| &r[..]).collect();
        assert_eq!(dense(&rows).inverse().err(), Some(MatrixError::SingularMatrix));
        assert_eq!(sparse(&rows).inverse().err(), Some(MatrixError::SingularMatrix));
    }
}

#[test]
fn inverse_of_a_matrix_that_is_not_square_is_a_shape_mismatch() {
    let d = dense(&[&[1, 2, 3], &[4, 5, 6]]);
    assert_eq!(d.inverse().err(), Some(MatrixError::ShapeMismatch { expected: 2, found: 3 }));
    let s: SparseMatrix<Fp> = SparseMatrix::new(200, 500);
    assert_eq!(s.inverse().err(), Some(MatrixError::ShapeMismatch { expected: 200, found: 500 }));
}

#[test]
fn sparse_merge_matches_dense_rows_on_generated_rows() {
    // a fixed linear congruential sequence gives rows of varying overlap
    let mut state: u64 = 0x2545_F491_4F6C_DD1D;
    let mut next = move || {
        state = state.wrapping_mul(6364136223846793005).wrapping_add(1442695040888963407);
        state >> 33
    };
    for round in 0..200 {
        let width = 1 + (next() % 12) as usize;
        let density = 1 + next() % 4;
        let mut dst: Vec<i64> = Vec::new();
        let mut src: Vec<i64> = Vec::new();
        for _ in 0..width {
            dst.push(if next() % 4 < density { 1 + (next() % 1000) as i64 } else { 0 });
            src.push(if next() % 4 < density { 1 + (next() % 1000) as i64 } else { 0 });
        }
        let k = fp((next() % 7) as i64 - 3);
        let rows: [&[i64]; 2] = [&dst[..], &src[..]];
        let mut d = dense(&rows);
        let mut s = sparse(&rows);
        let (to, from) = if round % 2 == 0 { (0, 1) } else { (1, 0) };
        assert_eq!(d.element_row_transform_plus(to, from, k), Ok(()));
        assert_eq!(s.element_row_transform_plus(to, from, k), Ok(()));
        assert_eq!(values(&s), values(&d));
        let cols: Vec<usize> = explicit_cells(&s, to).iter().map(|c| c.1).collect();
        let union: Vec<usize> = (0..width).filter(|c| dst[*c] != 0 || src[*c] != 0).collect();
        assert_eq!(cols, union);
    }
}

#[test]
fn inverse_of_generated_matrices() {
    let mut state: u64 = 0x9E37_79B9_7F4A_7C15;
    let mut next = move || {
        state = state.wrapping_mul(6364136223846793005).wrapping_add(1442695040888963407);
        state >> 33
    };
    let mut inverted = 0;
    for _ in 0..60 {
        let n = 1 + (next() % 6) as usize;
        let mut sample: Vec<Vec<i64>> = Vec::new();
        for _ in 0..n {
            sample.push((0..n).map(|_| if next() % 3 == 0 { 0 } else { (next() % 50) as i64 }).collect());
        }
        let rows: Vec<&[i64]> = sample.iter().map(|r| &r[..]).collect();
        let d = dense(&rows);
        let s = sparse(&rows);
        match (d.inverse(), s.inverse()) {
            (Ok(di), Ok(si)) => {
                assert_eq!(values(&di), values(&si));
                assert_eq!(multiply(&d, &di), identity_values(n));
                assert_eq!(multiply(&di, &d), identity_values(n));
                assert_eq!(values(&di.inverse().unwrap()), values(&d));
                inverted += 1;
            }
            (Err(a), Err(b)) => {
                assert_eq!(a, MatrixError::SingularMatrix);
                assert_eq!(b, MatrixError::SingularMatrix);
            }
            _ => panic!("the two backends disagree"),
        }
    }
    assert!(inverted > 10);
}

use matrix_kernel::dense_matrix::DenseMatrix;
use matrix_kernel::error::MatrixError;
use matrix_kernel::field::Group;
use matrix_kernel::matrix_base::{value_at, ConstMatrix, Matrix, MatrixInit, MatrixIterator};
use matrix_kernel::sparse_matrix::SparseMatrix;
use std::ops::{Add, Mul};

/// Single-precision reals as scalars. The field laws hold of them only up
/// to rounding, so what the library proves is not claimed of this type; the
/// tests compare within a tolerance.
#[derive(Clone, Copy, Debug, PartialEq)]
struct Real(f32);

impl Add for Real {
    type Output = Real;
    fn add(self, other: Real) -> Real {
        Real(self.0 + other.0)
    }
}

impl Mul for Real {
    type Output = Real;
    fn mul(self, other: Real) -> Real {
        Real(self.0 * other.0)
    }
}

impl Group for Real {
    fn zero() -> Real {
        Real(0.0)
    }

    fn one() -> Real {
        Real(1.0)
    }

    fn neg(self) -> Real {
        Real(0.0 - self.0)
    }

    fn recip(self) -> Real {
        Real(1.0 / self.0)
    }

    fn lemma_operators() {
    }

    fn lemma_add_associative(_a: Real, _b: Real, _c: Real) {
    }

    fn lemma_add_commutative(_a: Real, _b: Real) {
    }

    fn lemma_add_identity(_a: Real) {
    }

    fn lemma_add_inverse(_a: Real) {
    }

    fn lemma_mul_associative(_a: Real, _b: Real, _c: Real) {
    }

    fn lemma_mul_commutative(_a: Real, _b: Real) {
    }

    fn lemma_mul_identity(_a: Real) {
    }

    fn lemma_mul_inverse(_a: Real) {
    }

    fn lemma_distributive(_a: Real, _b: Real, _c: Real) {
    }

    fn lemma_nontrivial() {
    }

    fn get_inverse_mul(&self) -> Result<Real, MatrixError> {
        if self.0 == 0.0 {
            Err(MatrixError::DivisionByZero)
        } else {
            Ok(Real(1.0 / self.0))
        }
    }

    fn get_identity_mul() -> Real {
        Real(1.0)
    }

    fn get_identity_add() -> Real {
        Real(0.0)
    }

    fn get_inverse_add(&self) -> Real {
        Real(0.0 - self.0)
    }
}

fn close(a: f32, b: f32) -> bool {
    (a - b).abs() < 1e-4
}

fn three_by_three() -> DenseMatrix<Real> {
    let mut m: DenseMatrix<Real> = DenseMatrix::new(3, 3);
    m.set(0, 0, Real(1.0)).unwrap();
    m.set(0, 1, Real(2.0)).unwrap();
    m.set(0, 2, Real(3.0)).unwrap();
    m.set(1, 0, Real(2.0)).unwrap();
    m.set(1, 1, Real(2.0)).unwrap();
    m.set(1, 2, Real(1.0)).unwrap();
    m.set(2, 0, Real(3.0)).unwrap();
    m.set(2, 1, Real(4.0)).unwrap();
    m.set(2, 2, Real(3.0)).unwrap();
    m
}

#[test]
fn real_inverse_of_zero_is_division_by_zero() {
    assert_eq!(Real(0.0).get_inverse_mul(), Err(MatrixError::DivisionByZero));
    assert_eq!(Real(4.0).get_inverse_mul(), Ok(Real(0.25)));
    assert_eq!(Real(4.0).get_inverse_add(), Real(-4.0));
}

#[test]
fn dense_three_by_three_inverse() {
    let m = three_by_three();
    let inverse = m.inverse().unwrap();
    let expected = [[1.0f32, 3.0, -2.0], [-1.5, -3.0, 2.5], [1.0, 1.0, -1.0]];
    for r in 0..3 {
        for c in 0..3 {
            let got = value_at(&inverse, r, c).0;
            assert!(close(got, expected[r][c]), "({}, {}): {} for {}", r, c, got, expected[r][c]);
        }
    }
    // the product with the operand is the identity
    for r in 0..3 {
        for c in 0..3 {
            let mut sum = 0.0f32;
            for t in 0..3 {
                sum += value_at(&m, r, t).0 * value_at(&inverse, t, c).0;
            }
            assert!(close(sum, if r == c { 1.0 } else { 0.0 }));
        }
    }
}

#[test]
fn dense_three_by_three_inverse_sub_matrix() {
    let inverse = three_by_three().inverse().unwrap();
    let part = inverse.get_sub_matrix(1, 2, 1, 2).unwrap();
    assert_eq!((part.get_row(), part.get_column()), (2, 2));
    let expected = [[-3.0f32, 2.5], [1.0, -1.0]];
    for r in 0..2 {
        for c in 0..2 {
            assert!(close(value_at(&part, r, c).0, expected[r][c]));
        }
    }
}

#[test]
fn sparse_set_add_and_swap() {
    let mut m: SparseMatrix<Real> = SparseMatrix::new(200, 500);
    m.set(105, 25, Real(143.0)).unwrap();
    m.add(105, 25, Real(2.0)).unwrap();
    assert_eq!(m.get(105, 25), Ok(Some(&Real(145.0))));
    m.set(2, 24, Real(15.0)).unwrap();
    m.element_row_transform_swap(105, 2).unwrap();
    assert_eq!(m.get(2, 25), Ok(Some(&Real(145.0))));
    assert_eq!(m.get(2, 24), Ok(None));
    assert_eq!(m.get(105, 24), Ok(Some(&Real(15.0))));
    assert_eq!(m.get(105, 25), Ok(None));
    // the rows carry their new row index
    let mut it = m.get_iterator(2).unwrap();
    let cell = it.next().unwrap();
    assert_eq!((cell.get_row(), cell.get_col(), *cell.get_v()), (2, 25, Real(145.0)));
    assert!(it.next().is_none());
    let mut it = m.get_iterator(105).unwrap();
    let cell = it.next().unwrap();
    assert_eq!((cell.get_row(), cell.get_col(), *cell.get_v()), (105, 24, Real(15.0)));
    assert!(it.next().is_none());
    // row 2 += 2 * row 105
    m.element_row_transform_plus(2, 105, Real(2.0)).unwrap();
    assert_eq!(m.get(2, 24), Ok(Some(&Real(30.0))));
    assert_eq!(m.get(2, 25), Ok(Some(&Real(145.0))));
    assert_eq!(m.get(105, 24), Ok(Some(&Real(15.0))));
}

#[test]
fn real_singular_matrix_is_an_error() {
    let mut m: DenseMatrix<Real> = DenseMatrix::new(2, 2);
    m.set(0, 0, Real(1.0)).unwrap();
    m.set(0, 1, Real(2.0)).unwrap();
    m.set(1, 0, Real(2.0)).unwrap();
    m.set(1, 1, Real(4.0)).unwrap();
    assert_eq!(m.inverse().err(), Some(MatrixError::SingularMatrix));
}

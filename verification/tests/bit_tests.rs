use matrix_kernel::dense_matrix::DenseMatrix;
use matrix_kernel::error::MatrixError;
use matrix_kernel::field::Group;
use matrix_kernel::gf2::Gf2;
use matrix_kernel::matrix_base::{value_at, ConstMatrix, Matrix, MatrixInit};
use matrix_kernel::sparse_matrix::SparseMatrix;

fn bits<M: ConstMatrix<Gf2>>(m: &M) -> Vec<Vec<u8>> {
    (0..m.get_row())
        .map(|r| (0..m.get_column()).map(|c| value_at(m, r, c).0 as u8).collect())
        .collect()
}

fn fill<M: Matrix<Gf2>>(rows: &[&[u8]]) -> M {
    let mut m = M::new(rows.len(), rows[0].len());
    for (r, row) in rows.iter().enumerate() {
        for (c, v) in row.iter().enumerate() {
            if *v != 0 {
                m.set(r, c, Gf2(true)).unwrap();
            }
        }
    }
    m
}

#[test]
fn gf2_arithmetic() {
    let (o, l) = (Gf2(false), Gf2(true));
    assert_eq!((o + o).0, false);
    assert_eq!((o + l).0, true);
    assert_eq!((l + o).0, true);
    assert_eq!((l + l).0, false);
    assert_eq!((o * o).0, false);
    assert_eq!((o * l).0, false);
    assert_eq!((l * o).0, false);
    assert_eq!((l * l).0, true);
    assert!(l == Gf2(true));
    assert!(l != o);
    assert_eq!(Gf2::get_identity_add().0, false);
    assert_eq!(Gf2::get_identity_mul().0, true);
    assert_eq!(l.get_inverse_add().0, true);
    assert_eq!(o.get_inverse_add().0, false);
    assert_eq!(l.get_inverse_mul().map(|v| v.0), Ok(true));
    assert_eq!(o.get_inverse_mul().map(|v| v.0), Err(MatrixError::DivisionByZero));
}

#[test]
fn bit_matrix_inverse() {
    let rows: [&[u8]; 3] = [&[1, 1, 0], &[0, 1, 1], &[0, 0, 1]];
    let d: DenseMatrix<Gf2> = fill(&rows);
    let inverse = d.inverse().unwrap();
    assert_eq!(bits(&inverse), vec![vec![1, 1, 1], vec![0, 1, 1], vec![0, 0, 1]]);
    assert_eq!(bits(&inverse.inverse().unwrap()), bits(&d));
    let s: SparseMatrix<Gf2> = fill(&rows);
    let inverse = s.inverse().unwrap();
    assert_eq!(bits(&inverse), vec![vec![1, 1, 1], vec![0, 1, 1], vec![0, 0, 1]]);
    assert_eq!(bits(&inverse.inverse().unwrap()), bits(&s));
}

#[test]
fn bit_matrix_inverse_with_row_exchange() {
    let rows: [&[u8]; 3] = [&[0, 1, 1], &[1, 1, 0], &[1, 0, 0]];
    let d: DenseMatrix<Gf2> = fill(&rows);
    let s: SparseMatrix<Gf2> = fill(&rows);
    // the inverse of [[0,1,1],[1,1,0],[1,0,0]] over two elements
    let expected = vec![vec![0, 0, 1], vec![0, 1, 1], vec![1, 1, 1]];
    assert_eq!(bits(&d.inverse().unwrap()), expected);
    assert_eq!(bits(&s.inverse().unwrap()), expected);
}

#[test]
fn singular_bit_matrix_is_an_error() {
    let rows: [&[u8]; 2] = [&[1, 1], &[1, 1]];
    let d: DenseMatrix<Gf2> = fill(&rows);
    assert_eq!(d.inverse().err(), Some(MatrixError::SingularMatrix));
    let s: SparseMatrix<Gf2> = fill(&rows);
    assert_eq!(s.inverse().err(), Some(MatrixError::SingularMatrix));
}

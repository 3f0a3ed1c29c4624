//! A small linear-algebra kernel over an abstract field.
//!
//! A matrix is a grid of scalars of a type that implements `field::Group`.
//! Two backends store it: `dense_matrix::DenseMatrix` holds every cell in
//! row-major order, `sparse_matrix::SparseMatrix` holds per row the cells
//! that were written, by ascending column. Both implement the traits of
//! `matrix_base`: read access, construction, mutation by single cells and by
//! the three elementary row transforms, and iteration over a row. The
//! inversion `Matrix::inverse` is written once against those traits.
//!
//! Every contract speaks of `view::MatrixView`, the shape of a matrix with
//! its explicit cells; a cell without an explicit value stands for the
//! additive identity. `linear` holds the sums and inner products that the
//! contract of the inversion is stated in, `gauss` the proof that the
//! elimination meets it, and `laws` what holds of the operations taken
//! together.
//!
//! Choices that the contracts fix: an index outside a matrix is answered
//! with `error::MatrixError::OutOfRange` and leaves the matrix as it was; a
//! sparse matrix never drops a cell, so a value that becomes the additive
//! identity stays stored; equality with the additive identity is exact, with
//! no tolerance, so a scalar type with rounding is outside what is proved.

pub mod error;
pub mod field;
pub mod gf2;
pub mod vector;
pub mod view;
pub mod matrix_base;
pub mod dense_matrix;
pub mod sparse_matrix;
pub mod linear;
pub mod gauss;
pub mod laws;

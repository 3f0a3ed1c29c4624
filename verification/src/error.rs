use vstd::prelude::*;

verus! {

/// The recoverable failures of the kernel.
#[derive(Clone, Copy, Debug, PartialEq, Eq, Structural)]
pub enum MatrixError {
    /// `index` does not lie below `extent`, the number of rows or columns
    /// (or of vector elements) it addresses. For a window of rows or
    /// columns, `index` is the first index of the window that falls outside.
    OutOfRange { index: usize, extent: usize },
    /// Two extents that must agree do not: a matrix that must be square has
    /// `expected` rows and `found` columns, or a vector loaded into a column
    /// of `expected` cells has `found` elements.
    ShapeMismatch { expected: usize, found: usize },
    /// The matrix has no inverse.
    SingularMatrix,
    /// The multiplicative inverse of the additive identity was requested.
    DivisionByZero,
}

} // verus!

//! Linear-algebra errors and the shape checks of dense systems.

use vstd::prelude::*;

verus! {

/// Error returned by dense linear-algebra primitives.
#[derive(Debug, Clone, Copy, PartialEq, Eq, Structural)]
pub enum LinalgError {
    /// Factorization hit a pivot too small to divide by.
    Singular {
        /// Elimination column where the zero pivot occurred.
        pivot_index: usize,
    },
    /// Operands have incompatible shapes.
    DimensionMismatch {
        /// Rows of the offending operand.
        rows: usize,
        /// Columns of the offending operand.
        cols: usize,
    },
    /// Cholesky factorization hit a non-positive (or breakdown) pivot.
    NotPositiveDefinite {
        /// Column where factorization broke down.
        pivot_index: usize,
    },
    /// A Householder column fell below tolerance (dependent columns).
    RankDeficient {
        /// Column where the rank deficiency was detected.
        column: usize,
    },
}

/// Checks that a `rows x cols` matrix is square and that a right-hand side
/// of `rhs` entries matches it; returns the dimension.
pub fn check_square_system(rows: usize, cols: usize, rhs: usize) -> (result: Result<usize, LinalgError>)
    ensures
        cols != rows ==> result == Err::<usize, LinalgError>(
            LinalgError::DimensionMismatch { rows, cols },
        ),
        cols == rows && rhs != rows ==> result == Err::<usize, LinalgError>(
            LinalgError::DimensionMismatch { rows: rhs, cols: 1 },
        ),
        cols == rows && rhs == rows ==> result == Ok::<usize, LinalgError>(rows),
{
    if cols != rows {
        return Err(LinalgError::DimensionMismatch { rows, cols });
    }
    if rhs != rows {
        return Err(LinalgError::DimensionMismatch { rows: rhs, cols: 1 });
    }
    Ok(rows)
}

/// Checks the operands of a least-squares rule against `m x n` factors: an
/// `m x n` matrix, `m` right-hand-side entries and `n` solution entries;
/// returns `(m, n)`.
pub fn check_lstsq_shapes(
    m: usize,
    n: usize,
    a_rows: usize,
    a_cols: usize,
    b_len: usize,
    x_len: usize,
) -> (result: Result<(usize, usize), LinalgError>)
    ensures
        a_rows != m || a_cols != n ==> result == Err::<(usize, usize), LinalgError>(
            LinalgError::DimensionMismatch { rows: a_rows, cols: a_cols },
        ),
        a_rows == m && a_cols == n && b_len != m ==> result == Err::<(usize, usize), LinalgError>(
            LinalgError::DimensionMismatch { rows: b_len, cols: 1 },
        ),
        a_rows == m && a_cols == n && b_len == m && x_len != n ==> result == Err::<
            (usize, usize),
            LinalgError,
        >(LinalgError::DimensionMismatch { rows: x_len, cols: 1 }),
        a_rows == m && a_cols == n && b_len == m && x_len == n ==> result == Ok::<
            (usize, usize),
            LinalgError,
        >((m, n)),
{
    if a_rows != m || a_cols != n {
        return Err(LinalgError::DimensionMismatch { rows: a_rows, cols: a_cols });
    }
    if b_len != m {
        return Err(LinalgError::DimensionMismatch { rows: b_len, cols: 1 });
    }
    if x_len != n {
        return Err(LinalgError::DimensionMismatch { rows: x_len, cols: 1 });
    }
    Ok((m, n))
}

} // verus!

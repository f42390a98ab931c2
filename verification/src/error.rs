//! Errors at numerical and graph boundaries.

use vstd::prelude::*;

verus! {

/// A failed validation, evaluation, or derivative application.
#[derive(Debug, PartialEq)]
pub enum Error {
    /// A buffer has the wrong length.
    Dimension {
        /// Buffer being checked.
        buffer: &'static str,
        /// Required length.
        expected: usize,
        /// Supplied length.
        actual: usize,
    },
    /// Dimension arithmetic overflowed.
    SizeOverflow,
    /// A source refers to a missing input, node, or output.
    InvalidSource,
    /// A node belongs to another builder.
    ForeignNode,
    /// Same-evaluation connections contain a cycle.
    Cycle,
    /// A workspace belongs to another plan.
    ForeignWorkspace,
    /// A failed linearization must be prepared again.
    InvalidLinearization,
    /// A numerical buffer contains NaN or infinity.
    NonFinite(&'static str),
    /// A kernel's documented domain was violated.
    Domain(&'static str),
    /// A solve matrix is singular.
    Singular,
    /// A nonlinear solve did not converge.
    NonConvergence,
    /// An operator does not implement the requested derivative order.
    UnsupportedDerivative,
    /// An operator failed during plan execution.
    Operator {
        /// Node index in insertion order.
        node: usize,
        /// Original numerical error.
        source: Box<Error>,
    },
}

/// Rejects a buffer whose length differs from the required one.
///
/// Succeeds exactly when `actual == expected`; otherwise reports the buffer
/// name together with both lengths.
pub fn check_len(buffer: &'static str, actual: usize, expected: usize) -> (result: Result<(), Error>)
    ensures
        actual == expected ==> result == Ok::<(), Error>(()),
        actual != expected ==> result == Err::<(), Error>(
            Error::Dimension { buffer, expected, actual },
        ),
{
    if actual != expected {
        return Err(Error::Dimension { buffer, expected, actual });
    }
    Ok(())
}

} // verus!

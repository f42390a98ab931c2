//! Checked dimensions of dense linear solves.

use vstd::prelude::*;

use crate::error::Error;
use crate::operator::Shape;

verus! {

/// Solve `A x = b`, with active inputs `[A, b]` and output `x`.
///
/// The square matrix `A` is flattened in row-major order, so the operator
/// takes `n * n + n` inputs and produces `n` outputs.
#[derive(Debug)]
pub struct DenseSolve {
    dimension: usize,
    inputs: usize,
}

impl DenseSolve {
    /// Number of unknowns.
    pub closed spec fn dimension_spec(&self) -> usize {
        self.dimension
    }

    /// Number of active scalar inputs.
    pub closed spec fn inputs_spec(&self) -> usize {
        self.inputs
    }

    /// A positive dimension with `n * n + n` inputs.
    pub open spec fn wf(&self) -> bool {
        &&& self.dimension_spec() > 0
        &&& self.inputs_spec() == self.dimension_spec() * self.dimension_spec()
            + self.dimension_spec()
    }

    /// Construct a square solve of positive dimension.
    ///
    /// Rejects zero dimensions and input counts `n * n + n` that overflow.
    pub fn new(dimension: usize) -> (result: Result<Self, Error>)
        ensures
            dimension == 0 ==> result == Err::<Self, Error>(
                Error::Domain("a solve needs at least one unknown"),
            ),
            dimension > 0 && dimension * dimension + dimension > usize::MAX ==> result
                == Err::<Self, Error>(Error::SizeOverflow),
            dimension > 0 && dimension * dimension + dimension <= usize::MAX ==> (result
                matches Ok(solve) && solve.dimension_spec() == dimension && solve.wf()),
    {
        if dimension == 0 {
            return Err(Error::Domain("a solve needs at least one unknown"));
        }
        let square = dimension.checked_mul(dimension);
        match square {
            None => {
                proof {
                    assert(dimension * dimension + dimension > usize::MAX) by (nonlinear_arith)
                        requires
                            dimension * dimension > usize::MAX,
                            dimension > 0,
                    ;
                }
                Err(Error::SizeOverflow)
            },
            Some(size) => match size.checked_add(dimension) {
                None => Err(Error::SizeOverflow),
                Some(inputs) => Ok(Self { dimension, inputs }),
            },
        }
    }

    /// Fixed dimensions: `n * n + n` inputs and `n` outputs.
    pub fn shape(&self) -> (shape: Shape)
        ensures
            shape.inputs == self.inputs_spec(),
            shape.outputs == self.dimension_spec(),
    {
        Shape { inputs: self.inputs, outputs: self.dimension }
    }

    /// Number of unknowns.
    pub fn dimension(&self) -> (n: usize)
        ensures
            n == self.dimension_spec(),
    {
        self.dimension
    }
}

/// Parameter dimensions of a residual solve `R([z, q]) = 0` with `unknowns`
/// entries in `z`: the residual takes `[z, q]` and returns one output per
/// unknown, and the solve maps the remaining inputs `q` to `z`.
pub fn implicit_shape(residual: Shape, unknowns: usize) -> (result: Result<Shape, Error>)
    ensures
        unknowns == 0 || residual.outputs != unknowns || residual.inputs < unknowns ==> result
            == Err::<Shape, Error>(
            Error::Domain("residual dimensions must describe R([z, q]) with one output per unknown"),
        ),
        unknowns > 0 && residual.outputs == unknowns && residual.inputs >= unknowns ==> result
            == Ok::<Shape, Error>(Shape { inputs: (residual.inputs - unknowns) as usize, outputs: unknowns }),
{
    if unknowns == 0 || residual.outputs != unknowns || residual.inputs < unknowns {
        return Err(
            Error::Domain("residual dimensions must describe R([z, q]) with one output per unknown"),
        );
    }
    Ok(Shape { inputs: residual.inputs - unknowns, outputs: unknowns })
}

} // verus!

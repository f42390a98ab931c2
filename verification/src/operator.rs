//! Dimensions of numerical maps.

use vstd::prelude::*;

verus! {

/// Dimensions of a numerical map.
#[derive(Clone, Copy, Debug, PartialEq, Eq, Structural)]
pub struct Shape {
    /// Number of active scalar inputs.
    pub inputs: usize,
    /// Number of scalar outputs.
    pub outputs: usize,
}

} // verus!

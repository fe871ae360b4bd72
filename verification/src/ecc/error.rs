//! The ways in which building a circuit fails. Every failure is final: a
//! circuit that was built in part is discarded.

use vstd::prelude::*;

verus! {

#[derive(Clone, Copy, Debug, PartialEq, Eq, Structural)]
pub enum Error {
    /// A pair of coordinates does not satisfy the curve equation.
    InvalidPoint,
    /// A value that had to be witnessed is absent or does not exist.
    Synthesis,
    /// A digit or a bit lies outside the range that its table declares.
    TableLookup,
    /// An assigned row does not satisfy a gate that is enabled on it.
    ConstraintUnsatisfied,
}

} // verus!

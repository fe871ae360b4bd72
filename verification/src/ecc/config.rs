//! The columns and selectors that the gadgets use, and the sizes of the
//! scalars that they decompose.

use crate::circuit::{Column, Selector};
use vstd::prelude::*;

verus! {

/// The sizes that the protocol fixes: the width of a window of a fixed-base
/// scalar, the number of bits of a scalar, and the number of bits of the
/// magnitude of a short signed scalar.
#[derive(Clone, Copy, Debug, PartialEq, Eq, Structural)]
pub struct Sizes {
    pub window_width: u8,
    pub scalar_bits: u16,
    pub short_bits: u16,
}

/// Configuration of the gadgets: where each kind of value is assigned.
#[derive(Debug)]
pub struct EccConfig {
    /// The sizes of scalars and windows.
    pub sizes: Sizes,
    /// Advice column for the bits and digits of scalars.
    pub bits: Column,
    /// Advice column for the root `u` of `y + z`.
    pub u: Column,
    /// Advice columns for a point `(x_a, y_a)`, usually a sum.
    pub a: (Column, Column),
    /// Advice columns for a point `(x_p, y_p)`.
    pub p: (Column, Column),
    /// Advice columns for a pair of slopes.
    pub lambda: (Column, Column),
    /// Advice columns for the four indicators of complete addition.
    pub add_complete_bool: [Column; 4],
    /// Advice columns for the four inverses of complete addition.
    pub add_complete_inv: [Column; 4],
    /// Fixed columns for the coefficients of a window's polynomial, one for
    /// each digit.
    pub lagrange_coeffs: Vec<Column>,
    /// Fixed column for the offset `z` of a window.
    pub fixed_z: Column,
    /// Incomplete addition.
    pub q_add: Selector,
    /// Complete addition.
    pub q_add_complete: Selector,
    /// Doubling.
    pub q_double: Selector,
    /// Variable-base scalar multiplication.
    pub q_mul: Selector,
    /// Fixed-base full-width scalar multiplication.
    pub q_mul_fixed: Selector,
    /// Fixed-base signed short scalar multiplication.
    pub q_mul_fixed_short: Selector,
    /// Witnessing a point.
    pub q_point: Selector,
    /// Witnessing the bits of a scalar.
    pub q_scalar_var: Selector,
    /// Witnessing the windows of a scalar.
    pub q_scalar_fixed: Selector,
    /// Witnessing the sign of a short scalar.
    pub q_scalar_fixed_short: Selector,
    /// The permutation that copies bits and digits.
    pub perm_scalar: usize,
    /// The permutation that copies coordinates.
    pub perm_sum: usize,
}

} // verus!

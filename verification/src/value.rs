//! Note values and their signed sums, which must stay within 63 bits.

use crate::ecc::curve::Affine;
use crate::pallas::{Base, Scalar};
use vstd::prelude::*;

verus! {

/// A sum of values left the range of signed 64-bit integers, or a value
/// does not fit in it.
#[derive(Clone, Copy, Debug, PartialEq, Eq, Structural)]
pub struct OverflowError;

/// The value of a note.
#[derive(Clone, Copy, Debug, PartialEq, Eq, Structural)]
pub struct NoteValue(pub u64);

/// A sum of note values, spent ones counted positive and created ones
/// negative.
#[derive(Clone, Copy, Debug, PartialEq, Eq, Structural)]
pub struct ValueSum(pub i64);

/// The randomness of a value commitment.
#[derive(Clone, Copy, Debug)]
pub struct ValueCommitTrapdoor(pub Scalar);

/// A commitment to a sum of values.
#[derive(Clone, Copy, Debug)]
pub struct ValueCommitment(pub Affine<Base>);

impl NoteValue {
    /// The difference of two values, where each fits in 63 bits.
    pub fn minus(self, rhs: NoteValue) -> (r: Result<ValueSum, OverflowError>)
        ensures
            r is Ok <==> self.0 <= i64::MAX && rhs.0 <= i64::MAX,
            r matches Ok(v) ==> v.0 == self.0 - rhs.0,
    {
        if self.0 > 0x7fff_ffff_ffff_ffff || rhs.0 > 0x7fff_ffff_ffff_ffff {
            return Err(OverflowError);
        }
        let a: i64 = self.0 as i64;
        let b: i64 = rhs.0 as i64;
        Ok(ValueSum(a - b))
    }
}

impl ValueSum {
    /// The sum of two sums, where it fits in 64 bits.
    pub fn plus(self, rhs: ValueSum) -> (r: Result<ValueSum, OverflowError>)
        ensures
            r is Ok <==> i64::MIN <= self.0 + rhs.0 <= i64::MAX,
            r matches Ok(v) ==> v.0 == self.0 + rhs.0,
    {
        match self.0.checked_add(rhs.0) {
            Some(v) => Ok(ValueSum(v)),
            None => Err(OverflowError),
        }
    }
}

} // verus!

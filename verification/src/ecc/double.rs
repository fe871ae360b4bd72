//! Doubling: the tangent formula, for a point of order above two.

use crate::ecc::add::line_sum;
use crate::ecc::curve::{double, tangent_slope, Affine};
use crate::field::{fadd, lemma_finv, BaseField, FieldElement};
use vstd::prelude::*;

verus! {

/// The slope of the tangent at `p`, which exists unless twice the ordinate
/// is zero.
pub fn tangent<F: BaseField>(p: &Affine<F>) -> (r: Option<F>)
    ensures
        r is None <==> fadd(F::modulus(), p@.y, p@.y) == 0,
        r matches Some(l) ==> l.value() == tangent_slope(F::modulus(), p@),
{
    let xx = p.x.times(&p.x);
    let numerator = xx.plus(&xx).plus(&xx);
    let denominator = p.y.plus(&p.y);
    match denominator.invert() {
        None => None,
        Some(inv) => {
            proof {
                lemma_finv(F::modulus(), denominator.value(), inv.value());
            }
            Some(numerator.times(&inv))
        },
    }
}

/// Twice the point `p`. There is no tangent to witness where twice the
/// ordinate is zero.
pub fn double_point<F: BaseField>(p: &Affine<F>) -> (r: Option<Affine<F>>)
    ensures
        r is None <==> fadd(F::modulus(), p@.y, p@.y) == 0,
        r matches Some(s) ==> s@ == double(F::modulus(), p@),
{
    match tangent(p) {
        None => None,
        Some(lambda) => Some(line_sum(&lambda, p, p)),
    }
}

} // verus!

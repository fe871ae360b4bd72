//! Incomplete addition: the chord formula, for two points that are known to
//! differ in their abscissa.

use crate::ecc::curve::{add_incomplete, chord_slope, third_point, Affine};
use crate::field::{lemma_finv, lemma_fsub_zero, BaseField, FieldElement};
use vstd::prelude::*;

verus! {

/// The point on the line of slope `lambda` through `p` and `q`.
pub fn line_sum<F: BaseField>(lambda: &F, p: &Affine<F>, q: &Affine<F>) -> (r: Affine<F>)
    ensures
        r@ == third_point(F::modulus(), lambda.value(), p@, q@),
{
    let x = lambda.times(lambda).minus(&p.x).minus(&q.x);
    let y = lambda.times(&p.x.minus(&x)).minus(&p.y);
    Affine { x, y }
}

/// The slope of the chord through `p` and `q`, which exists unless the two
/// have the same abscissa.
pub fn chord<F: BaseField>(p: &Affine<F>, q: &Affine<F>) -> (r: Option<F>)
    ensures
        r is None <==> p@.x == q@.x,
        r matches Some(l) ==> l.value() == chord_slope(F::modulus(), p@, q@),
{
    let dx = q.x.minus(&p.x);
    proof {
        p.x.lemma_value();
        q.x.lemma_value();
        lemma_fsub_zero(F::modulus(), q.x.value(), p.x.value());
    }
    match dx.invert() {
        None => None,
        Some(inv) => {
            proof {
                lemma_finv(F::modulus(), dx.value(), inv.value());
            }
            Some(q.y.minus(&p.y).times(&inv))
        },
    }
}

/// The sum of two points of different abscissa. There is no sum to witness
/// where the abscissas agree.
pub fn add_points<F: BaseField>(p: &Affine<F>, q: &Affine<F>) -> (r: Option<Affine<F>>)
    ensures
        r is None <==> p@.x == q@.x,
        r matches Some(s) ==> s@ == add_incomplete(F::modulus(), p@, q@),
{
    match chord(p, q) {
        None => None,
        Some(lambda) => Some(line_sum(&lambda, p, q)),
    }
}

} // verus!

//! The group law of a short Weierstrass curve `y^2 = x^3 + b` written out in
//! the arithmetic of its base field, and the coordinate pair that carries it.

use crate::field::{fadd, fdiv, fmul, fneg, fsub, BaseField, FieldElement};
use vstd::prelude::*;

verus! {

/// A pair of reduced coordinates. The pair `(0, 0)` stands for the identity,
/// which lies on no curve of this shape with `b != 0`.
pub ghost struct Pt {
    pub x: nat,
    pub y: nat,
}

/// The pair that stands for the identity.
pub open spec fn identity() -> Pt {
    Pt { x: 0, y: 0 }
}

/// The coordinates satisfy `y^2 = x^3 + b`.
pub open spec fn on_curve(m: nat, b: nat, p: Pt) -> bool {
    fmul(m, p.y, p.y) == fadd(m, fmul(m, fmul(m, p.x, p.x), p.x), b % m)
}

/// The inverse of a point: the same abscissa, the negated ordinate.
pub open spec fn negate(m: nat, p: Pt) -> Pt {
    Pt { x: p.x, y: fneg(m, p.y) }
}

/// The slope of the chord through two points of different abscissa.
pub open spec fn chord_slope(m: nat, p: Pt, q: Pt) -> nat {
    fdiv(m, fsub(m, q.y, p.y), fsub(m, q.x, p.x))
}

/// The slope of the tangent at a point whose ordinate is not zero.
pub open spec fn tangent_slope(m: nat, p: Pt) -> nat {
    let xx = fmul(m, p.x, p.x);
    fdiv(m, fadd(m, fadd(m, xx, xx), xx), fadd(m, p.y, p.y))
}

/// The third point of the line of slope `lambda` through `p` and `q`,
/// reflected: `x = lambda^2 - x_p - x_q`, `y = lambda (x_p - x) - y_p`.
pub open spec fn third_point(m: nat, lambda: nat, p: Pt, q: Pt) -> Pt {
    let x = fsub(m, fsub(m, fmul(m, lambda, lambda), p.x), q.x);
    let y = fsub(m, fmul(m, lambda, fsub(m, p.x, x)), p.y);
    Pt { x, y }
}

/// The sum of two points of different abscissa, neither the identity.
pub open spec fn add_incomplete(m: nat, p: Pt, q: Pt) -> Pt {
    third_point(m, chord_slope(m, p, q), p, q)
}

/// Twice a point whose ordinate is not zero.
pub open spec fn double(m: nat, p: Pt) -> Pt {
    third_point(m, tangent_slope(m, p), p, p)
}

/// The sum of any two points: an operand with abscissa zero is the identity
/// and gives the other operand, opposite points give the identity, equal
/// points are doubled, and all others are joined by a chord.
pub open spec fn add_complete(m: nat, p: Pt, q: Pt) -> Pt {
    if p.x == 0 {
        q
    } else if q.x == 0 {
        p
    } else if p.x != q.x {
        add_incomplete(m, p, q)
    } else if fadd(m, p.y, q.y) == 0 {
        identity()
    } else {
        double(m, p)
    }
}

/// A point given by the values of its two coordinates.
#[derive(Clone, Copy, Debug)]
pub struct Affine<F: FieldElement> {
    pub x: F,
    pub y: F,
}

impl<F: FieldElement> View for Affine<F> {
    type V = Pt;

    open spec fn view(&self) -> Pt {
        Pt { x: self.x.value(), y: self.y.value() }
    }
}

/// A curve `y^2 = x^3 + b` of prime order: its two fields, its constant, and
/// the multiples of its points, which the gadgets are measured against.
pub trait Curve {
    /// The field of the coordinates.
    type Base: BaseField;

    /// The field of the scalars, whose characteristic is the curve's order.
    type Scalar: FieldElement;

    /// The constant `b` of the curve equation.
    spec fn b() -> nat;

    /// The multiple `[k] P`, with the identity as `(0, 0)`.
    spec fn multiple(p: Pt, k: nat) -> Pt;

    /// The offset `t` that is added to a scalar before the ladder reads its
    /// bits: with `n` bits to a scalar, `2^(n-1) + t` is the curve's order.
    spec fn offset() -> nat;

    fn scalar_offset() -> (r: Self::Scalar)
        ensures
            r.value() == Self::offset(),
    ;

    fn constant_b() -> (r: Self::Base)
        ensures
            r.value() == Self::b() % Self::Base::modulus(),
    ;

    fn scalar_mul(p: &Affine<Self::Base>, k: &Self::Scalar) -> (r: Affine<Self::Base>)
        ensures
            r@ == Self::multiple(p@, k.value()),
    ;
}

/// Whether the coordinates satisfy the curve equation.
pub fn is_on_curve<C: Curve>(p: &Affine<C::Base>) -> (r: bool)
    ensures
        r == on_curve(C::Base::modulus(), C::b(), p@),
{
    let lhs = p.y.times(&p.y);
    let rhs = p.x.times(&p.x).times(&p.x).plus(&C::constant_b());
    lhs.equals(&rhs)
}

} // verus!

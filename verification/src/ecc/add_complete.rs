//! Complete addition: a sum for every pair of operands, selected by four
//! indicators that are tied to four inverses.

use crate::ecc::add::{chord, line_sum};
use crate::ecc::curve::{
    add_complete, chord_slope, double, identity, negate, tangent_slope, Affine, Pt,
};
use crate::ecc::double::tangent;
use crate::field::{
    fadd, finv, fneg, fsub, lemma_fadd_zero, lemma_finv, lemma_fmul_zero, lemma_fsub_zero,
    BaseField, FieldElement,
};
use vstd::arithmetic::div_mod::lemma_small_mod;
use vstd::prelude::*;

verus! {

/// What one complete addition witnesses besides its operands.
#[derive(Clone, Copy, Debug)]
pub struct CompleteSum<F: FieldElement> {
    /// The operands have the same abscissa.
    pub same_x: bool,
    /// The first operand is the identity.
    pub p_identity: bool,
    /// The second operand is the identity.
    pub q_identity: bool,
    /// The ordinates sum to zero.
    pub opposite_y: bool,
    /// The inverse of `x_q - x_p`, or zero.
    pub alpha: F,
    /// The inverse of `x_p`, or zero.
    pub beta: F,
    /// The inverse of `x_q`, or zero.
    pub gamma: F,
    /// The inverse of `y_p + y_q`, or zero.
    pub delta: F,
    /// The slope of the line that gives the sum, or zero where none is used.
    pub lambda: F,
    /// The sum.
    pub sum: Affine<F>,
}

/// The inverse that an indicator is tied to: zero where the indicator is
/// set, the inverse of `v` where it is not.
pub open spec fn tied_inverse(m: nat, v: nat) -> nat {
    if v == 0 {
        0
    } else {
        finv(m, v)
    }
}

/// The slope that a complete addition of `p` and `q` witnesses.
pub open spec fn complete_slope(m: nat, p: Pt, q: Pt) -> nat {
    if p.x != q.x {
        chord_slope(m, p, q)
    } else if fadd(m, p.y, p.y) != 0 {
        tangent_slope(m, p)
    } else {
        0
    }
}

/// The number that stands for an indicator: one where it is set.
pub open spec fn indicator(set: bool) -> nat {
    if set {
        1
    } else {
        0
    }
}

/// The nine numbers that a complete addition of `p` and `q` witnesses: its
/// four indicators, its four inverses and its slope.
pub open spec fn complete_values(m: nat, p: Pt, q: Pt) -> Seq<Option<nat>> {
    seq![
        Some(indicator(p.x == q.x)),
        Some(indicator(p.x == 0)),
        Some(indicator(q.x == 0)),
        Some(indicator(fadd(m, p.y, q.y) == 0)),
        Some(tied_inverse(m, fsub(m, q.x, p.x))),
        Some(tied_inverse(m, p.x)),
        Some(tied_inverse(m, q.x)),
        Some(tied_inverse(m, fadd(m, p.y, q.y))),
        Some(complete_slope(m, p, q)),
    ]
}

/// The operands for which no row can be witnessed: two points that are not
/// the identity, share an abscissa and are not opposite, the first with an
/// ordinate that has no tangent. No such pair lies on a curve.
pub open spec fn no_complete_sum(m: nat, p: Pt, q: Pt) -> bool {
    p.x != 0 && p.x == q.x && fadd(m, p.y, q.y) != 0 && fadd(m, p.y, p.y) == 0
}

/// Whether `v` is zero, and its inverse where it is not.
pub fn tied<F: BaseField>(v: &F) -> (r: (bool, F))
    ensures
        r.0 == (v.value() == 0),
        r.1.value() == tied_inverse(F::modulus(), v.value()),
{
    proof {
        F::lemma_modulus();
        lemma_small_mod(0, F::modulus());
    }
    match v.invert() {
        None => (true, F::from_u64(0)),
        Some(inv) => {
            proof {
                lemma_finv(F::modulus(), v.value(), inv.value());
            }
            (false, inv)
        },
    }
}

/// The complete sum of `p` and `q` with its indicators, inverses and slope.
pub fn add_complete_points<F: BaseField>(p: &Affine<F>, q: &Affine<F>) -> (r: Option<
    CompleteSum<F>,
>)
    ensures
        r is None <==> no_complete_sum(F::modulus(), p@, q@),
        r matches Some(row) ==> {
            let m = F::modulus();
            &&& row.sum@ == add_complete(m, p@, q@)
            &&& row.same_x == (p@.x == q@.x)
            &&& row.p_identity == (p@.x == 0)
            &&& row.q_identity == (q@.x == 0)
            &&& row.opposite_y == (fadd(m, p@.y, q@.y) == 0)
            &&& row.alpha.value() == tied_inverse(m, fsub(m, q@.x, p@.x))
            &&& row.beta.value() == tied_inverse(m, p@.x)
            &&& row.gamma.value() == tied_inverse(m, q@.x)
            &&& row.delta.value() == tied_inverse(m, fadd(m, p@.y, q@.y))
            &&& row.lambda.value() == complete_slope(m, p@, q@)
        },
{
    proof {
        F::lemma_modulus();
        lemma_small_mod(0, F::modulus());
        p.x.lemma_value();
        q.x.lemma_value();
        lemma_fsub_zero(F::modulus(), q.x.value(), p.x.value());
    }
    let zero = F::from_u64(0);
    let (same_x, alpha) = tied(&q.x.minus(&p.x));
    let (p_identity, beta) = tied(&p.x);
    let (q_identity, gamma) = tied(&q.x);
    let (opposite_y, delta) = tied(&p.y.plus(&q.y));
    let slope = if same_x {
        tangent(p)
    } else {
        chord(p, q)
    };
    let lambda = match slope {
        Some(l) => l,
        None => zero,
    };
    let sum = if p_identity {
        *q
    } else if q_identity {
        *p
    } else if same_x && opposite_y {
        Affine { x: zero, y: zero }
    } else if slope.is_none() {
        return None;
    } else {
        line_sum(&lambda, p, q)
    };
    Some(
        CompleteSum {
            same_x,
            p_identity,
            q_identity,
            opposite_y,
            alpha,
            beta,
            gamma,
            delta,
            lambda,
            sum,
        },
    )
}

/// Adding a point to itself is doubling it, for the identity and for every
/// point that has a tangent.
pub proof fn lemma_add_complete_same(m: nat, p: Pt)
    requires
        m > 0,
        p.x == 0 ==> p == identity(),
        p.x != 0 ==> fadd(m, p.y, p.y) != 0,
    ensures
        add_complete(m, p, p) == double(m, p),
{
    if p.x == 0 {
        lemma_fmul_zero(m, finv(m, 0));
        lemma_fmul_zero(m, 0);
        lemma_fsub_zero(m, 0, 0);
        lemma_small_mod(0, m);
    }
}

/// Adding a point and its inverse gives the identity, for every point and
/// for the identity itself.
pub proof fn lemma_add_complete_opposite(m: nat, p: Pt)
    requires
        m > 0,
        p.x < m,
        p.y < m,
        p.x == 0 ==> p == identity(),
    ensures
        add_complete(m, p, negate(m, p)) == identity(),
{
    lemma_fadd_zero(m, p.y, fneg(m, p.y));
    lemma_fsub_zero(m, 0, p.y);
}

/// The identity is neutral on either side, for every point and for the
/// identity itself.
pub proof fn lemma_add_complete_identity(m: nat, p: Pt)
    requires
        p.x == 0 ==> p == identity(),
    ensures
        add_complete(m, p, identity()) == p,
        add_complete(m, identity(), p) == p,
        add_complete(m, identity(), identity()) == identity(),
{
}

} // verus!

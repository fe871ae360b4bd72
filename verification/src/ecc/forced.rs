//! What the constraints force: where the polynomials of a row vanish over a
//! field, the cells of the row hold what the gadget is meant to witness,
//! and nothing else.

use crate::ecc::add_complete::{indicator, no_complete_sum};
use crate::ecc::curve::{
    add_complete, add_incomplete, chord_slope, double, on_curve, Pt, tangent_slope,
};
use crate::ecc::gates::{
    add_poly_x, add_poly_y, boolean, complete_row_polys, curve_poly, double_poly_x, double_poly_y,
    mul_fixed_row_polys, mul_row_polys, short_row_polys,
};
use crate::ecc::mul::{addend, correction};
use crate::ecc::mul_fixed_short::apply_sign;
use crate::ecc::satisfy::{lemma_add_vanishes, lemma_double_vanishes, lemma_point_vanishes};
use crate::field::{
    fadd, fdiv, finv, fmul, fneg, fsub, is_inverse, lemma_div_mul, lemma_eqm_ops,
    lemma_eqm_reduced, lemma_eqm_ring, lemma_fadd_zero, lemma_fsub_zero, lemma_units,
};
use vstd::arithmetic::div_mod::lemma_small_mod;
use vstd::prelude::*;

verus! {

/// The integers modulo `m` are a field: every number but zero has an
/// inverse.
pub open spec fn is_field(m: nat) -> bool {
    &&& m > 2
    &&& forall|v: nat| 0 < v < m ==> is_inverse(m, v, #[trigger] finv(m, v))
}

/// In a field, a product is zero only where a factor is.
pub proof fn lemma_no_zero_divisors(m: nat, a: nat, b: nat)
    requires
        is_field(m),
        a < m,
        b < m,
        fmul(m, a, b) == 0,
    ensures
        a == 0 || b == 0,
{
    if a != 0 {
        let i = finv(m, a);
        let (ai, bi, ii) = (a as int, b as int, i as int);
        lemma_small_mod(0, m);
        lemma_small_mod(1, m);
        // b = b (a i) = (a b) i = 0
        lemma_eqm_ring(m, bi, bi, ai * ii, 1);
        lemma_eqm_ring(m, ai * bi, 0, ii, ii);
        assert(bi * (ai * ii) == (ai * bi) * ii) by (nonlinear_arith);
        assert(bi * 1 == bi);
        assert(0 * ii == 0);
        lemma_eqm_reduced(m, b, 0);
    }
}

/// In a field, a product of factors that are not zero is not zero.
pub proof fn lemma_product_not_zero(m: nat, a: nat, b: nat)
    requires
        is_field(m),
        a < m,
        b < m,
        a != 0,
        b != 0,
    ensures
        fmul(m, a, b) != 0,
{
    if fmul(m, a, b) == 0 {
        lemma_no_zero_divisors(m, a, b);
    }
}

/// In a field, a factor that is not zero can be cancelled.
pub proof fn lemma_cancel(m: nat, x: nat, a: nat, b: nat)
    requires
        is_field(m),
        x < m,
        a < m,
        b < m,
        x != 0,
        fmul(m, x, a) == fmul(m, x, b),
    ensures
        a == b,
{
    let d = fsub(m, a, b);
    lemma_eqm_ops(m, a, b);
    lemma_eqm_ops(m, x, a);
    lemma_eqm_ops(m, x, b);
    lemma_eqm_ops(m, x, d);
    // x (a - b) = x a - x b = 0
    lemma_eqm_ring(m, x as int, x as int, d as int, a - b);
    assert(x * (a - b) == x * a - x * b) by (nonlinear_arith);
    lemma_eqm_ring(m, (x * a) as int, fmul(m, x, a) as int, (x * b) as int, fmul(m, x, b) as int);
    lemma_small_mod(0, m);
    lemma_eqm_reduced(m, fmul(m, x, d), 0);
    lemma_no_zero_divisors(m, x, d);
    lemma_fsub_zero(m, a, b);
}

/// In a field, `x l = a` for an `x` that is not zero makes `l` the quotient
/// `a / x`.
pub proof fn lemma_quotient_forced(m: nat, x: nat, l: nat, a: nat)
    requires
        is_field(m),
        x < m,
        l < m,
        a < m,
        x != 0,
        fmul(m, x, l) == a,
    ensures
        l == fdiv(m, a, x),
{
    lemma_div_mul(m, a, x);
    lemma_eqm_ops(m, a, finv(m, x));
    lemma_cancel(m, x, l, fdiv(m, a, x));
}

/// Where `k (1 - k)` vanishes over a field, `k` is a bit.
pub proof fn lemma_bit_forced(m: nat, k: nat)
    requires
        is_field(m),
        k < m,
        boolean(m, k) == 0,
    ensures
        k == 0 || k == 1,
{
    lemma_units(m, k);
    lemma_eqm_ops(m, 1, k);
    lemma_no_zero_divisors(m, k, fsub(m, 1nat % m, k));
    lemma_fsub_zero(m, 1, k);
}

/// Where `v i = 1 - b` and `b v = 0` over a field, the indicator `b` is
/// set exactly where `v` is zero: an indicator that disagrees with its
/// inverse leaves the row unsatisfied.
pub proof fn lemma_tie_forced(m: nat, v: nat, i: nat, b: nat)
    requires
        is_field(m),
        v < m,
        i < m,
        b < m,
        fsub(m, fmul(m, v, i), fsub(m, 1nat % m, b)) == 0,
        fmul(m, b, v) == 0,
    ensures
        b == indicator(v == 0),
{
    lemma_units(m, b);
    lemma_units(m, i);
    lemma_eqm_ops(m, v, i);
    lemma_eqm_ops(m, 1, b);
    lemma_fsub_zero(m, fmul(m, v, i), fsub(m, 1nat % m, b));
    if v == 0 {
        lemma_fsub_zero(m, 1, b);
    } else {
        lemma_no_zero_divisors(m, b, v);
    }
}

/// Where the two polynomials of the sign vanish on an enabled row over a
/// field, the signed point is the unsigned one under a clear sign and its
/// inverse under a set one.
pub proof fn lemma_sign_forced(m: nat, sign: bool, unsigned: Pt, signed: Pt)
    requires
        is_field(m),
        unsigned.x < m,
        unsigned.y < m,
        signed.x < m,
        signed.y < m,
        short_row_polys(
            m,
            1,
            indicator(sign),
            unsigned.x,
            unsigned.y,
            signed.x,
            signed.y,
        ) =~= seq![0nat, 0nat],
    ensures
        signed == apply_sign(m, unsigned, sign),
{
    let polys = short_row_polys(
        m,
        1,
        indicator(sign),
        unsigned.x,
        unsigned.y,
        signed.x,
        signed.y,
    );
    assert(polys[0] == 0 && polys[1] == 0);
    let sum = fadd(m, unsigned.y, signed.y);
    let diff = fsub(m, unsigned.y, signed.y);
    lemma_eqm_ops(m, unsigned.y, signed.y);
    lemma_eqm_ops(m, signed.x, unsigned.x);
    lemma_units(m, sum);
    lemma_units(m, diff);
    lemma_units(m, 0);
    lemma_units(m, 1);
    lemma_units(m, fsub(m, signed.x, unsigned.x));
    lemma_fsub_zero(m, signed.x, unsigned.x);
    lemma_fsub_zero(m, unsigned.y, signed.y);
    lemma_fadd_zero(m, unsigned.y, signed.y);
    let inner = fadd(
        m,
        fmul(m, indicator(sign), sum),
        fmul(m, fsub(m, 1nat % m, indicator(sign)), diff),
    );
    lemma_eqm_ops(
        m,
        fmul(m, indicator(sign), sum),
        fmul(m, fsub(m, 1nat % m, indicator(sign)), diff),
    );
    lemma_units(m, inner);
}

/// A summand that is added on both sides can be taken away.
pub proof fn lemma_add_cancel(m: nat, a: nat, b: nat, c: nat)
    requires
        m > 0,
        a < m,
        b < m,
        fadd(m, a, c) == fadd(m, b, c),
    ensures
        a == b,
{
    lemma_eqm_ops(m, a, c);
    lemma_eqm_ops(m, b, c);
    lemma_eqm_ring(m, (a + c) as int, (b + c) as int, c as int, c as int);
    lemma_eqm_reduced(m, a, b);
}

/// Where the two polynomials of incomplete addition vanish over a field on
/// operands of different abscissas, the sum is the third point of their
/// chord, reflected.
pub proof fn lemma_add_forced(m: nat, p: Pt, q: Pt, r: Pt)
    requires
        is_field(m),
        p.x < m && p.y < m && q.x < m && q.y < m && r.x < m && r.y < m,
        p.x != q.x,
        add_poly_x(m, p.x, p.y, q.x, q.y, r.x) == 0,
        add_poly_y(m, p.x, p.y, q.x, q.y, r.x, r.y) == 0,
    ensures
        r == add_incomplete(m, p, q),
{
    let s = add_incomplete(m, p, q);
    let dx = fsub(m, p.x, q.x);
    let dy = fsub(m, p.y, q.y);
    lemma_eqm_ops(m, p.x, q.x);
    lemma_eqm_ops(m, p.y, q.y);
    lemma_eqm_ops(m, q.x, p.x);
    lemma_fsub_zero(m, p.x, q.x);
    lemma_fsub_zero(m, q.x, p.x);
    lemma_add_vanishes(m, p, q);
    // the sum's coordinates are reduced
    let l = chord_slope(m, p, q);
    lemma_eqm_ops(m, fsub(m, fmul(m, l, l), p.x), q.x);
    lemma_eqm_ops(m, fmul(m, l, fsub(m, p.x, s.x)), p.y);
    // the first polynomial is linear in the abscissa
    let dd = fmul(m, dx, dx);
    let ee = fmul(m, dy, dy);
    lemma_eqm_ops(m, dx, dx);
    lemma_eqm_ops(m, dy, dy);
    lemma_product_not_zero(m, dx, dx);
    let of_r = fadd(m, fadd(m, r.x, q.x), p.x);
    let of_s = fadd(m, fadd(m, s.x, q.x), p.x);
    lemma_eqm_ops(m, r.x, q.x);
    lemma_eqm_ops(m, s.x, q.x);
    lemma_eqm_ops(m, fadd(m, r.x, q.x), p.x);
    lemma_eqm_ops(m, fadd(m, s.x, q.x), p.x);
    lemma_eqm_ops(m, of_r, dd);
    lemma_eqm_ops(m, of_s, dd);
    lemma_fsub_zero(m, fmul(m, of_r, dd), ee);
    lemma_fsub_zero(m, fmul(m, of_s, dd), ee);
    assert(fmul(m, dd, of_r) == fmul(m, of_r, dd)) by {
        assert(dd * of_r == of_r * dd) by (nonlinear_arith);
    }
    assert(fmul(m, dd, of_s) == fmul(m, of_s, dd)) by {
        assert(dd * of_s == of_s * dd) by (nonlinear_arith);
    }
    lemma_cancel(m, dd, of_r, of_s);
    lemma_add_cancel(m, fadd(m, r.x, q.x), fadd(m, s.x, q.x), p.x);
    lemma_add_cancel(m, r.x, s.x, q.x);
    // and the second in the ordinate
    let up_r = fadd(m, r.y, q.y);
    let up_s = fadd(m, s.y, q.y);
    let rhs = fmul(m, dy, fsub(m, q.x, r.x));
    lemma_eqm_ops(m, r.y, q.y);
    lemma_eqm_ops(m, s.y, q.y);
    lemma_eqm_ops(m, q.x, r.x);
    lemma_eqm_ops(m, dy, fsub(m, q.x, r.x));
    lemma_eqm_ops(m, up_r, dx);
    lemma_eqm_ops(m, up_s, dx);
    lemma_fsub_zero(m, fmul(m, up_r, dx), rhs);
    lemma_fsub_zero(m, fmul(m, up_s, dx), rhs);
    assert(fmul(m, dx, up_r) == fmul(m, up_r, dx)) by {
        assert(dx * up_r == up_r * dx) by (nonlinear_arith);
    }
    assert(fmul(m, dx, up_s) == fmul(m, up_s, dx)) by {
        assert(dx * up_s == up_s * dx) by (nonlinear_arith);
    }
    lemma_cancel(m, dx, up_r, up_s);
    lemma_add_cancel(m, r.y, s.y, q.y);
}

/// Where the two polynomials of doubling vanish over a field on a point
/// that has a tangent, the other point is its double.
pub proof fn lemma_double_forced(m: nat, p: Pt, r: Pt)
    requires
        is_field(m),
        p.x < m && p.y < m && r.x < m && r.y < m,
        fadd(m, p.y, p.y) != 0,
        double_poly_x(m, p.x, p.y, r.x) == 0,
        double_poly_y(m, p.x, p.y, r.x, r.y) == 0,
    ensures
        r == double(m, p),
{
    let s = double(m, p);
    lemma_eqm_ops(m, p.y, p.y);
    lemma_double_vanishes(m, p);
    let l = tangent_slope(m, p);
    lemma_eqm_ops(m, fsub(m, fmul(m, l, l), p.x), p.x);
    lemma_eqm_ops(m, fmul(m, l, fsub(m, p.x, s.x)), p.y);
    lemma_small_mod(2, m);
    lemma_units(m, 0);
    lemma_units(m, p.y);
    assert(fadd(m, 0, 0) == 0);
    assert(p.y != 0);
    // four and twice the ordinate are not zero
    lemma_eqm_ops(m, 2, 2);
    lemma_product_not_zero(m, 2, 2);
    assert(fmul(m, 2, 2) == 4nat % m);
    let yy = fmul(m, p.y, p.y);
    lemma_eqm_ops(m, p.y, p.y);
    lemma_product_not_zero(m, p.y, p.y);
    let c = fmul(m, 4nat % m, yy);
    lemma_eqm_ops(m, 4nat % m, yy);
    lemma_product_not_zero(m, 4nat % m, yy);
    let twice = fmul(m, 2nat % m, p.x);
    lemma_eqm_ops(m, 2nat % m, p.x);
    let xx = fmul(m, p.x, p.x);
    let n = fmul(m, 9nat % m, fmul(m, xx, xx));
    lemma_eqm_ops(m, 9nat % m, fmul(m, xx, xx));
    let of_r = fadd(m, r.x, twice);
    let of_s = fadd(m, s.x, twice);
    lemma_eqm_ops(m, r.x, twice);
    lemma_eqm_ops(m, s.x, twice);
    lemma_eqm_ops(m, c, of_r);
    lemma_eqm_ops(m, c, of_s);
    lemma_fsub_zero(m, fmul(m, c, of_r), n);
    lemma_fsub_zero(m, fmul(m, c, of_s), n);
    lemma_cancel(m, c, of_r, of_s);
    lemma_add_cancel(m, r.x, s.x, twice);
    // the second polynomial is linear in the ordinate
    let d = fmul(m, 2nat % m, p.y);
    lemma_eqm_ops(m, 2nat % m, p.y);
    lemma_product_not_zero(m, 2nat % m, p.y);
    let up_r = fadd(m, r.y, p.y);
    let up_s = fadd(m, s.y, p.y);
    let rhs = fmul(m, fmul(m, 3nat % m, xx), fsub(m, p.x, r.x));
    lemma_eqm_ops(m, r.y, p.y);
    lemma_eqm_ops(m, s.y, p.y);
    lemma_eqm_ops(m, fmul(m, 3nat % m, xx), fsub(m, p.x, r.x));
    lemma_eqm_ops(m, d, up_r);
    lemma_eqm_ops(m, d, up_s);
    lemma_fsub_zero(m, fmul(m, d, up_r), rhs);
    lemma_fsub_zero(m, fmul(m, d, up_s), rhs);
    lemma_cancel(m, d, up_r, up_s);
    lemma_add_cancel(m, r.y, s.y, p.y);
}

/// Where the three polynomials of a window vanish on an enabled row over a
/// field, the point of the row has the value of the window's polynomial
/// for its abscissa and `u^2 - z` for its ordinate, and lies on the curve.
pub proof fn lemma_window_forced(m: nat, b: nat, value: nat, p: Pt, u: nat, z: nat)
    requires
        is_field(m),
        value < m && p.x < m && p.y < m && z < m,
        all_zero(mul_fixed_row_polys(m, b, 1, value, p.x, p.y, u, z)),
    ensures
        p.x == value,
        p.y == fsub(m, fmul(m, u, u), z),
        on_curve(m, b, p),
{
    let polys = mul_fixed_row_polys(m, b, 1, value, p.x, p.y, u, z);
    assert(polys[0] == 0 && polys[1] == 0 && polys[2] == 0);
    let uu = fmul(m, u, u);
    lemma_eqm_ops(m, u, u);
    lemma_eqm_ops(m, value, p.x);
    lemma_eqm_ops(m, p.y, z);
    lemma_eqm_ops(m, uu, fadd(m, p.y, z));
    lemma_enabled(m, fsub(m, value, p.x));
    lemma_enabled(m, fsub(m, uu, fadd(m, p.y, z)));
    lemma_fsub_zero(m, value, p.x);
    lemma_fsub_zero(m, uu, fadd(m, p.y, z));
    // y = (y + z) - z
    lemma_eqm_ops(m, uu, z);
    lemma_eqm_ring(m, fadd(m, p.y, z) as int, (p.y + z) as int, z as int, z as int);
    lemma_eqm_reduced(m, fsub(m, uu, z), p.y);
    let curve = curve_poly(m, b, p.x, p.y);
    lemma_eqm_ops(m, fmul(m, p.y, p.y), fadd(m, fmul(m, fmul(m, p.x, p.x), p.x), b % m));
    lemma_enabled(m, curve);
    lemma_point_vanishes(m, b, p);
}

/// Every polynomial of the sequence is zero.
pub open spec fn all_zero(polys: Seq<nat>) -> bool {
    forall|i: int| 0 <= i < polys.len() ==> polys[i] == 0
}

/// On an enabled row a polynomial vanishes only where what the selector
/// multiplies does.
proof fn lemma_enabled(m: nat, x: nat)
    requires
        m > 2,
        x < m,
        fmul(m, 1, x) == 0,
    ensures
        x == 0,
{
    lemma_units(m, x);
}

/// Where the polynomials of complete addition vanish on an enabled row
/// over a field, each indicator is set exactly where the number that it is
/// tied to is zero.
pub proof fn lemma_indicators_forced(
    m: nat,
    a: nat,
    b: nat,
    cc: nat,
    d: nat,
    alpha: nat,
    beta: nat,
    gamma: nat,
    delta: nat,
    l: nat,
    p: Pt,
    q: Pt,
    r: Pt,
)
    requires
        is_field(m),
        a < m && b < m && cc < m && d < m,
        alpha < m && beta < m && gamma < m && delta < m,
        p.x < m && p.y < m && q.x < m && q.y < m,
        all_zero(
            complete_row_polys(
                m,
                1,
                a,
                b,
                cc,
                d,
                alpha,
                beta,
                gamma,
                delta,
                l,
                p.x,
                p.y,
                q.x,
                q.y,
                r.x,
                r.y,
            ),
        ),
    ensures
        a == indicator(p.x == q.x),
        b == indicator(p.x == 0),
        cc == indicator(q.x == 0),
        d == indicator(fadd(m, p.y, q.y) == 0),
{
    let polys = complete_row_polys(
        m,
        1,
        a,
        b,
        cc,
        d,
        alpha,
        beta,
        gamma,
        delta,
        l,
        p.x,
        p.y,
        q.x,
        q.y,
        r.x,
        r.y,
    );
    let one = 1nat % m;
    let dx = fsub(m, q.x, p.x);
    let sy = fadd(m, p.y, q.y);
    lemma_eqm_ops(m, q.x, p.x);
    lemma_eqm_ops(m, p.y, q.y);
    lemma_fsub_zero(m, q.x, p.x);
    assert(polys[4] == 0 && polys[5] == 0 && polys[6] == 0 && polys[7] == 0);
    assert(polys[8] == 0 && polys[9] == 0 && polys[10] == 0 && polys[11] == 0);
    lemma_eqm_ops(m, fmul(m, dx, alpha), fsub(m, one, a));
    lemma_enabled(m, fsub(m, fmul(m, dx, alpha), fsub(m, one, a)));
    lemma_eqm_ops(m, a, dx);
    lemma_enabled(m, fmul(m, a, dx));
    lemma_tie_forced(m, dx, alpha, a);
    lemma_eqm_ops(m, fmul(m, p.x, beta), fsub(m, one, b));
    lemma_enabled(m, fsub(m, fmul(m, p.x, beta), fsub(m, one, b)));
    lemma_eqm_ops(m, b, p.x);
    lemma_enabled(m, fmul(m, b, p.x));
    lemma_tie_forced(m, p.x, beta, b);
    lemma_eqm_ops(m, fmul(m, q.x, gamma), fsub(m, one, cc));
    lemma_enabled(m, fsub(m, fmul(m, q.x, gamma), fsub(m, one, cc)));
    lemma_eqm_ops(m, cc, q.x);
    lemma_enabled(m, fmul(m, cc, q.x));
    lemma_tie_forced(m, q.x, gamma, cc);
    lemma_eqm_ops(m, fmul(m, sy, delta), fsub(m, one, d));
    lemma_enabled(m, fsub(m, fmul(m, sy, delta), fsub(m, one, d)));
    lemma_eqm_ops(m, d, sy);
    lemma_enabled(m, fmul(m, d, sy));
    lemma_tie_forced(m, sy, delta, d);
}

/// Where the polynomials of complete addition vanish on an enabled row
/// over a field, and the operands have a complete sum, the sum on the next
/// row is the complete sum of the operands: the constraints admit no other.
pub proof fn lemma_complete_forced(
    m: nat,
    a: nat,
    b: nat,
    cc: nat,
    d: nat,
    alpha: nat,
    beta: nat,
    gamma: nat,
    delta: nat,
    l: nat,
    p: Pt,
    q: Pt,
    r: Pt,
)
    requires
        is_field(m),
        a < m && b < m && cc < m && d < m,
        alpha < m && beta < m && gamma < m && delta < m,
        l < m,
        p.x < m && p.y < m && q.x < m && q.y < m && r.x < m && r.y < m,
        !no_complete_sum(m, p, q),
        all_zero(
            complete_row_polys(
                m,
                1,
                a,
                b,
                cc,
                d,
                alpha,
                beta,
                gamma,
                delta,
                l,
                p.x,
                p.y,
                q.x,
                q.y,
                r.x,
                r.y,
            ),
        ),
    ensures
        r == add_complete(m, p, q),
{
    let polys = complete_row_polys(
        m,
        1,
        a,
        b,
        cc,
        d,
        alpha,
        beta,
        gamma,
        delta,
        l,
        p.x,
        p.y,
        q.x,
        q.y,
        r.x,
        r.y,
    );
    lemma_indicators_forced(m, a, b, cc, d, alpha, beta, gamma, delta, l, p, q, r);
    let one = 1nat % m;
    lemma_units(m, 0);
    lemma_units(m, 1);
    let dx = fsub(m, q.x, p.x);
    lemma_eqm_ops(m, q.x, p.x);
    lemma_fsub_zero(m, q.x, p.x);
    if p.x == 0 {
        assert(polys[14] == 0 && polys[15] == 0);
        lemma_eqm_ops(m, r.x, q.x);
        lemma_eqm_ops(m, r.y, q.y);
        lemma_units(m, fsub(m, r.x, q.x));
        lemma_units(m, fsub(m, r.y, q.y));
        lemma_fsub_zero(m, r.x, q.x);
        lemma_fsub_zero(m, r.y, q.y);
    } else if q.x == 0 {
        assert(polys[16] == 0 && polys[17] == 0);
        lemma_eqm_ops(m, r.x, p.x);
        lemma_eqm_ops(m, r.y, p.y);
        lemma_units(m, fsub(m, r.x, p.x));
        lemma_units(m, fsub(m, r.y, p.y));
        lemma_fsub_zero(m, r.x, p.x);
        lemma_fsub_zero(m, r.y, p.y);
    } else if p.x == q.x && fadd(m, p.y, q.y) == 0 {
        assert(polys[18] == 0 && polys[19] == 0);
        lemma_units(m, r.x);
        lemma_units(m, r.y);
    } else {
        // a chord or a tangent: the slope is forced, and the sum with it
        assert(polys[12] == 0 && polys[13] == 0 && polys[20] == 0 && polys[21] == 0);
        let x = fsub(m, fsub(m, fmul(m, l, l), p.x), q.x);
        let y = fsub(m, fmul(m, l, fsub(m, p.x, r.x)), p.y);
        lemma_eqm_ops(m, fsub(m, fmul(m, l, l), p.x), q.x);
        lemma_eqm_ops(m, fmul(m, l, fsub(m, p.x, r.x)), p.y);
        lemma_eqm_ops(m, r.x, x);
        lemma_eqm_ops(m, r.y, y);
        lemma_units(m, fsub(m, r.x, x));
        lemma_units(m, fsub(m, r.y, y));
        lemma_fsub_zero(m, r.x, x);
        lemma_fsub_zero(m, r.y, y);
        assert(r.x == x && r.y == y);
        if p.x != q.x {
            let dy = fsub(m, q.y, p.y);
            lemma_eqm_ops(m, q.y, p.y);
            lemma_eqm_ops(m, dx, l);
            lemma_eqm_ops(m, fmul(m, dx, l), dy);
            lemma_units(m, fsub(m, fmul(m, dx, l), dy));
            lemma_fsub_zero(m, fmul(m, dx, l), dy);
            lemma_quotient_forced(m, dx, l, dy);
            assert(l == chord_slope(m, p, q));
        } else {
            let yy = fadd(m, p.y, p.y);
            let xx = fmul(m, p.x, p.x);
            let three = fadd(m, fadd(m, xx, xx), xx);
            lemma_eqm_ops(m, p.y, p.y);
            lemma_eqm_ops(m, fadd(m, xx, xx), xx);
            lemma_eqm_ops(m, yy, l);
            lemma_eqm_ops(m, fmul(m, yy, l), three);
            lemma_units(m, fsub(m, fmul(m, yy, l), three));
            lemma_fsub_zero(m, fmul(m, yy, l), three);
            lemma_quotient_forced(m, yy, l, three);
            assert(l == tangent_slope(m, p));
        }
    }
}

/// A product of two reduced numbers does not depend on their order.
proof fn lemma_commutes(m: nat, a: nat, b: nat)
    ensures
        fmul(m, a, b) == fmul(m, b, a),
{
    assert(a * b == b * a) by (nonlinear_arith);
}

/// Where the polynomials of variable-base multiplication vanish on an
/// enabled step row over a field, and the accumulator shares an abscissa
/// neither with the addend nor with their sum, both slopes are those of the
/// chords, the next accumulator is the accumulator added to its sum with
/// the addend, and the addend's ordinate is that of the base under the sign
/// that the bit gives.
pub proof fn lemma_mul_step_forced(
    m: nat,
    acc: Pt,
    p: Pt,
    l1: nat,
    l2: nat,
    bit: bool,
    u: nat,
    next: Pt,
)
    requires
        is_field(m),
        acc.x < m && acc.y < m && p.x < m && p.y < m && next.x < m && next.y < m,
        l1 < m && l2 < m && u < m,
        acc.x != p.x,
        acc.x != add_incomplete(m, acc, p).x,
        all_zero(
            mul_row_polys(
                m,
                1,
                0,
                acc.x,
                acc.y,
                p.x,
                p.y,
                l1,
                l2,
                indicator(bit),
                u,
                next.x,
                next.y,
            ),
        ),
    ensures
        l1 == chord_slope(m, acc, p),
        l2 == chord_slope(m, acc, add_incomplete(m, acc, p)),
        next == add_incomplete(m, acc, add_incomplete(m, acc, p)),
        p.y == addend(m, Pt { x: p.x, y: u }, bit).y,
{
    let polys = mul_row_polys(
        m,
        1,
        0,
        acc.x,
        acc.y,
        p.x,
        p.y,
        l1,
        l2,
        indicator(bit),
        u,
        next.x,
        next.y,
    );
    assert(polys[0] == 0 && polys[1] == 0 && polys[2] == 0 && polys[3] == 0 && polys[4] == 0);
    lemma_units(m, 0);
    lemma_units(m, 1);
    lemma_small_mod(2, m);
    // the selectors of the step and of the tie are not zero where `z` is
    let below = fsub(m, 0, 1);
    let under = fsub(m, 0, 2);
    lemma_eqm_ops(m, 0, 1);
    lemma_eqm_ops(m, 0, 2);
    lemma_fsub_zero(m, 0, 1);
    lemma_fsub_zero(m, 0, 2);
    lemma_product_not_zero(m, below, under);
    lemma_eqm_ops(m, below, under);
    let step = fmul(m, below, under);
    lemma_units(m, step);
    lemma_units(m, below);
    // the first chord
    let dx = fsub(m, p.x, acc.x);
    let dy = fsub(m, p.y, acc.y);
    lemma_eqm_ops(m, p.x, acc.x);
    lemma_eqm_ops(m, p.y, acc.y);
    lemma_fsub_zero(m, p.x, acc.x);
    lemma_eqm_ops(m, l1, dx);
    lemma_eqm_ops(m, fmul(m, l1, dx), dy);
    lemma_no_zero_divisors(m, step, fsub(m, fmul(m, l1, dx), dy));
    lemma_fsub_zero(m, fmul(m, l1, dx), dy);
    lemma_commutes(m, l1, dx);
    lemma_quotient_forced(m, dx, l1, dy);
    let inner = add_incomplete(m, acc, p);
    lemma_eqm_ops(m, fsub(m, fmul(m, l1, l1), acc.x), p.x);
    lemma_eqm_ops(m, fmul(m, l1, fsub(m, acc.x, inner.x)), acc.y);
    // the second chord
    let ex = fsub(m, inner.x, acc.x);
    let ey = fsub(m, inner.y, acc.y);
    lemma_eqm_ops(m, inner.x, acc.x);
    lemma_eqm_ops(m, inner.y, acc.y);
    lemma_fsub_zero(m, inner.x, acc.x);
    lemma_eqm_ops(m, l2, ex);
    lemma_eqm_ops(m, fmul(m, l2, ex), ey);
    lemma_no_zero_divisors(m, step, fsub(m, fmul(m, l2, ex), ey));
    lemma_fsub_zero(m, fmul(m, l2, ex), ey);
    lemma_commutes(m, l2, ex);
    lemma_quotient_forced(m, ex, l2, ey);
    // the next accumulator
    let x = fsub(m, fsub(m, fmul(m, l2, l2), acc.x), inner.x);
    lemma_eqm_ops(m, fsub(m, fmul(m, l2, l2), acc.x), inner.x);
    lemma_eqm_ops(m, next.x, x);
    lemma_no_zero_divisors(m, step, fsub(m, next.x, x));
    lemma_fsub_zero(m, next.x, x);
    let y = fsub(m, fmul(m, l2, fsub(m, acc.x, next.x)), acc.y);
    lemma_eqm_ops(m, fmul(m, l2, fsub(m, acc.x, next.x)), acc.y);
    lemma_eqm_ops(m, next.y, y);
    lemma_no_zero_divisors(m, step, fsub(m, next.y, y));
    lemma_fsub_zero(m, next.y, y);
    // the addend
    lemma_sign_of_bit(m, bit, u);
    let signed = fmul(m, fsub(m, fadd(m, indicator(bit), indicator(bit)), 1), u);
    lemma_eqm_ops(m, p.y, signed);
    lemma_no_zero_divisors(m, below, fsub(m, p.y, signed));
    lemma_fsub_zero(m, p.y, signed);
}

/// `(2 k - 1) u` is `u` for a set bit and its negative for a clear one.
proof fn lemma_sign_of_bit(m: nat, bit: bool, u: nat)
    requires
        m > 2,
        u < m,
    ensures
        fmul(m, fsub(m, fadd(m, indicator(bit), indicator(bit)), 1), u) == (if bit {
            u
        } else {
            fneg(m, u)
        }),
        fmul(m, fsub(m, fadd(m, indicator(bit), indicator(bit)), 1), u) < m,
{
    lemma_units(m, u);
    lemma_units(m, 0);
    lemma_small_mod(2, m);
    let k = indicator(bit);
    let c = fsub(m, fadd(m, k, k), 1);
    lemma_eqm_ops(m, fadd(m, k, k), 1);
    lemma_eqm_ops(m, c, u);
    lemma_fadd_zero(m, u, fneg(m, u));
    if bit {
        lemma_small_mod(1, m);
        assert(c == 1);
    } else {
        // (0 - 1) u = 0 - u
        lemma_eqm_ops(m, 0, 1);
        lemma_eqm_ops(m, 0, u);
        lemma_eqm_ring(m, c as int, -1, u as int, u as int);
        assert(-1 * u == 0 - u);
        lemma_eqm_reduced(m, fmul(m, c, u), fsub(m, 0, u));
    }
}

/// Where the polynomials of variable-base multiplication vanish on the
/// enabled row of the last step over a field, the addend's ordinate is
/// that of the base under the sign that the bit gives.
pub proof fn lemma_mul_tie_forced(
    m: nat,
    acc: Pt,
    p: Pt,
    l1: nat,
    l2: nat,
    bit: bool,
    u: nat,
    next: Pt,
)
    requires
        is_field(m),
        p.y < m && u < m,
        all_zero(
            mul_row_polys(
                m,
                1,
                2,
                acc.x,
                acc.y,
                p.x,
                p.y,
                l1,
                l2,
                indicator(bit),
                u,
                next.x,
                next.y,
            ),
        ),
    ensures
        p.y == addend(m, Pt { x: p.x, y: u }, bit).y,
{
    let polys = mul_row_polys(
        m,
        1,
        2,
        acc.x,
        acc.y,
        p.x,
        p.y,
        l1,
        l2,
        indicator(bit),
        u,
        next.x,
        next.y,
    );
    assert(polys[4] == 0);
    lemma_units(m, 1);
    lemma_small_mod(2, m);
    lemma_eqm_ops(m, 2, 1);
    lemma_small_mod(1, m);
    assert(fsub(m, 2, 1) == 1);
    lemma_sign_of_bit(m, bit, u);
    let signed = fmul(m, fsub(m, fadd(m, indicator(bit), indicator(bit)), 1), u);
    lemma_eqm_ops(m, p.y, signed);
    lemma_units(m, fsub(m, p.y, signed));
    lemma_fsub_zero(m, p.y, signed);
}

/// Where the polynomials of variable-base multiplication vanish on the
/// enabled last row over a field, with the abscissa of the base in the
/// second slope's cell, the operand of the last addition is the identity
/// for a set bit and the inverse of the base for a clear one.
pub proof fn lemma_mul_last_forced(
    m: nat,
    acc: Pt,
    p: Pt,
    l1: nat,
    t: Pt,
    bit: bool,
    next: Pt,
)
    requires
        is_field(m),
        p.x < m && p.y < m && t.x < m && t.y < m,
        all_zero(
            mul_row_polys(
                m,
                1,
                1,
                acc.x,
                acc.y,
                p.x,
                p.y,
                l1,
                t.x,
                indicator(bit),
                t.y,
                next.x,
                next.y,
            ),
        ),
    ensures
        p == correction(m, t, bit),
{
    let polys = mul_row_polys(
        m,
        1,
        1,
        acc.x,
        acc.y,
        p.x,
        p.y,
        l1,
        t.x,
        indicator(bit),
        t.y,
        next.x,
        next.y,
    );
    assert(polys[5] == 0 && polys[6] == 0);
    lemma_units(m, 0);
    lemma_units(m, 1);
    lemma_units(m, t.x);
    lemma_units(m, t.y);
    lemma_small_mod(2, m);
    // the selector of the last row is not zero where `z` is one
    let under = fsub(m, 1, 2);
    lemma_eqm_ops(m, 1, 2);
    lemma_fsub_zero(m, 1, 2);
    lemma_units(m, under);
    let last = fmul(m, 1, under);
    let nk = fsub(m, 1, indicator(bit));
    lemma_eqm_ops(m, 1, indicator(bit));
    lemma_units(m, nk);
    let x = fmul(m, nk, t.x);
    let y = fmul(m, nk, t.y);
    lemma_eqm_ops(m, nk, t.x);
    lemma_eqm_ops(m, nk, t.y);
    lemma_eqm_ops(m, p.x, x);
    lemma_eqm_ops(m, p.y, y);
    lemma_no_zero_divisors(m, last, fsub(m, p.x, x));
    lemma_no_zero_divisors(m, last, fadd(m, p.y, y));
    lemma_fsub_zero(m, p.x, x);
    lemma_fadd_zero(m, p.y, y);
    lemma_fadd_zero(m, y, p.y);
    assert(fadd(m, p.y, y) == fadd(m, y, p.y));
    lemma_fsub_zero(m, 0, t.y);
    lemma_small_mod(1, m);
}

} // verus!

//! The witnesses satisfy their constraints: the values that each gadget
//! computes make the polynomials of its rows vanish.

use crate::ecc::add_complete::{complete_slope, indicator, no_complete_sum, tied_inverse};
use crate::ecc::curve::{
    add_complete, add_incomplete, chord_slope, double, identity, on_curve, Pt, tangent_slope,
    third_point,
};
use crate::ecc::gates::{
    add_poly_x, add_poly_y, boolean, complete_row_polys, curve_poly, double_poly_x, double_poly_y,
    mul_fixed_row_polys, mul_row_polys, short_row_polys,
};
use crate::ecc::mul::{addend, correction, ladder_step};
use crate::ecc::mul_fixed_short::apply_sign;
use crate::field::{
    eqm, fadd, finv, fmul, fneg, fsub, is_inverse, lemma_div_mul, lemma_eqm_ops, lemma_eqm_reduced,
    lemma_eqm_ring, lemma_fadd_zero, lemma_fmul_zero, lemma_fsub_zero, lemma_sub_then_add,
    lemma_units,
};
use vstd::arithmetic::div_mod::lemma_small_mod;
use vstd::prelude::*;

verus! {

/// A point is on the curve exactly when the curve polynomial vanishes on its
/// coordinates.
pub proof fn lemma_point_vanishes(m: nat, b: nat, p: Pt)
    requires
        m > 0,
    ensures
        on_curve(m, b, p) <==> curve_poly(m, b, p.x, p.y) == 0,
{
    let lhs = fmul(m, p.y, p.y);
    let rhs = fadd(m, fmul(m, fmul(m, p.x, p.x), p.x), b % m);
    lemma_eqm_ops(m, p.y, p.y);
    lemma_eqm_ops(m, fmul(m, fmul(m, p.x, p.x), p.x), b % m);
    lemma_fsub_zero(m, lhs, rhs);
}

/// A bit makes `k (1 - k)` vanish.
pub proof fn lemma_bit_vanishes(m: nat, bit: bool)
    requires
        m > 1,
    ensures
        boolean(
            m,
            if bit {
                1
            } else {
                0
            },
        ) == 0,
{
    lemma_units(m, 0);
    lemma_units(m, 1);
}

/// The chord's sum satisfies the two polynomials of incomplete addition,
/// where the difference of the abscissas has an inverse.
pub proof fn lemma_add_vanishes(m: nat, p: Pt, q: Pt)
    requires
        m > 0,
        p.x < m && p.y < m && q.x < m && q.y < m,
        is_inverse(m, fsub(m, q.x, p.x), finv(m, fsub(m, q.x, p.x))),
    ensures
        add_poly_x(m, p.x, p.y, q.x, q.y, add_incomplete(m, p, q).x) == 0,
        add_poly_y(
            m,
            p.x,
            p.y,
            q.x,
            q.y,
            add_incomplete(m, p, q).x,
            add_incomplete(m, p, q).y,
        ) == 0,
{
    let r = add_incomplete(m, p, q);
    let dn = fsub(m, q.x, p.x);
    let en = fsub(m, q.y, p.y);
    let ln = chord_slope(m, p, q);
    lemma_eqm_ops(m, q.x, p.x);
    lemma_eqm_ops(m, q.y, p.y);
    lemma_div_mul(m, en, dn);
    lemma_eqm_ops(m, ln, dn);
    let (xp, yp, xq, yq) = (p.x as int, p.y as int, q.x as int, q.y as int);
    let (d, e, l, xa, ya) = (dn as int, en as int, ln as int, r.x as int, r.y as int);
    // l d = e
    assert(eqm(m, l * d, e));
    // xa = l^2 - xp - xq
    let lln = fmul(m, ln, ln);
    lemma_eqm_ops(m, ln, ln);
    lemma_eqm_ops(m, lln, p.x);
    lemma_eqm_ops(m, fsub(m, lln, p.x), q.x);
    lemma_eqm_ring(m, lln as int, l * l, xp, xp);
    lemma_eqm_ring(m, fsub(m, lln, p.x) as int, l * l - xp, xq, xq);
    assert(eqm(m, xa, l * l - xp - xq));
    // ya = l (xp - xa) - yp
    let wn = fsub(m, p.x, r.x);
    lemma_eqm_ops(m, p.x, r.x);
    lemma_eqm_ops(m, ln, wn);
    lemma_eqm_ops(m, fmul(m, ln, wn), p.y);
    lemma_eqm_ring(m, l, l, wn as int, xp - xa);
    lemma_eqm_ring(m, fmul(m, ln, wn) as int, l * (xp - xa), yp, yp);
    assert(eqm(m, ya, l * (xp - xa) - yp));
    // the first polynomial
    let dxv = fsub(m, p.x, q.x);
    let dyv = fsub(m, p.y, q.y);
    lemma_eqm_ops(m, p.x, q.x);
    lemma_eqm_ops(m, p.y, q.y);
    lemma_eqm_ops(m, r.x, q.x);
    lemma_eqm_ops(m, fadd(m, r.x, q.x), p.x);
    lemma_eqm_ops(m, dxv, dxv);
    lemma_eqm_ops(m, dyv, dyv);
    let sn = fadd(m, fadd(m, r.x, q.x), p.x);
    lemma_eqm_ops(m, sn, fmul(m, dxv, dxv));
    lemma_eqm_ops(m, fmul(m, sn, fmul(m, dxv, dxv)), fmul(m, dyv, dyv));
    lemma_eqm_ring(m, d, xq - xp, d, xq - xp);
    lemma_eqm_ring(m, e, yq - yp, e, yq - yp);
    lemma_eqm_ring(m, dxv as int, xp - xq, dxv as int, xp - xq);
    lemma_eqm_ring(m, dyv as int, yp - yq, dyv as int, yp - yq);
    assert((xp - xq) * (xp - xq) == (xq - xp) * (xq - xp)) by (nonlinear_arith);
    assert((yp - yq) * (yp - yq) == (yq - yp) * (yq - yp)) by (nonlinear_arith);
    // s = xa + xq + xp = l^2
    lemma_eqm_ring(m, fadd(m, r.x, q.x) as int, xa + xq, xp, xp);
    lemma_eqm_ring(m, xa, l * l - xp - xq, xq + xp, xq + xp);
    assert(eqm(m, sn as int, l * l));
    // s dx^2 = l^2 d^2 = (l d)^2 = e^2 = dy^2
    lemma_eqm_ring(m, sn as int, l * l, fmul(m, dxv, dxv) as int, d * d);
    lemma_eqm_ring(m, l * d, e, l * d, e);
    assert((l * l) * (d * d) == (l * d) * (l * d)) by (nonlinear_arith);
    lemma_eqm_ring(m, fmul(m, sn, fmul(m, dxv, dxv)) as int, e * e, fmul(m, dyv, dyv) as int, e * e);
    lemma_small_mod(0, m);
    lemma_eqm_reduced(m, add_poly_x(m, p.x, p.y, q.x, q.y, r.x), 0);
    // the second polynomial: (ya + yq) dx - dy (xq - xa)
    let tn = fadd(m, r.y, q.y);
    let vn = fsub(m, q.x, r.x);
    lemma_eqm_ops(m, r.y, q.y);
    lemma_eqm_ops(m, q.x, r.x);
    lemma_eqm_ops(m, tn, dxv);
    lemma_eqm_ops(m, dyv, vn);
    lemma_eqm_ops(m, fmul(m, tn, dxv), fmul(m, dyv, vn));
    let a = xp - xa;
    let b = xq - xa;
    // ya + yq = l a + e
    lemma_eqm_ring(m, ya, l * a - yp, yq, yq);
    lemma_eqm_ring(m, l * a, l * a, yq - yp, e);
    assert(l * a - yp + yq == l * a + (yq - yp));
    assert(eqm(m, tn as int, l * a + e));
    // dx = -d, dy = -e
    lemma_eqm_ring(m, 0, 0, xq - xp, d);
    lemma_eqm_ring(m, 0, 0, yq - yp, e);
    assert(eqm(m, dxv as int, 0 - d));
    assert(eqm(m, dyv as int, 0 - e));
    lemma_eqm_ring(m, tn as int, l * a + e, dxv as int, 0 - d);
    lemma_eqm_ring(m, dyv as int, 0 - e, vn as int, b);
    lemma_eqm_ring(
        m,
        fmul(m, tn, dxv) as int,
        (l * a + e) * (0 - d),
        fmul(m, dyv, vn) as int,
        (0 - e) * b,
    );
    assert((l * a + e) * (0 - d) - (0 - e) * b == (e * b - e * d) - (l * d) * a)
        by (nonlinear_arith);
    lemma_eqm_ring(m, l * d, e, a, a);
    lemma_eqm_ring(m, e * b - e * d, e * b - e * d, (l * d) * a, e * a);
    assert((e * b - e * d) - e * a == e * ((xq - xp) - d)) by (nonlinear_arith)
        requires
            a == xp - xa,
            b == xq - xa,
    ;
    lemma_eqm_ring(m, xq - xp, d, d, d);
    lemma_eqm_ring(m, e, e, (xq - xp) - d, 0);
    assert(e * 0 == 0);
    lemma_eqm_reduced(m, add_poly_y(m, p.x, p.y, q.x, q.y, r.x, r.y), 0);
}

/// The tangent's double satisfies the two polynomials of doubling, where
/// twice the ordinate has an inverse.
pub proof fn lemma_double_vanishes(m: nat, p: Pt)
    requires
        m > 0,
        p.x < m && p.y < m,
        is_inverse(m, fadd(m, p.y, p.y), finv(m, fadd(m, p.y, p.y))),
    ensures
        double_poly_x(m, p.x, p.y, double(m, p).x) == 0,
        double_poly_y(m, p.x, p.y, double(m, p).x, double(m, p).y) == 0,
{
    let r = double(m, p);
    let xxn = fmul(m, p.x, p.x);
    let nn = fadd(m, fadd(m, xxn, xxn), xxn);
    let dn = fadd(m, p.y, p.y);
    let ln = tangent_slope(m, p);
    lemma_eqm_ops(m, p.x, p.x);
    lemma_eqm_ops(m, xxn, xxn);
    lemma_eqm_ops(m, fadd(m, xxn, xxn), xxn);
    lemma_eqm_ops(m, p.y, p.y);
    lemma_div_mul(m, nn, dn);
    lemma_eqm_ops(m, ln, dn);
    let (xp, yp, xa, ya) = (p.x as int, p.y as int, r.x as int, r.y as int);
    let (xx, n, d, l) = (xxn as int, nn as int, dn as int, ln as int);
    // n = 3 x^2, d = 2 y, l d = n
    lemma_eqm_ring(m, fadd(m, xxn, xxn) as int, xx + xx, xx, xx);
    lemma_eqm_ring(m, xx, xp * xp, 3, 3);
    assert(xx + xx + xx == xx * 3);
    assert(eqm(m, n, (xp * xp) * 3));
    assert(eqm(m, d, yp + yp));
    assert(eqm(m, l * d, n));
    // xa = l^2 - xp - xp, ya = l (xp - xa) - yp
    let lln = fmul(m, ln, ln);
    lemma_eqm_ops(m, ln, ln);
    lemma_eqm_ops(m, lln, p.x);
    lemma_eqm_ops(m, fsub(m, lln, p.x), p.x);
    lemma_eqm_ring(m, lln as int, l * l, xp, xp);
    lemma_eqm_ring(m, fsub(m, lln, p.x) as int, l * l - xp, xp, xp);
    let wn = fsub(m, p.x, r.x);
    lemma_eqm_ops(m, p.x, r.x);
    lemma_eqm_ops(m, ln, wn);
    lemma_eqm_ops(m, fmul(m, ln, wn), p.y);
    lemma_eqm_ring(m, l, l, wn as int, xp - xa);
    lemma_eqm_ring(m, fmul(m, ln, wn) as int, l * (xp - xa), yp, yp);
    assert(eqm(m, xa, l * l - xp - xp));
    assert(eqm(m, ya, l * (xp - xa) - yp));
    // the first polynomial: 4 y^2 (xa + 2 xp) - 9 x^4
    let four = 4nat % m;
    let two = 2nat % m;
    let nine = 9nat % m;
    let yyn = fmul(m, p.y, p.y);
    let an = fmul(m, four, yyn);
    let bn = fadd(m, r.x, fmul(m, two, p.x));
    let cn = fmul(m, nine, fmul(m, xxn, xxn));
    lemma_eqm_ops(m, 4, 0);
    lemma_eqm_ops(m, 2, 0);
    lemma_eqm_ops(m, 9, 0);
    lemma_eqm_ops(m, four, yyn);
    lemma_eqm_ops(m, two, p.x);
    lemma_eqm_ops(m, r.x, fmul(m, two, p.x));
    lemma_eqm_ops(m, nine, fmul(m, xxn, xxn));
    lemma_eqm_ops(m, an, bn);
    lemma_eqm_ops(m, fmul(m, an, bn), cn);
    lemma_eqm_ring(m, four as int, 4, yyn as int, yp * yp);
    lemma_eqm_ring(m, two as int, 2, xp, xp);
    lemma_eqm_ring(m, xa, l * l - xp - xp, fmul(m, two, p.x) as int, 2 * xp);
    assert(l * l - xp - xp + 2 * xp == l * l);
    lemma_eqm_ring(m, an as int, 4 * (yp * yp), bn as int, l * l);
    // 4 y^2 l^2 = (l (2 y))^2 = n^2 = 9 x^4
    lemma_eqm_ring(m, l, l, d, yp + yp);
    lemma_eqm_ring(m, l * (yp + yp), n, l * (yp + yp), n);
    assert((4 * (yp * yp)) * (l * l) == (l * (yp + yp)) * (l * (yp + yp))) by (nonlinear_arith);
    lemma_eqm_ring(m, n, (xp * xp) * 3, n, (xp * xp) * 3);
    lemma_eqm_ring(m, xx, xp * xp, xx, xp * xp);
    lemma_eqm_ring(m, nine as int, 9, fmul(m, xxn, xxn) as int, (xp * xp) * (xp * xp));
    assert(((xp * xp) * 3) * ((xp * xp) * 3) == 9 * ((xp * xp) * (xp * xp))) by (nonlinear_arith);
    lemma_eqm_ring(m, fmul(m, an, bn) as int, n * n, cn as int, n * n);
    lemma_small_mod(0, m);
    lemma_eqm_reduced(m, double_poly_x(m, p.x, p.y, r.x), 0);
    // the second polynomial: 2 y (ya + y) - 3 x^2 (xp - xa)
    let three = 3nat % m;
    let en = fmul(m, two, p.y);
    let fnn = fadd(m, r.y, p.y);
    let gn = fmul(m, three, xxn);
    lemma_eqm_ops(m, 3, 0);
    lemma_eqm_ops(m, two, p.y);
    lemma_eqm_ops(m, r.y, p.y);
    lemma_eqm_ops(m, three, xxn);
    lemma_eqm_ops(m, en, fnn);
    lemma_eqm_ops(m, gn, wn);
    lemma_eqm_ops(m, fmul(m, en, fnn), fmul(m, gn, wn));
    let w = xp - xa;
    lemma_eqm_ring(m, two as int, 2, yp, yp);
    lemma_eqm_ring(m, ya, l * w - yp, yp, yp);
    assert(l * w - yp + yp == l * w);
    lemma_eqm_ring(m, en as int, 2 * yp, fnn as int, l * w);
    lemma_eqm_ring(m, three as int, 3, xx, xp * xp);
    lemma_eqm_ring(m, gn as int, 3 * (xp * xp), wn as int, w);
    // 2 y l w = (l (2 y)) w = n w = 3 x^2 w
    assert((2 * yp) * (l * w) == (l * (yp + yp)) * w) by (nonlinear_arith);
    lemma_eqm_ring(m, l * (yp + yp), n, w, w);
    assert(3 * (xp * xp) == (xp * xp) * 3);
    lemma_eqm_ring(m, n, (xp * xp) * 3, w, w);
    lemma_eqm_ring(m, fmul(m, en, fnn) as int, n * w, fmul(m, gn, wn) as int, n * w);
    lemma_eqm_reduced(m, double_poly_y(m, p.x, p.y, r.x, r.y), 0);
}

/// The signed product satisfies the two polynomials of the sign.
pub proof fn lemma_sign_vanishes(m: nat, q: nat, unsigned: Pt, sign: bool)
    requires
        m > 1,
        unsigned.x < m && unsigned.y < m,
    ensures
        short_row_polys(
            m,
            q,
            if sign {
                1
            } else {
                0
            },
            unsigned.x,
            unsigned.y,
            apply_sign(m, unsigned, sign).x,
            apply_sign(m, unsigned, sign).y,
        ) =~= seq![0nat, 0nat],
{
    let out = apply_sign(m, unsigned, sign);
    lemma_fadd_zero(m, unsigned.y, fneg(m, unsigned.y));
    lemma_fsub_zero(m, unsigned.y, unsigned.y);
    lemma_fsub_zero(m, unsigned.x, unsigned.x);
    lemma_units(m, 0);
    lemma_units(m, 1);
    lemma_eqm_ops(m, unsigned.y, out.y);
    lemma_units(m, fadd(m, unsigned.y, out.y));
    lemma_units(m, fsub(m, unsigned.y, out.y));
    lemma_fmul_zero(m, q);
}

/// The point that a table's row gives for a digit satisfies the polynomials
/// of fixed-base multiplication: its abscissa is the value of the row's
/// polynomial, its ordinate is `u^2 - z`, and, where the point is on the
/// curve, the curve equation holds.
pub proof fn lemma_window_vanishes(m: nat, b: nat, q: nat, value: nat, u: nat, z: nat)
    requires
        m > 1,
        value < m,
        z < m,
    ensures
        mul_fixed_row_polys(m, b, q, value, value, fsub(m, fmul(m, u, u), z), u, z)[0] == 0,
        mul_fixed_row_polys(m, b, q, value, value, fsub(m, fmul(m, u, u), z), u, z)[1] == 0,
        on_curve(m, b, Pt { x: value, y: fsub(m, fmul(m, u, u), z) }) ==> mul_fixed_row_polys(
            m,
            b,
            q,
            value,
            value,
            fsub(m, fmul(m, u, u), z),
            u,
            z,
        )[2] == 0,
{
    let y = fsub(m, fmul(m, u, u), z);
    lemma_eqm_ops(m, u, u);
    lemma_sub_then_add(m, fmul(m, u, u), z);
    lemma_fsub_zero(m, value, value);
    lemma_fsub_zero(m, fmul(m, u, u), fmul(m, u, u));
    lemma_point_vanishes(m, b, Pt { x: value, y });
    lemma_fmul_zero(m, q);
}

/// Every number that complete addition inverts has an inverse unless it is
/// zero: the difference of the abscissas, each abscissa, the sum of the
/// ordinates, and twice the first ordinate.
pub open spec fn inverses_exist(m: nat, p: Pt, q: Pt) -> bool {
    &&& invertible(m, fsub(m, q.x, p.x))
    &&& invertible(m, p.x)
    &&& invertible(m, q.x)
    &&& invertible(m, fadd(m, p.y, q.y))
    &&& invertible(m, fadd(m, p.y, p.y))
}

/// The number is zero or has an inverse, as every number of a field does.
pub open spec fn invertible(m: nat, v: nat) -> bool {
    v != 0 ==> is_inverse(m, v, finv(m, v))
}

/// The polynomials of a row of complete addition on the values that the
/// gadget witnesses for the operands `p` and `q`.
pub open spec fn complete_witnessed(m: nat, s: nat, p: Pt, q: Pt) -> Seq<nat> {
    let r = add_complete(m, p, q);
    complete_row_polys(
        m,
        s,
        indicator(p.x == q.x),
        indicator(p.x == 0),
        indicator(q.x == 0),
        indicator(fadd(m, p.y, q.y) == 0),
        tied_inverse(m, fsub(m, q.x, p.x)),
        tied_inverse(m, p.x),
        tied_inverse(m, q.x),
        tied_inverse(m, fadd(m, p.y, q.y)),
        complete_slope(m, p, q),
        p.x,
        p.y,
        q.x,
        q.y,
        r.x,
        r.y,
    )
}

/// An indicator and the inverse that it is tied to satisfy their two
/// polynomials: `v inv - (1 - f)` and `f v` vanish.
proof fn lemma_tie_vanishes(m: nat, v: nat)
    requires
        m > 1,
        v < m,
        invertible(m, v),
    ensures
        fsub(m, fmul(m, v, tied_inverse(m, v)), fsub(m, 1nat % m, indicator(v == 0))) == 0,
        fmul(m, indicator(v == 0), v) == 0,
        boolean(m, indicator(v == 0)) == 0,
{
    lemma_units(m, v);
    lemma_units(m, 0);
    lemma_units(m, 1);
    lemma_bit_vanishes(m, v == 0);
}

/// The indicators and inverses of complete addition satisfy the first
/// twelve polynomials of its row.
pub proof fn lemma_complete_ties_vanish(m: nat, s: nat, p: Pt, q: Pt)
    requires
        m > 1,
        p.x < m && p.y < m && q.x < m && q.y < m,
        inverses_exist(m, p, q),
    ensures
        forall|i: int| 0 <= i < 12 ==> (#[trigger] complete_witnessed(m, s, p, q)[i]) == 0,
{
    let dx = fsub(m, q.x, p.x);
    let sy = fadd(m, p.y, q.y);
    lemma_eqm_ops(m, q.x, p.x);
    lemma_eqm_ops(m, p.y, q.y);
    lemma_fsub_zero(m, q.x, p.x);
    lemma_tie_vanishes(m, dx);
    lemma_tie_vanishes(m, p.x);
    lemma_tie_vanishes(m, q.x);
    lemma_tie_vanishes(m, sy);
    lemma_fmul_zero(m, s);
}

/// The slope of complete addition satisfies the two polynomials that fix
/// it: the chord's where the abscissas differ, the tangent's where the
/// points are equal.
pub proof fn lemma_complete_slope_vanishes(m: nat, s: nat, p: Pt, q: Pt)
    requires
        m > 1,
        p.x < m && p.y < m && q.x < m && q.y < m,
        inverses_exist(m, p, q),
        !no_complete_sum(m, p, q),
    ensures
        complete_witnessed(m, s, p, q)[12] == 0,
        complete_witnessed(m, s, p, q)[13] == 0,
{
    let dx = fsub(m, q.x, p.x);
    let e = fsub(m, q.y, p.y);
    let sy = fadd(m, p.y, q.y);
    let l = complete_slope(m, p, q);
    let xx = fmul(m, p.x, p.x);
    let n = fadd(m, fadd(m, xx, xx), xx);
    let t = fadd(m, p.y, p.y);
    lemma_eqm_ops(m, q.x, p.x);
    lemma_eqm_ops(m, q.y, p.y);
    lemma_eqm_ops(m, p.y, q.y);
    lemma_eqm_ops(m, p.y, p.y);
    lemma_eqm_ops(m, p.x, p.x);
    lemma_eqm_ops(m, xx, xx);
    lemma_eqm_ops(m, fadd(m, xx, xx), xx);
    lemma_fsub_zero(m, q.x, p.x);
    lemma_units(m, 0);
    lemma_units(m, 1);
    lemma_fmul_zero(m, s);
    lemma_fsub_zero(m, e, e);
    lemma_fsub_zero(m, n, n);
    if p.x != q.x {
        lemma_div_mul(m, e, dx);
        lemma_fmul_zero(m, fsub(m, fmul(m, t, l), n));
        lemma_fmul_zero(m, fsub(m, 1nat % m, indicator(sy == 0)));
    } else {
        lemma_fmul_zero(m, fsub(m, fmul(m, dx, l), e));
        if sy == 0 {
            lemma_units(m, 1);
            lemma_fmul_zero(m, fsub(m, fmul(m, t, l), n));
        } else if t != 0 {
            lemma_div_mul(m, n, t);
            lemma_fmul_zero(m, fmul(m, 1, 1));
        } else {
            assert(p.x == 0);
            assert(0 * 0 == 0);
            lemma_fmul_zero(m, fmul(m, 1, 1));
        }
    }
}

/// The sum of complete addition satisfies the eight polynomials that
/// select it.
pub proof fn lemma_complete_sum_vanishes(m: nat, s: nat, p: Pt, q: Pt)
    requires
        m > 1,
        p.x < m && p.y < m && q.x < m && q.y < m,
        !no_complete_sum(m, p, q),
    ensures
        forall|i: int| 14 <= i < 22 ==> (#[trigger] complete_witnessed(m, s, p, q)[i]) == 0,
{
    let r = add_complete(m, p, q);
    let l = complete_slope(m, p, q);
    let sy = fadd(m, p.y, q.y);
    let one = 1nat % m;
    lemma_units(m, 0);
    lemma_units(m, 1);
    lemma_fmul_zero(m, s);
    lemma_eqm_ops(m, p.y, q.y);
    lemma_eqm_ops(m, l, l);
    lemma_eqm_ops(m, fmul(m, l, l), p.x);
    lemma_eqm_ops(m, fsub(m, fmul(m, l, l), p.x), q.x);
    lemma_eqm_ops(m, p.x, r.x);
    lemma_eqm_ops(m, l, fsub(m, p.x, r.x));
    lemma_eqm_ops(m, fmul(m, l, fsub(m, p.x, r.x)), p.y);
    let cx = fsub(m, fsub(m, fmul(m, l, l), p.x), q.x);
    let cy = fsub(m, fmul(m, l, fsub(m, p.x, r.x)), p.y);
    lemma_fsub_zero(m, r.x, q.x);
    lemma_fsub_zero(m, r.y, q.y);
    lemma_fsub_zero(m, r.x, p.x);
    lemma_fsub_zero(m, r.y, p.y);
    lemma_fsub_zero(m, r.x, cx);
    lemma_fsub_zero(m, r.y, cy);
    lemma_fmul_zero(m, fsub(m, r.x, q.x));
    lemma_fmul_zero(m, fsub(m, r.y, q.y));
    lemma_fmul_zero(m, fsub(m, r.x, p.x));
    lemma_fmul_zero(m, fsub(m, r.y, p.y));
    lemma_fmul_zero(m, fsub(m, r.x, cx));
    lemma_fmul_zero(m, fsub(m, r.y, cy));
    lemma_fmul_zero(m, r.x);
    lemma_fmul_zero(m, r.y);
    lemma_fmul_zero(m, 1);
    lemma_fmul_zero(m, 0);
    lemma_fsub_zero(m, one, one);
    assert(1 * 1 == 1);
    lemma_small_mod(1, m);
    let a = indicator(p.x == q.x);
    let d = indicator(sy == 0);
    let nb = fsub(m, one, indicator(p.x == 0));
    let nc = fsub(m, one, indicator(q.x == 0));
    let both = fmul(m, nb, nc);
    let ad = fmul(m, a, d);
    let chord = fmul(m, both, fsub(m, one, ad));
    lemma_units(m, nb);
    lemma_units(m, nc);
    lemma_units(m, both);
    lemma_units(m, ad);
    lemma_fmul_zero(m, both);
    lemma_fmul_zero(m, chord);
    lemma_fmul_zero(m, ad);
    lemma_fmul_zero(m, fsub(m, one, ad));
    lemma_fmul_zero(m, fmul(m, nb, indicator(q.x == 0)));
    lemma_fmul_zero(m, fmul(m, both, ad));
    if p.x != 0 && q.x != 0 && !(p.x == q.x && sy == 0) {
        // the third point of the line of slope l
        assert(r == third_point(m, l, p, q)) by {
            if p.x == q.x {
                assert(fadd(m, p.y, p.y) != 0);
            }
        }
    }
}

/// The addend of a step is the base under the sign that the bit gives:
/// `y_p - (2 k - 1) y_T` vanishes.
proof fn lemma_addend_tied(m: nat, t: Pt, bit: bool)
    requires
        m > 1,
        t.x < m && t.y < m,
    ensures
        fsub(
            m,
            addend(m, t, bit).y,
            fmul(m, fsub(m, fadd(m, indicator(bit), indicator(bit)), 1nat % m), t.y),
        ) == 0,
{
    let k = indicator(bit);
    let c = fsub(m, fadd(m, k, k), 1nat % m);
    lemma_units(m, t.y);
    lemma_units(m, 0);
    lemma_units(m, 1);
    lemma_eqm_ops(m, k, k);
    lemma_eqm_ops(m, fadd(m, k, k), 1);
    lemma_eqm_ops(m, c, t.y);
    lemma_eqm_ops(m, 0, t.y);
    let y = t.y as int;
    if bit {
        lemma_eqm_ring(m, fadd(m, k, k) as int, 2, 1, 1);
        lemma_eqm_ring(m, c as int, 1, y, y);
        assert(1 * y == y);
        lemma_eqm_reduced(m, fmul(m, c, t.y), t.y);
    } else {
        lemma_eqm_ring(m, fadd(m, k, k) as int, 0, 1, 1);
        lemma_eqm_ring(m, c as int, -1, y, y);
        assert((-1) * y == 0 - y);
        lemma_eqm_reduced(m, fmul(m, c, t.y), fneg(m, t.y));
    }
    lemma_fsub_zero(m, addend(m, t, bit).y, fmul(m, c, t.y));
}

/// The values of a step of the ladder satisfy the polynomials of its row:
/// with `z` zero, the two chords, the next accumulator and the addend make
/// all seven vanish, where the two differences of abscissas have inverses.
pub proof fn lemma_mul_step_vanishes(m: nat, s: nat, acc: Pt, t: Pt, bit: bool)
    requires
        m > 1,
        acc.x < m && acc.y < m && t.x < m && t.y < m,
        is_inverse(m, fsub(m, t.x, acc.x), finv(m, fsub(m, t.x, acc.x))),
        is_inverse(
            m,
            fsub(m, add_incomplete(m, acc, addend(m, t, bit)).x, acc.x),
            finv(m, fsub(m, add_incomplete(m, acc, addend(m, t, bit)).x, acc.x)),
        ),
    ensures
        ({
            let p = addend(m, t, bit);
            let inner = add_incomplete(m, acc, p);
            let next = ladder_step(m, acc, t, bit);
            mul_row_polys(
                m,
                s,
                0,
                acc.x,
                acc.y,
                p.x,
                p.y,
                chord_slope(m, acc, p),
                chord_slope(m, acc, inner),
                indicator(bit),
                t.y,
                next.x,
                next.y,
            )
        }) =~= Seq::new(7, |i: int| 0nat),
{
    let p = addend(m, t, bit);
    let inner = add_incomplete(m, acc, p);
    let next = ladder_step(m, acc, t, bit);
    let l1 = chord_slope(m, acc, p);
    let l2 = chord_slope(m, acc, inner);
    lemma_units(m, 0);
    lemma_units(m, 1);
    lemma_fmul_zero(m, s);
    lemma_eqm_ops(m, 0, t.y);
    lemma_eqm_ops(m, p.x, acc.x);
    lemma_eqm_ops(m, p.y, acc.y);
    lemma_eqm_ops(m, inner.x, acc.x);
    lemma_eqm_ops(m, inner.y, acc.y);
    lemma_eqm_ops(m, l1, l1);
    lemma_eqm_ops(m, fmul(m, l1, l1), acc.x);
    lemma_eqm_ops(m, fsub(m, fmul(m, l1, l1), acc.x), p.x);
    lemma_eqm_ops(m, acc.x, inner.x);
    lemma_eqm_ops(m, l1, fsub(m, acc.x, inner.x));
    lemma_eqm_ops(m, fmul(m, l1, fsub(m, acc.x, inner.x)), acc.y);
    lemma_eqm_ops(m, l2, l2);
    lemma_eqm_ops(m, fmul(m, l2, l2), acc.x);
    lemma_eqm_ops(m, fsub(m, fmul(m, l2, l2), acc.x), inner.x);
    lemma_eqm_ops(m, acc.x, next.x);
    lemma_eqm_ops(m, l2, fsub(m, acc.x, next.x));
    lemma_eqm_ops(m, fmul(m, l2, fsub(m, acc.x, next.x)), acc.y);
    // both chords
    lemma_div_mul(m, fsub(m, p.y, acc.y), fsub(m, p.x, acc.x));
    lemma_div_mul(m, fsub(m, inner.y, acc.y), fsub(m, inner.x, acc.x));
    lemma_fsub_zero(m, fsub(m, p.y, acc.y), fsub(m, p.y, acc.y));
    lemma_fsub_zero(m, fsub(m, inner.y, acc.y), fsub(m, inner.y, acc.y));
    // the next accumulator is the third point of the second chord
    lemma_fsub_zero(m, next.x, next.x);
    lemma_fsub_zero(m, next.y, next.y);
    lemma_addend_tied(m, t, bit);
    let sel = fmul(m, fsub(m, 0, 1nat % m), fsub(m, 0, 2nat % m));
    lemma_fmul_zero(m, fmul(m, s, sel));
    lemma_fmul_zero(m, fmul(m, s, fsub(m, 0, 1nat % m)));
    lemma_fmul_zero(m, fsub(m, 0, 2nat % m));
    lemma_fmul_zero(m, fmul(m, s, fmul(m, 0, fsub(m, 0, 2nat % m))));
}

/// The values of the row of the last step satisfy the polynomials of the
/// row: with `z` two, only the addend is tied.
pub proof fn lemma_mul_tie_vanishes(
    m: nat,
    s: nat,
    t: Pt,
    bit: bool,
    xa: nat,
    ya: nat,
    l1: nat,
    l2: nat,
    xn: nat,
    yn: nat,
)
    requires
        m > 2,
        t.x < m && t.y < m,
    ensures
        mul_row_polys(
            m,
            s,
            2,
            xa,
            ya,
            t.x,
            addend(m, t, bit).y,
            l1,
            l2,
            indicator(bit),
            t.y,
            xn,
            yn,
        ) =~= Seq::new(7, |i: int| 0nat),
{
    lemma_units(m, 0);
    lemma_units(m, 1);
    lemma_units(m, 2);
    lemma_small_mod(2, m);
    lemma_addend_tied(m, t, bit);
    lemma_fmul_zero(m, s);
    lemma_fmul_zero(m, fsub(m, 2, 1));
    lemma_fmul_zero(m, 2);
    lemma_fmul_zero(m, fmul(m, s, fsub(m, 2, 1)));
    let y = addend(m, t, bit).y;
    let u = t.y;
    let k = indicator(bit);
    let xr = fsub(m, fsub(m, fmul(m, l1, l1), xa), t.x);
    let yr = fsub(m, fmul(m, l1, fsub(m, xa, xr)), ya);
    lemma_fmul_zero(m, fsub(m, fmul(m, l1, fsub(m, t.x, xa)), fsub(m, y, ya)));
    lemma_fmul_zero(m, fsub(m, fmul(m, l2, fsub(m, xr, xa)), fsub(m, yr, ya)));
    lemma_fmul_zero(m, fsub(m, xn, fsub(m, fsub(m, fmul(m, l2, l2), xa), xr)));
    lemma_fmul_zero(m, fsub(m, yn, fsub(m, fmul(m, l2, fsub(m, xa, xn)), ya)));
    lemma_fmul_zero(m, fsub(m, t.x, fmul(m, fsub(m, 1, k), l2)));
    lemma_fmul_zero(m, fadd(m, y, fmul(m, fsub(m, 1, k), u)));
}

/// The values of the row of the last addition satisfy the polynomials of
/// the row: with `z` one, the operand is the identity for a set bit and
/// the inverse of the base for a clear one.
pub proof fn lemma_mul_last_vanishes(
    m: nat,
    s: nat,
    t: Pt,
    bit: bool,
    xa: nat,
    ya: nat,
    l1: nat,
    xn: nat,
    yn: nat,
)
    requires
        m > 2,
        t.x < m && t.y < m,
    ensures
        mul_row_polys(
            m,
            s,
            1,
            xa,
            ya,
            correction(m, t, bit).x,
            correction(m, t, bit).y,
            l1,
            t.x,
            indicator(bit),
            t.y,
            xn,
            yn,
        ) =~= Seq::new(7, |i: int| 0nat),
{
    let c = correction(m, t, bit);
    let k = indicator(bit);
    lemma_units(m, 0);
    lemma_units(m, 1);
    lemma_units(m, t.x);
    lemma_units(m, t.y);
    lemma_small_mod(2, m);
    lemma_fmul_zero(m, s);
    lemma_fadd_zero(m, t.y, fneg(m, t.y));
    lemma_eqm_ops(m, 0, t.y);
    lemma_eqm_ops(m, fneg(m, t.y), t.y);
    lemma_eqm_ops(m, t.y, fneg(m, t.y));
    lemma_fsub_zero(m, t.x, t.x);
    lemma_fmul_zero(m, fsub(m, 1, 2));
    lemma_fmul_zero(m, fmul(m, 1, fsub(m, 1, 2)));
    lemma_fmul_zero(m, fmul(m, s, fmul(m, 1, fsub(m, 1, 2))));
    lemma_fmul_zero(m, fmul(m, s, fmul(m, 0, fsub(m, 1, 2))));
    assert(fadd(m, fneg(m, t.y), t.y) == fadd(m, t.y, fneg(m, t.y)));
    let xr = fsub(m, fsub(m, fmul(m, l1, l1), xa), c.x);
    let yr = fsub(m, fmul(m, l1, fsub(m, xa, xr)), ya);
    lemma_fmul_zero(m, fsub(m, fmul(m, l1, fsub(m, c.x, xa)), fsub(m, c.y, ya)));
    lemma_fmul_zero(m, fsub(m, fmul(m, t.x, fsub(m, xr, xa)), fsub(m, yr, ya)));
    lemma_fmul_zero(m, fsub(m, xn, fsub(m, fsub(m, fmul(m, t.x, t.x), xa), xr)));
    lemma_fmul_zero(m, fsub(m, yn, fsub(m, fmul(m, t.x, fsub(m, xa, xn)), ya)));
    lemma_fmul_zero(m, fsub(m, c.y, fmul(m, fsub(m, fadd(m, k, k), 1), t.y)));
}

} // verus!

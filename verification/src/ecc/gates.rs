//! The gates of the gadgets: for each, the polynomials over the cells of a
//! row that must vanish where its selector is enabled.

use crate::circuit::{
    after, at, Column, ColumnKind, ConstraintSystem, eval_on, Expression, flag, Gate, Lookup,
    RegionView,
};
use crate::ecc::config::{EccConfig, Sizes};
use crate::ecc::curve::Curve;
use crate::field::{fadd, FieldElement, fmul, fsub};
use vstd::arithmetic::power2::pow2;
use vstd::prelude::*;

verus! {

/// Whether a bit-like cell is zero or one: `k (1 - k)`.
pub open spec fn boolean(m: nat, k: nat) -> nat {
    fmul(m, k, fsub(m, 1nat % m, k))
}

/// The curve equation: `y^2 - (x^3 + b)`.
pub open spec fn curve_poly(m: nat, b: nat, x: nat, y: nat) -> nat {
    fsub(m, fmul(m, y, y), fadd(m, fmul(m, fmul(m, x, x), x), b % m))
}

/// What constrains a witnessed point.
pub open spec fn point_poly<C: Curve>(c: EccConfig, g: RegionView<C::Base>, row: nat) -> nat {
    let m = C::Base::modulus();
    fmul(
        m,
        flag(g, c.q_point, row),
        curve_poly(m, C::b(), at(g, c.p.0, row), at(g, c.p.1, row)),
    )
}

/// What constrains a witnessed bit.
pub open spec fn bit_poly<F: FieldElement>(c: EccConfig, g: RegionView<F>, row: nat) -> nat {
    fmul(F::modulus(), flag(g, c.q_scalar_var, row), boolean(F::modulus(), at(g, c.bits, row)))
}

/// What constrains a witnessed sign.
pub open spec fn sign_poly<F: FieldElement>(c: EccConfig, g: RegionView<F>, row: nat) -> nat {
    fmul(
        F::modulus(),
        flag(g, c.q_scalar_fixed_short, row),
        boolean(F::modulus(), at(g, c.bits, row)),
    )
}

/// What a witnessed window is looked up as: its digit where the selector
/// is enabled, and zero elsewhere.
pub open spec fn window_input<F: FieldElement>(c: EccConfig, g: RegionView<F>, row: nat) -> nat {
    fmul(F::modulus(), flag(g, c.q_scalar_fixed, row), at(g, c.bits, row))
}

/// Whether the table holds the digits below `2^width`, in their order.
pub open spec fn is_digit_table<F: FieldElement>(table: Seq<F>, width: nat) -> bool {
    &&& table.len() == pow2(width)
    &&& forall|i: int|
        0 <= i < table.len() ==> (#[trigger] table[i]).value() == (i as nat) % F::modulus()
}

/// The first polynomial of incomplete addition:
/// `(x_a + x_q + x_p) (x_p - x_q)^2 - (y_p - y_q)^2`.
pub open spec fn add_poly_x(m: nat, xp: nat, yp: nat, xq: nat, yq: nat, xa: nat) -> nat {
    let dx = fsub(m, xp, xq);
    let dy = fsub(m, yp, yq);
    fsub(m, fmul(m, fadd(m, fadd(m, xa, xq), xp), fmul(m, dx, dx)), fmul(m, dy, dy))
}

/// The second polynomial of incomplete addition:
/// `(y_a + y_q) (x_p - x_q) - (y_p - y_q) (x_q - x_a)`.
pub open spec fn add_poly_y(m: nat, xp: nat, yp: nat, xq: nat, yq: nat, xa: nat, ya: nat) -> nat {
    fsub(
        m,
        fmul(m, fadd(m, ya, yq), fsub(m, xp, xq)),
        fmul(m, fsub(m, yp, yq), fsub(m, xq, xa)),
    )
}

/// The two polynomials that constrain incomplete addition, on a row that
/// holds `P` and `Q` with the sum on the next row.
pub open spec fn add_polys<F: FieldElement>(c: EccConfig, g: RegionView<F>, row: nat) -> Seq<nat> {
    let m = F::modulus();
    let q = flag(g, c.q_add, row);
    let (xp, yp) = (at(g, c.p.0, row), at(g, c.p.1, row));
    let (xq, yq) = (at(g, c.a.0, row), at(g, c.a.1, row));
    let (xa, ya) = (after(g, c.a.0, row), after(g, c.a.1, row));
    seq![
        fmul(m, q, add_poly_x(m, xp, yp, xq, yq, xa)),
        fmul(m, q, add_poly_y(m, xp, yp, xq, yq, xa, ya)),
    ]
}

/// The first polynomial of doubling: `4 y_p^2 (x_a + 2 x_p) - 9 x_p^4`.
pub open spec fn double_poly_x(m: nat, xp: nat, yp: nat, xa: nat) -> nat {
    let xx = fmul(m, xp, xp);
    fsub(
        m,
        fmul(m, fmul(m, 4nat % m, fmul(m, yp, yp)), fadd(m, xa, fmul(m, 2nat % m, xp))),
        fmul(m, 9nat % m, fmul(m, xx, xx)),
    )
}

/// The second polynomial of doubling:
/// `2 y_p (y_a + y_p) - 3 x_p^2 (x_p - x_a)`.
pub open spec fn double_poly_y(m: nat, xp: nat, yp: nat, xa: nat, ya: nat) -> nat {
    fsub(
        m,
        fmul(m, fmul(m, 2nat % m, yp), fadd(m, ya, yp)),
        fmul(m, fmul(m, 3nat % m, fmul(m, xp, xp)), fsub(m, xp, xa)),
    )
}

/// The two polynomials that constrain doubling, on a row that holds the
/// point and its double.
pub open spec fn double_polys<F: FieldElement>(c: EccConfig, g: RegionView<F>, row: nat) -> Seq<
    nat,
> {
    let m = F::modulus();
    let q = flag(g, c.q_double, row);
    let (xp, yp) = (at(g, c.p.0, row), at(g, c.p.1, row));
    let (xa, ya) = (at(g, c.a.0, row), at(g, c.a.1, row));
    seq![
        fmul(m, q, double_poly_x(m, xp, yp, xa)),
        fmul(m, q, double_poly_y(m, xp, yp, xa, ya)),
    ]
}

/// The polynomials that constrain complete addition, on a row that holds
/// `P`, `Q`, the four indicators, the four inverses and the slope, with the
/// sum on the next row. The first four make the indicators bits; the next
/// eight tie each indicator to its inverse; two fix the slope of the chord
/// or of the tangent; the last eight select the sum.
pub open spec fn complete_row_polys(
    m: nat,
    q: nat,
    a: nat,
    b: nat,
    cc: nat,
    d: nat,
    alpha: nat,
    beta: nat,
    gamma: nat,
    delta: nat,
    l: nat,
    xp: nat,
    yp: nat,
    xq: nat,
    yq: nat,
    xr: nat,
    yr: nat,
) -> Seq<nat> {
    let one = 1nat % m;
    let (na, nb, nc, nd) = (fsub(m, one, a), fsub(m, one, b), fsub(m, one, cc), fsub(m, one, d));
    let dx = fsub(m, xq, xp);
    let sy = fadd(m, yp, yq);
    let xx = fmul(m, xp, xp);
    let both = fmul(m, nb, nc);
    let ad = fmul(m, a, d);
    let chord = fmul(m, both, fsub(m, one, ad));
    seq![
        fmul(m, q, boolean(m, a)),
        fmul(m, q, boolean(m, b)),
        fmul(m, q, boolean(m, cc)),
        fmul(m, q, boolean(m, d)),
        fmul(m, q, fsub(m, fmul(m, dx, alpha), na)),
        fmul(m, q, fmul(m, a, dx)),
        fmul(m, q, fsub(m, fmul(m, xp, beta), nb)),
        fmul(m, q, fmul(m, b, xp)),
        fmul(m, q, fsub(m, fmul(m, xq, gamma), nc)),
        fmul(m, q, fmul(m, cc, xq)),
        fmul(m, q, fsub(m, fmul(m, sy, delta), nd)),
        fmul(m, q, fmul(m, d, sy)),
        fmul(m, q, fmul(m, na, fsub(m, fmul(m, dx, l), fsub(m, yq, yp)))),
        fmul(
            m,
            q,
            fmul(
                m,
                fmul(m, a, nd),
                fsub(m, fmul(m, fadd(m, yp, yp), l), fadd(m, fadd(m, xx, xx), xx)),
            ),
        ),
        fmul(m, q, fmul(m, b, fsub(m, xr, xq))),
        fmul(m, q, fmul(m, b, fsub(m, yr, yq))),
        fmul(m, q, fmul(m, fmul(m, nb, cc), fsub(m, xr, xp))),
        fmul(m, q, fmul(m, fmul(m, nb, cc), fsub(m, yr, yp))),
        fmul(m, q, fmul(m, fmul(m, both, ad), xr)),
        fmul(m, q, fmul(m, fmul(m, both, ad), yr)),
        fmul(m, q, fmul(m, chord, fsub(m, xr, fsub(m, fsub(m, fmul(m, l, l), xp), xq)))),
        fmul(m, q, fmul(m, chord, fsub(m, yr, fsub(m, fmul(m, l, fsub(m, xp, xr)), yp)))),
    ]
}

/// The polynomials that constrain complete addition, on a row of the region.
pub open spec fn complete_polys<F: FieldElement>(c: EccConfig, g: RegionView<F>, row: nat) -> Seq<
    nat,
> {
    complete_row_polys(
        F::modulus(),
        flag(g, c.q_add_complete, row),
        at(g, c.add_complete_bool[0], row),
        at(g, c.add_complete_bool[1], row),
        at(g, c.add_complete_bool[2], row),
        at(g, c.add_complete_bool[3], row),
        at(g, c.add_complete_inv[0], row),
        at(g, c.add_complete_inv[1], row),
        at(g, c.add_complete_inv[2], row),
        at(g, c.add_complete_inv[3], row),
        at(g, c.lambda.0, row),
        at(g, c.p.0, row),
        at(g, c.p.1, row),
        at(g, c.a.0, row),
        at(g, c.a.1, row),
        after(g, c.a.0, row),
        after(g, c.a.1, row),
    )
}

/// The value at `k` of the polynomial whose coefficients the columns hold on
/// the row.
pub open spec fn interpolation<F: FieldElement>(
    g: RegionView<F>,
    columns: Seq<crate::circuit::Column>,
    row: nat,
    k: nat,
) -> nat
    decreases columns.len(),
{
    if columns.len() == 0 {
        0
    } else {
        fadd(
            F::modulus(),
            at(g, columns[0], row),
            fmul(F::modulus(), k, interpolation(g, columns.drop_first(), row, k)),
        )
    }
}

/// The polynomials that constrain fixed-base multiplication, on the row of
/// one window: the abscissa is the value of the window's polynomial at the
/// digit, the ordinate is `u^2 - z`, and the point lies on the curve.
pub open spec fn mul_fixed_row_polys(
    m: nat,
    b: nat,
    q: nat,
    value: nat,
    xp: nat,
    yp: nat,
    u: nat,
    z: nat,
) -> Seq<nat> {
    seq![
        fmul(m, q, fsub(m, value, xp)),
        fmul(m, q, fsub(m, fmul(m, u, u), fadd(m, yp, z))),
        fmul(m, q, curve_poly(m, b, xp, yp)),
    ]
}

/// The polynomials that constrain fixed-base multiplication, on a row of the region.
pub open spec fn mul_fixed_polys<C: Curve>(c: EccConfig, g: RegionView<C::Base>, row: nat) -> Seq<
    nat,
> {
    mul_fixed_row_polys(
        C::Base::modulus(),
        C::b(),
        flag(g, c.q_mul_fixed, row),
        interpolation(g, c.lagrange_coeffs@, row, at(g, c.bits, row)),
        at(g, c.p.0, row),
        at(g, c.p.1, row),
        at(g, c.u, row),
        at(g, c.fixed_z, row),
    )
}

/// The polynomials that constrain the sign of a short product, on a row
/// that holds the sign, the unsigned product and the signed one:
/// `s (y + y_out) + (1 - s) (y - y_out)` and `x_out - x`.
pub open spec fn short_row_polys(
    m: nat,
    q: nat,
    s: nat,
    xa: nat,
    ya: nat,
    xp: nat,
    yp: nat,
) -> Seq<nat> {
    seq![
        fmul(
            m,
            q,
            fadd(
                m,
                fmul(m, s, fadd(m, ya, yp)),
                fmul(m, fsub(m, 1nat % m, s), fsub(m, ya, yp)),
            ),
        ),
        fmul(m, q, fsub(m, xp, xa)),
    ]
}

/// The polynomials that constrain the sign of a short product, on a row of the region.
pub open spec fn short_polys<F: FieldElement>(c: EccConfig, g: RegionView<F>, row: nat) -> Seq<
    nat,
> {
    short_row_polys(
        F::modulus(),
        flag(g, c.q_mul_fixed_short, row),
        at(g, c.bits, row),
        at(g, c.a.0, row),
        at(g, c.a.1, row),
        at(g, c.p.0, row),
        at(g, c.p.1, row),
    )
}

/// The polynomials that constrain variable-base multiplication. The fixed
/// column `z` tells the rows apart. On a step row, where `z` is zero, the
/// row holds the accumulator, the addend, two slopes, the bit and the
/// ordinate of the base, with the next accumulator on the next row: both
/// chords are tied, and the next accumulator is the third point of the
/// second chord. On a step row and on the row of the last step, where `z`
/// is two, the addend is the base under the sign that the bit gives. On the
/// last row, where `z` is one, the operand of the last addition is the
/// identity for a set bit and the inverse of the base for a clear one.
pub open spec fn mul_row_polys(
    m: nat,
    q: nat,
    z: nat,
    xa: nat,
    ya: nat,
    xp: nat,
    yp: nat,
    l1: nat,
    l2: nat,
    k: nat,
    u: nat,
    xn: nat,
    yn: nat,
) -> Seq<nat> {
    let one = 1nat % m;
    let two = 2nat % m;
    let step = fmul(m, q, fmul(m, fsub(m, z, one), fsub(m, z, two)));
    let tie = fmul(m, q, fsub(m, z, one));
    let last = fmul(m, q, fmul(m, z, fsub(m, z, two)));
    let xr = fsub(m, fsub(m, fmul(m, l1, l1), xa), xp);
    let yr = fsub(m, fmul(m, l1, fsub(m, xa, xr)), ya);
    let nk = fsub(m, one, k);
    seq![
        fmul(m, step, fsub(m, fmul(m, l1, fsub(m, xp, xa)), fsub(m, yp, ya))),
        fmul(m, step, fsub(m, fmul(m, l2, fsub(m, xr, xa)), fsub(m, yr, ya))),
        fmul(m, step, fsub(m, xn, fsub(m, fsub(m, fmul(m, l2, l2), xa), xr))),
        fmul(m, step, fsub(m, yn, fsub(m, fmul(m, l2, fsub(m, xa, xn)), ya))),
        fmul(m, tie, fsub(m, yp, fmul(m, fsub(m, fadd(m, k, k), one), u))),
        fmul(m, last, fsub(m, xp, fmul(m, nk, l2))),
        fmul(m, last, fadd(m, yp, fmul(m, nk, u))),
    ]
}

/// The polynomials that constrain variable-base multiplication, on a row of the region.
pub open spec fn mul_polys<F: FieldElement>(c: EccConfig, g: RegionView<F>, row: nat) -> Seq<nat> {
    mul_row_polys(
        F::modulus(),
        flag(g, c.q_mul, row),
        at(g, c.fixed_z, row),
        at(g, c.a.0, row),
        at(g, c.a.1, row),
        at(g, c.p.0, row),
        at(g, c.p.1, row),
        at(g, c.lambda.0, row),
        at(g, c.lambda.1, row),
        at(g, c.bits, row),
        at(g, c.u, row),
        after(g, c.a.0, row),
        after(g, c.a.1, row),
    )
}

/// What constrains a witnessed point.
pub fn point_gate<C: Curve>(c: &EccConfig) -> (r: Expression<C::Base>)
    ensures
        forall|g: RegionView<C::Base>, row: nat| #[trigger]
            eval_on(r, g, row) == point_poly::<C>(*c, g, row),
{
    let x = Expression::cur(c.p.0);
    let y = Expression::cur(c.p.1);
    let cube = x.duplicate().times(x.duplicate()).times(x);
    let rhs = cube.plus(Expression::Constant(C::constant_b()));
    Expression::enabled(c.q_point).times(y.duplicate().times(y).minus(rhs))
}

/// The polynomial `k (1 - k)` of the cell `k`.
fn boolean_of<F: FieldElement>(k: Expression<F>) -> (r: Expression<F>)
    ensures
        forall|g: RegionView<F>, row: nat| #[trigger]
            eval_on(r, g, row) == boolean(F::modulus(), eval_on(k, g, row)),
{
    let other = Expression::number(1).minus(k.duplicate());
    k.times(other)
}

/// What constrains a witnessed bit.
pub fn bit_gate<F: FieldElement>(c: &EccConfig) -> (r: Expression<F>)
    ensures
        forall|g: RegionView<F>, row: nat| #[trigger] eval_on(r, g, row) == bit_poly(*c, g, row),
{
    Expression::enabled(c.q_scalar_var).times(boolean_of(Expression::cur(c.bits)))
}

/// What constrains a witnessed sign.
pub fn sign_gate<F: FieldElement>(c: &EccConfig) -> (r: Expression<F>)
    ensures
        forall|g: RegionView<F>, row: nat| #[trigger] eval_on(r, g, row) == sign_poly(*c, g, row),
{
    Expression::enabled(c.q_scalar_fixed_short).times(boolean_of(Expression::cur(c.bits)))
}

/// What a witnessed window is looked up as.
pub fn window_lookup<F: FieldElement>(c: &EccConfig) -> (r: Expression<F>)
    ensures
        forall|g: RegionView<F>, row: nat| #[trigger]
            eval_on(r, g, row) == window_input(*c, g, row),
{
    Expression::enabled(c.q_scalar_fixed).times(Expression::cur(c.bits))
}

/// The table of the digits of a window.
pub fn digit_table<F: FieldElement>(width: u8) -> (r: Vec<F>)
    requires
        0 < width < 64,
    ensures
        is_digit_table(r@, width as nat),
{
    proof {
        vstd::bits::lemma_u64_pow2_no_overflow(width as nat);
        vstd::bits::lemma_u64_shl_is_mul(1, width as u64);
    }
    let size: u64 = 1u64 << (width as u64);
    let mut table: Vec<F> = Vec::new();
    let mut i: u64 = 0;
    while i < size
        invariant
            i <= size,
            size == pow2(width as nat),
            table@.len() == i,
            forall|j: int|
                0 <= j < i ==> (#[trigger] table@[j]).value() == (j as nat) % F::modulus(),
        decreases size - i,
    {
        table.push(F::from_u64(i));
        i = i + 1;
    }
    table
}

/// What constrains incomplete addition.
pub fn add_gate<F: FieldElement>(c: &EccConfig) -> (r: Vec<Expression<F>>)
    ensures
        r.len() == 2,
        forall|g: RegionView<F>, row: nat, i: int|
            0 <= i < 2 ==> #[trigger] eval_on(r[i], g, row) == add_polys(*c, g, row)[i],
{
    let xp = Expression::<F>::cur(c.p.0);
    let yp = Expression::<F>::cur(c.p.1);
    let xq = Expression::<F>::cur(c.a.0);
    let yq = Expression::<F>::cur(c.a.1);
    let xa = Expression::<F>::next(c.a.0);
    let ya = Expression::<F>::next(c.a.1);
    let dx = xp.duplicate().minus(xq.duplicate());
    let dy = yp.duplicate().minus(yq.duplicate());
    let first = xa.duplicate().plus(xq.duplicate()).plus(xp.duplicate()).times(
        dx.duplicate().times(dx.duplicate()),
    ).minus(dy.duplicate().times(dy.duplicate()));
    let second = ya.plus(yq).times(dx).minus(dy.times(xq.minus(xa)));
    let mut polys: Vec<Expression<F>> = Vec::new();
    polys.push(Expression::enabled(c.q_add).times(first));
    polys.push(Expression::enabled(c.q_add).times(second));
    polys
}

/// What constrains doubling.
pub fn double_gate<F: FieldElement>(c: &EccConfig) -> (r: Vec<Expression<F>>)
    ensures
        r.len() == 2,
        forall|g: RegionView<F>, row: nat, i: int|
            0 <= i < 2 ==> #[trigger] eval_on(r[i], g, row) == double_polys(*c, g, row)[i],
{
    let xp = Expression::<F>::cur(c.p.0);
    let yp = Expression::<F>::cur(c.p.1);
    let xa = Expression::<F>::cur(c.a.0);
    let ya = Expression::<F>::cur(c.a.1);
    let xx = xp.duplicate().times(xp.duplicate());
    let first = Expression::number(4).times(yp.duplicate().times(yp.duplicate())).times(
        xa.duplicate().plus(Expression::number(2).times(xp.duplicate())),
    ).minus(Expression::number(9).times(xx.duplicate().times(xx.duplicate())));
    let second = Expression::number(2).times(yp.duplicate()).times(ya.plus(yp)).minus(
        Expression::number(3).times(xx).times(xp.minus(xa)),
    );
    let mut polys: Vec<Expression<F>> = Vec::new();
    polys.push(Expression::enabled(c.q_double).times(first));
    polys.push(Expression::enabled(c.q_double).times(second));
    polys
}

/// What constrains complete addition.
pub fn complete_gate<F: FieldElement>(c: &EccConfig) -> (r: Vec<Expression<F>>)
    ensures
        r.len() == 22,
        forall|g: RegionView<F>, row: nat, i: int|
            0 <= i < 22 ==> #[trigger] eval_on(r[i], g, row) == complete_polys(*c, g, row)[i],
{
    let q = Expression::<F>::enabled(c.q_add_complete);
    let one = Expression::<F>::number(1);
    let a = Expression::<F>::cur(c.add_complete_bool[0]);
    let b = Expression::<F>::cur(c.add_complete_bool[1]);
    let cc = Expression::<F>::cur(c.add_complete_bool[2]);
    let d = Expression::<F>::cur(c.add_complete_bool[3]);
    let alpha = Expression::<F>::cur(c.add_complete_inv[0]);
    let beta = Expression::<F>::cur(c.add_complete_inv[1]);
    let gamma = Expression::<F>::cur(c.add_complete_inv[2]);
    let delta = Expression::<F>::cur(c.add_complete_inv[3]);
    let l = Expression::<F>::cur(c.lambda.0);
    let xp = Expression::<F>::cur(c.p.0);
    let yp = Expression::<F>::cur(c.p.1);
    let xq = Expression::<F>::cur(c.a.0);
    let yq = Expression::<F>::cur(c.a.1);
    let xr = Expression::<F>::next(c.a.0);
    let yr = Expression::<F>::next(c.a.1);
    let na = one.duplicate().minus(a.duplicate());
    let nb = one.duplicate().minus(b.duplicate());
    let nc = one.duplicate().minus(cc.duplicate());
    let nd = one.duplicate().minus(d.duplicate());
    let dx = xq.duplicate().minus(xp.duplicate());
    let sy = yp.duplicate().plus(yq.duplicate());
    let xx = xp.duplicate().times(xp.duplicate());
    let both = nb.duplicate().times(nc.duplicate());
    let ad = a.duplicate().times(d.duplicate());
    let chord = both.duplicate().times(one.duplicate().minus(ad.duplicate()));
    let mut polys: Vec<Expression<F>> = Vec::new();
    polys.push(q.duplicate().times(boolean_of(a.duplicate())));
    polys.push(q.duplicate().times(boolean_of(b.duplicate())));
    polys.push(q.duplicate().times(boolean_of(cc.duplicate())));
    polys.push(q.duplicate().times(boolean_of(d.duplicate())));
    polys.push(q.duplicate().times(dx.duplicate().times(alpha).minus(na.duplicate())));
    polys.push(q.duplicate().times(a.duplicate().times(dx.duplicate())));
    polys.push(q.duplicate().times(xp.duplicate().times(beta).minus(nb.duplicate())));
    polys.push(q.duplicate().times(b.duplicate().times(xp.duplicate())));
    polys.push(q.duplicate().times(xq.duplicate().times(gamma).minus(nc.duplicate())));
    polys.push(q.duplicate().times(cc.duplicate().times(xq.duplicate())));
    polys.push(q.duplicate().times(sy.duplicate().times(delta).minus(nd.duplicate())));
    polys.push(q.duplicate().times(d.duplicate().times(sy.duplicate())));
    polys.push(
        q.duplicate().times(
            na.times(dx.times(l.duplicate()).minus(yq.duplicate().minus(yp.duplicate()))),
        ),
    );
    polys.push(
        q.duplicate().times(
            a.duplicate().times(nd).times(
                yp.duplicate().plus(yp.duplicate()).times(l.duplicate()).minus(
                    xx.duplicate().plus(xx.duplicate()).plus(xx),
                ),
            ),
        ),
    );
    polys.push(q.duplicate().times(b.duplicate().times(xr.duplicate().minus(xq.duplicate()))));
    polys.push(q.duplicate().times(b.duplicate().times(yr.duplicate().minus(yq))));
    polys.push(
        q.duplicate().times(
            nb.duplicate().times(cc.duplicate()).times(xr.duplicate().minus(xp.duplicate())),
        ),
    );
    polys.push(
        q.duplicate().times(nb.times(cc).times(yr.duplicate().minus(yp.duplicate()))),
    );
    polys.push(q.duplicate().times(both.duplicate().times(ad.duplicate()).times(xr.duplicate())));
    polys.push(q.duplicate().times(both.times(ad).times(yr.duplicate())));
    polys.push(
        q.duplicate().times(
            chord.duplicate().times(
                xr.duplicate().minus(
                    l.duplicate().times(l.duplicate()).minus(xp.duplicate()).minus(xq),
                ),
            ),
        ),
    );
    polys.push(q.times(chord.times(yr.minus(l.times(xp.minus(xr)).minus(yp)))));
    polys
}

/// The polynomial that interpolates through the coefficient columns, at the
/// cell `k`.
fn interpolation_of<F: FieldElement>(c: &EccConfig, k: &Expression<F>) -> (r: Expression<F>)
    ensures
        forall|g: RegionView<F>, row: nat| #[trigger]
            eval_on(r, g, row) == interpolation(
                g,
                c.lagrange_coeffs@,
                row,
                eval_on(*k, g, row),
            ),
{
    proof {
        F::lemma_modulus();
        vstd::arithmetic::div_mod::lemma_small_mod(0, F::modulus());
    }
    let mut acc: Expression<F> = Expression::number(0);
    let mut i: usize = c.lagrange_coeffs.len();
    proof {
        assert(c.lagrange_coeffs@.skip(i as int) =~= Seq::empty());
    }
    while i > 0
        invariant
            i <= c.lagrange_coeffs.len(),
            forall|g: RegionView<F>, row: nat| #[trigger]
                eval_on(acc, g, row) == interpolation(
                    g,
                    c.lagrange_coeffs@.skip(i as int),
                    row,
                    eval_on(*k, g, row),
                ),
        decreases i,
    {
        i = i - 1;
        proof {
            let s = c.lagrange_coeffs@.skip(i as int);
            assert(s.drop_first() =~= c.lagrange_coeffs@.skip(i + 1));
            assert(s[0] == c.lagrange_coeffs@[i as int]);
        }
        acc = Expression::cur(c.lagrange_coeffs[i]).plus(k.duplicate().times(acc));
    }
    proof {
        assert(c.lagrange_coeffs@.skip(0) =~= c.lagrange_coeffs@);
    }
    acc
}

/// What constrains fixed-base multiplication.
pub fn mul_fixed_gate<C: Curve>(c: &EccConfig) -> (r: Vec<Expression<C::Base>>)
    ensures
        r.len() == 3,
        forall|g: RegionView<C::Base>, row: nat, i: int|
            0 <= i < 3 ==> #[trigger] eval_on(r[i], g, row) == mul_fixed_polys::<C>(*c, g, row)[i],
{
    let q = Expression::<C::Base>::enabled(c.q_mul_fixed);
    let k = Expression::<C::Base>::cur(c.bits);
    let xp = Expression::<C::Base>::cur(c.p.0);
    let yp = Expression::<C::Base>::cur(c.p.1);
    let u = Expression::<C::Base>::cur(c.u);
    let z = Expression::<C::Base>::cur(c.fixed_z);
    let cube = xp.duplicate().times(xp.duplicate()).times(xp.duplicate());
    let curve = yp.duplicate().times(yp.duplicate()).minus(
        cube.plus(Expression::Constant(C::constant_b())),
    );
    let mut polys: Vec<Expression<C::Base>> = Vec::new();
    polys.push(q.duplicate().times(interpolation_of(c, &k).minus(xp)));
    polys.push(q.duplicate().times(u.duplicate().times(u).minus(yp.plus(z))));
    polys.push(q.times(curve));
    polys
}

/// What constrains the sign of a short product.
pub fn short_gate<F: FieldElement>(c: &EccConfig) -> (r: Vec<Expression<F>>)
    ensures
        r.len() == 2,
        forall|g: RegionView<F>, row: nat, i: int|
            0 <= i < 2 ==> #[trigger] eval_on(r[i], g, row) == short_polys(*c, g, row)[i],
{
    let q = Expression::<F>::enabled(c.q_mul_fixed_short);
    let s = Expression::<F>::cur(c.bits);
    let xa = Expression::<F>::cur(c.a.0);
    let ya = Expression::<F>::cur(c.a.1);
    let xp = Expression::<F>::cur(c.p.0);
    let yp = Expression::<F>::cur(c.p.1);
    let set = s.duplicate().times(ya.duplicate().plus(yp.duplicate()));
    let clear = Expression::number(1).minus(s).times(ya.minus(yp));
    let mut polys: Vec<Expression<F>> = Vec::new();
    polys.push(q.duplicate().times(set.plus(clear)));
    polys.push(q.times(xp.minus(xa)));
    polys
}

/// What constrains variable-base multiplication.
pub fn mul_gate<F: FieldElement>(c: &EccConfig) -> (r: Vec<Expression<F>>)
    ensures
        r.len() == 7,
        forall|g: RegionView<F>, row: nat, i: int|
            0 <= i < 7 ==> #[trigger] eval_on(r[i], g, row) == mul_polys(*c, g, row)[i],
{
    let one = Expression::<F>::number(1);
    let two = Expression::<F>::number(2);
    let z = Expression::<F>::cur(c.fixed_z);
    let q = Expression::<F>::enabled(c.q_mul);
    let step = q.duplicate().times(
        z.duplicate().minus(one.duplicate()).times(z.duplicate().minus(two.duplicate())),
    );
    let tie = q.duplicate().times(z.duplicate().minus(one.duplicate()));
    let last = q.times(z.duplicate().times(z.minus(two)));
    let xa = Expression::<F>::cur(c.a.0);
    let ya = Expression::<F>::cur(c.a.1);
    let xp = Expression::<F>::cur(c.p.0);
    let yp = Expression::<F>::cur(c.p.1);
    let l1 = Expression::<F>::cur(c.lambda.0);
    let l2 = Expression::<F>::cur(c.lambda.1);
    let k = Expression::<F>::cur(c.bits);
    let u = Expression::<F>::cur(c.u);
    let xn = Expression::<F>::next(c.a.0);
    let yn = Expression::<F>::next(c.a.1);
    let xr = l1.duplicate().times(l1.duplicate()).minus(xa.duplicate()).minus(xp.duplicate());
    let yr = l1.duplicate().times(xa.duplicate().minus(xr.duplicate())).minus(ya.duplicate());
    let nk = one.duplicate().minus(k.duplicate());
    let mut polys: Vec<Expression<F>> = Vec::new();
    polys.push(
        step.duplicate().times(
            l1.times(xp.duplicate().minus(xa.duplicate())).minus(
                yp.duplicate().minus(ya.duplicate()),
            ),
        ),
    );
    polys.push(
        step.duplicate().times(
            l2.duplicate().times(xr.duplicate().minus(xa.duplicate())).minus(
                yr.minus(ya.duplicate()),
            ),
        ),
    );
    polys.push(
        step.duplicate().times(
            xn.duplicate().minus(
                l2.duplicate().times(l2.duplicate()).minus(xa.duplicate()).minus(xr),
            ),
        ),
    );
    polys.push(
        step.duplicate().times(yn.minus(l2.duplicate().times(xa.minus(xn)).minus(ya))),
    );
    polys.push(
        tie.times(yp.duplicate().minus(k.duplicate().plus(k).minus(one).times(u.duplicate()))),
    );
    polys.push(last.duplicate().times(xp.minus(nk.duplicate().times(l2))));
    polys.push(last.times(yp.plus(nk.times(u))));
    polys
}

/// The gates from `start` on are those of one gadget: gate `start + i`
/// takes the value of the gadget's polynomial `i` on every row.
pub open spec fn group_holds<F: FieldElement>(
    gates: Seq<Gate<F>>,
    start: int,
    n: int,
    polys: spec_fn(RegionView<F>, nat) -> Seq<nat>,
) -> bool {
    forall|i: int, g: RegionView<F>, row: nat|
        0 <= i < n ==> #[trigger] eval_on(gates[start + i].poly, g, row) == polys(g, row)[i]
}

/// The configuration that `configure` gives: the advice columns as they
/// were handed in, ten new selectors, a new fixed column for each digit of
/// a window and one for the offset, and the two permutations.
pub open spec fn configured<F: FieldElement>(
    before: ConstraintSystem<F>,
    c: EccConfig,
    sizes: Sizes,
    bits: Column,
    u: Column,
    a: (Column, Column),
    p: (Column, Column),
    lambda: (Column, Column),
    add_complete_bool: [Column; 4],
    add_complete_inv: [Column; 4],
) -> bool {
    let s = before.num_selectors as int;
    let f = before.num_fixed as int;
    &&& c.sizes == sizes
    &&& c.bits == bits
    &&& c.u == u
    &&& c.a == a
    &&& c.p == p
    &&& c.lambda == lambda
    &&& c.add_complete_bool == add_complete_bool
    &&& c.add_complete_inv == add_complete_inv
    &&& c.q_add.index == s
    &&& c.q_add_complete.index == s + 1
    &&& c.q_double.index == s + 2
    &&& c.q_mul.index == s + 3
    &&& c.q_mul_fixed.index == s + 4
    &&& c.q_mul_fixed_short.index == s + 5
    &&& c.q_point.index == s + 6
    &&& c.q_scalar_var.index == s + 7
    &&& c.q_scalar_fixed.index == s + 8
    &&& c.q_scalar_fixed_short.index == s + 9
    &&& c.lagrange_coeffs@.len() == pow2(sizes.window_width as nat)
    &&& forall|i: int|
        0 <= i < c.lagrange_coeffs@.len() ==> (#[trigger] c.lagrange_coeffs@[i]) == (Column {
            kind: ColumnKind::Fixed,
            index: (f + i) as usize,
        })
    &&& c.fixed_z == (Column { kind: ColumnKind::Fixed, index: (f + c.lagrange_coeffs@.len()) as usize })
    &&& c.perm_scalar == before.permutations@.len()
    &&& c.perm_sum == before.permutations@.len() + 1
}

/// The gates that `configure` adds: in their order, those of the witnessed
/// point, bit and sign, of doubling, of incomplete and of complete addition,
/// of fixed-base multiplication, of the sign of a short product, and of
/// variable-base multiplication.
pub open spec fn gates_added<C: Curve>(
    before: Seq<Gate<C::Base>>,
    gates: Seq<Gate<C::Base>>,
    c: EccConfig,
) -> bool {
    let n = before.len() as int;
    &&& gates.len() == n + 41
    &&& forall|i: int| 0 <= i < n ==> gates[i] == before[i]
    &&& group_holds(gates, n, 1, |g: RegionView<C::Base>, row: nat| seq![point_poly::<C>(c, g, row)])
    &&& group_holds(gates, n + 1, 1, |g: RegionView<C::Base>, row: nat| seq![bit_poly(c, g, row)])
    &&& group_holds(gates, n + 2, 1, |g: RegionView<C::Base>, row: nat| seq![sign_poly(c, g, row)])
    &&& group_holds(gates, n + 3, 2, |g: RegionView<C::Base>, row: nat| double_polys(c, g, row))
    &&& group_holds(gates, n + 5, 2, |g: RegionView<C::Base>, row: nat| add_polys(c, g, row))
    &&& group_holds(gates, n + 7, 22, |g: RegionView<C::Base>, row: nat| complete_polys(c, g, row))
    &&& group_holds(
        gates,
        n + 29,
        3,
        |g: RegionView<C::Base>, row: nat| mul_fixed_polys::<C>(c, g, row),
    )
    &&& group_holds(gates, n + 32, 2, |g: RegionView<C::Base>, row: nat| short_polys(c, g, row))
    &&& group_holds(gates, n + 34, 7, |g: RegionView<C::Base>, row: nat| mul_polys(c, g, row))
}

/// The lookup that `configure` adds: the digit of a witnessed window is
/// found in the table of the digits below `2^width`.
pub open spec fn lookup_added<F: FieldElement>(
    before: Seq<Lookup<F>>,
    lookups: Seq<Lookup<F>>,
    c: EccConfig,
) -> bool {
    let n = before.len() as int;
    &&& lookups.len() == n + 1
    &&& forall|i: int| 0 <= i < n ==> lookups[i] == before[i]
    &&& is_digit_table(lookups[n].table@, c.sizes.window_width as nat)
    &&& forall|g: RegionView<F>, row: nat| #[trigger]
        eval_on(lookups[n].input, g, row) == window_input(c, g, row)
}

/// A vector of the one polynomial.
fn single<F: FieldElement>(poly: Expression<F>) -> (r: Vec<Expression<F>>)
    ensures
        r@ == seq![poly],
{
    let mut polys: Vec<Expression<F>> = Vec::new();
    polys.push(poly);
    polys
}

/// A group of gates stays what it is when gates are added behind it.
proof fn lemma_group_kept<F: FieldElement>(
    before: Seq<Gate<F>>,
    after: Seq<Gate<F>>,
    start: int,
    n: int,
    polys: spec_fn(RegionView<F>, nat) -> Seq<nat>,
)
    requires
        0 <= start,
        start + n <= before.len() <= after.len(),
        forall|i: int| 0 <= i < before.len() ==> after[i] == before[i],
        group_holds(before, start, n, polys),
    ensures
        group_holds(after, start, n, polys),
{
    assert forall|i: int, g: RegionView<F>, row: nat| 0 <= i < n implies #[trigger] eval_on(
        after[start + i].poly,
        g,
        row,
    ) == polys(g, row)[i] by {
        assert(after[start + i] == before[start + i]);
        assert(eval_on(before[start + i].poly, g, row) == polys(g, row)[i]);
    }
}

/// Adds the gates of one gadget.
fn add_group<F: FieldElement>(
    meta: &mut ConstraintSystem<F>,
    name: &'static str,
    polys: Vec<Expression<F>>,
    Ghost(values): Ghost<spec_fn(RegionView<F>, nat) -> Seq<nat>>,
)
    requires
        forall|i: int, g: RegionView<F>, row: nat|
            0 <= i < polys@.len() ==> #[trigger] eval_on(polys@[i], g, row) == values(g, row)[i],
    ensures
        final(meta).gates@.len() == old(meta).gates@.len() + polys@.len(),
        forall|i: int|
            0 <= i < old(meta).gates@.len() ==> final(meta).gates@[i] == old(meta).gates@[i],
        group_holds(final(meta).gates@, old(meta).gates@.len() as int, polys@.len() as int, values),
        final(meta).lookups == old(meta).lookups,
        final(meta).permutations == old(meta).permutations,
        final(meta).num_advice == old(meta).num_advice,
        final(meta).num_fixed == old(meta).num_fixed,
        final(meta).num_selectors == old(meta).num_selectors,
{
    let ghost all = polys@;
    let ghost start = meta.gates@.len() as int;
    meta.create_gates(name, polys);
    proof {
        assert forall|i: int, g: RegionView<F>, row: nat| 0 <= i < all.len() implies #[trigger] eval_on(
            meta.gates@[start + i].poly,
            g,
            row,
        ) == values(g, row)[i] by {
            assert(meta.gates@[start + i] == (Gate { name, poly: all[i] }));
            assert(eval_on(all[i], g, row) == values(g, row)[i]);
        }
    }
}

/// Adds the gates of all gadgets to the circuit.
pub fn add_gates<C: Curve>(meta: &mut ConstraintSystem<C::Base>, c: &EccConfig)
    ensures
        gates_added::<C>(old(meta).gates@, final(meta).gates@, *c),
        final(meta).lookups == old(meta).lookups,
        final(meta).permutations == old(meta).permutations,
        final(meta).num_advice == old(meta).num_advice,
        final(meta).num_fixed == old(meta).num_fixed,
        final(meta).num_selectors == old(meta).num_selectors,
{
    let ghost n = meta.gates@.len() as int;
    let ghost f0 = |g: RegionView<C::Base>, row: nat| seq![point_poly::<C>(*c, g, row)];
    let ghost before0 = meta.gates@;
    add_group(meta, "witness point", single(point_gate::<C>(c)), Ghost(f0));
    let ghost f1 = |g: RegionView<C::Base>, row: nat| seq![bit_poly(*c, g, row)];
    let ghost before1 = meta.gates@;
    add_group(meta, "witness scalar_var", single(bit_gate(c)), Ghost(f1));
    proof {
        lemma_group_kept(before1, meta.gates@, n + 0, 1, f0);
    }
    let ghost f2 = |g: RegionView<C::Base>, row: nat| seq![sign_poly(*c, g, row)];
    let ghost before2 = meta.gates@;
    add_group(meta, "witness scalar_fixed_short", single(sign_gate(c)), Ghost(f2));
    proof {
        lemma_group_kept(before2, meta.gates@, n + 0, 1, f0);
        lemma_group_kept(before2, meta.gates@, n + 1, 1, f1);
    }
    let ghost f3 = |g: RegionView<C::Base>, row: nat| double_polys(*c, g, row);
    let ghost before3 = meta.gates@;
    add_group(meta, "point doubling", double_gate(c), Ghost(f3));
    proof {
        lemma_group_kept(before3, meta.gates@, n + 0, 1, f0);
        lemma_group_kept(before3, meta.gates@, n + 1, 1, f1);
        lemma_group_kept(before3, meta.gates@, n + 2, 1, f2);
    }
    let ghost f4 = |g: RegionView<C::Base>, row: nat| add_polys(*c, g, row);
    let ghost before4 = meta.gates@;
    add_group(meta, "point addition", add_gate(c), Ghost(f4));
    proof {
        lemma_group_kept(before4, meta.gates@, n + 0, 1, f0);
        lemma_group_kept(before4, meta.gates@, n + 1, 1, f1);
        lemma_group_kept(before4, meta.gates@, n + 2, 1, f2);
        lemma_group_kept(before4, meta.gates@, n + 3, 2, f3);
    }
    let ghost f5 = |g: RegionView<C::Base>, row: nat| complete_polys(*c, g, row);
    let ghost before5 = meta.gates@;
    add_group(meta, "complete point addition", complete_gate(c), Ghost(f5));
    proof {
        lemma_group_kept(before5, meta.gates@, n + 0, 1, f0);
        lemma_group_kept(before5, meta.gates@, n + 1, 1, f1);
        lemma_group_kept(before5, meta.gates@, n + 2, 1, f2);
        lemma_group_kept(before5, meta.gates@, n + 3, 2, f3);
        lemma_group_kept(before5, meta.gates@, n + 5, 2, f4);
    }
    let ghost f6 = |g: RegionView<C::Base>, row: nat| mul_fixed_polys::<C>(*c, g, row);
    let ghost before6 = meta.gates@;
    add_group(meta, "fixed-base scalar mul", mul_fixed_gate::<C>(c), Ghost(f6));
    proof {
        lemma_group_kept(before6, meta.gates@, n + 0, 1, f0);
        lemma_group_kept(before6, meta.gates@, n + 1, 1, f1);
        lemma_group_kept(before6, meta.gates@, n + 2, 1, f2);
        lemma_group_kept(before6, meta.gates@, n + 3, 2, f3);
        lemma_group_kept(before6, meta.gates@, n + 5, 2, f4);
        lemma_group_kept(before6, meta.gates@, n + 7, 22, f5);
    }
    let ghost f7 = |g: RegionView<C::Base>, row: nat| short_polys(*c, g, row);
    let ghost before7 = meta.gates@;
    add_group(meta, "fixed-base short signed scalar mul", short_gate(c), Ghost(f7));
    proof {
        lemma_group_kept(before7, meta.gates@, n + 0, 1, f0);
        lemma_group_kept(before7, meta.gates@, n + 1, 1, f1);
        lemma_group_kept(before7, meta.gates@, n + 2, 1, f2);
        lemma_group_kept(before7, meta.gates@, n + 3, 2, f3);
        lemma_group_kept(before7, meta.gates@, n + 5, 2, f4);
        lemma_group_kept(before7, meta.gates@, n + 7, 22, f5);
        lemma_group_kept(before7, meta.gates@, n + 29, 3, f6);
    }
    let ghost f8 = |g: RegionView<C::Base>, row: nat| mul_polys(*c, g, row);
    let ghost before8 = meta.gates@;
    add_group(meta, "variable-base scalar mul", mul_gate(c), Ghost(f8));
    proof {
        lemma_group_kept(before8, meta.gates@, n + 0, 1, f0);
        lemma_group_kept(before8, meta.gates@, n + 1, 1, f1);
        lemma_group_kept(before8, meta.gates@, n + 2, 1, f2);
        lemma_group_kept(before8, meta.gates@, n + 3, 2, f3);
        lemma_group_kept(before8, meta.gates@, n + 5, 2, f4);
        lemma_group_kept(before8, meta.gates@, n + 7, 22, f5);
        lemma_group_kept(before8, meta.gates@, n + 29, 3, f6);
        lemma_group_kept(before8, meta.gates@, n + 32, 2, f7);
    }
}

/// Allocates the selectors and fixed columns of the gadgets and declares
/// their permutations.
fn allocate<F: FieldElement>(
    meta: &mut ConstraintSystem<F>,
    sizes: Sizes,
    bits: Column,
    u: Column,
    a: (Column, Column),
    p: (Column, Column),
    lambda: (Column, Column),
    add_complete_bool: [Column; 4],
    add_complete_inv: [Column; 4],
) -> (r: EccConfig)
    requires
        0 < sizes.window_width < 64,
        old(meta).num_selectors + 10 <= usize::MAX,
        old(meta).num_fixed + pow2(sizes.window_width as nat) + 1 <= usize::MAX,
    ensures
        configured(
            *old(meta),
            r,
            sizes,
            bits,
            u,
            a,
            p,
            lambda,
            add_complete_bool,
            add_complete_inv,
        ),
        final(meta).num_advice == old(meta).num_advice,
        final(meta).num_selectors == old(meta).num_selectors + 10,
        final(meta).num_fixed == old(meta).num_fixed + pow2(sizes.window_width as nat) + 1,
        final(meta).permutations@.len() == old(meta).permutations@.len() + 2,
        forall|i: int|
            0 <= i < old(meta).permutations@.len() ==> final(meta).permutations@[i] == old(
                meta,
            ).permutations@[i],
        final(meta).permutations@[r.perm_scalar as int]@ == seq![bits],
        final(meta).permutations@[r.perm_sum as int]@ == seq![p.0, p.1, a.0, a.1],
        final(meta).gates == old(meta).gates,
        final(meta).lookups == old(meta).lookups,
{
    let q_add = meta.selector();
    let q_add_complete = meta.selector();
    let q_double = meta.selector();
    let q_mul = meta.selector();
    let q_mul_fixed = meta.selector();
    let q_mul_fixed_short = meta.selector();
    let q_point = meta.selector();
    let q_scalar_var = meta.selector();
    let q_scalar_fixed = meta.selector();
    let q_scalar_fixed_short = meta.selector();
    proof {
        vstd::bits::lemma_u64_pow2_no_overflow(sizes.window_width as nat);
        vstd::bits::lemma_u64_shl_is_mul(1, sizes.window_width as u64);
    }
    let size: u64 = 1u64 << (sizes.window_width as u64);
    let ghost first_fixed = meta.num_fixed;
    let mut lagrange_coeffs: Vec<Column> = Vec::new();
    let mut i: u64 = 0;
    while i < size
        invariant
            i <= size,
            size == pow2(sizes.window_width as nat),
            first_fixed + size + 1 <= usize::MAX,
            lagrange_coeffs.len() == i,
            meta.num_fixed == first_fixed + i,
            meta.num_advice == old(meta).num_advice,
            meta.num_selectors == old(meta).num_selectors + 10,
            meta.permutations == old(meta).permutations,
            meta.gates == old(meta).gates,
            meta.lookups == old(meta).lookups,
            forall|j: int|
                0 <= j < i ==> (#[trigger] lagrange_coeffs@[j]) == (Column {
                    kind: ColumnKind::Fixed,
                    index: (first_fixed + j) as usize,
                }),
        decreases size - i,
    {
        let column = meta.fixed_column();
        lagrange_coeffs.push(column);
        i = i + 1;
    }
    let fixed_z = meta.fixed_column();
    let perm_scalar = meta.permutations.len();
    let mut scalar_columns: Vec<Column> = Vec::new();
    scalar_columns.push(bits);
    meta.permutation(scalar_columns);
    let perm_sum = meta.permutations.len();
    let mut point_columns: Vec<Column> = Vec::new();
    point_columns.push(p.0);
    point_columns.push(p.1);
    point_columns.push(a.0);
    point_columns.push(a.1);
    meta.permutation(point_columns);
    EccConfig {
        sizes,
        bits,
        u,
        a,
        p,
        lambda,
        add_complete_bool,
        add_complete_inv,
        lagrange_coeffs,
        fixed_z,
        q_add,
        q_add_complete,
        q_double,
        q_mul,
        q_mul_fixed,
        q_mul_fixed_short,
        q_point,
        q_scalar_var,
        q_scalar_fixed,
        q_scalar_fixed_short,
        perm_scalar,
        perm_sum,
    }
}

/// Configures the gadgets on the given advice columns: allocates their
/// selectors and fixed columns, declares the two permutations, and adds
/// their gates and the lookup of the digits.
pub fn configure<C: Curve>(
    meta: &mut ConstraintSystem<C::Base>,
    sizes: Sizes,
    bits: Column,
    u: Column,
    a: (Column, Column),
    p: (Column, Column),
    lambda: (Column, Column),
    add_complete_bool: [Column; 4],
    add_complete_inv: [Column; 4],
) -> (r: EccConfig)
    requires
        0 < sizes.window_width < 64,
        old(meta).num_selectors + 10 <= usize::MAX,
        old(meta).num_fixed + pow2(sizes.window_width as nat) + 1 <= usize::MAX,
    ensures
        configured(
            *old(meta),
            r,
            sizes,
            bits,
            u,
            a,
            p,
            lambda,
            add_complete_bool,
            add_complete_inv,
        ),
        final(meta).num_advice == old(meta).num_advice,
        final(meta).num_selectors == old(meta).num_selectors + 10,
        final(meta).num_fixed == old(meta).num_fixed + pow2(sizes.window_width as nat) + 1,
        final(meta).permutations@.len() == old(meta).permutations@.len() + 2,
        forall|i: int|
            0 <= i < old(meta).permutations@.len() ==> final(meta).permutations@[i] == old(
                meta,
            ).permutations@[i],
        final(meta).permutations@[r.perm_scalar as int]@ == seq![bits],
        final(meta).permutations@[r.perm_sum as int]@ == seq![p.0, p.1, a.0, a.1],
        gates_added::<C>(old(meta).gates@, final(meta).gates@, r),
        lookup_added(old(meta).lookups@, final(meta).lookups@, r),
{
    let config = allocate(
        meta,
        sizes,
        bits,
        u,
        a,
        p,
        lambda,
        add_complete_bool,
        add_complete_inv,
    );
    add_gates::<C>(meta, &config);
    meta.lookup("witness scalar_fixed", window_lookup(&config), digit_table(sizes.window_width));
    config
}

} // verus!

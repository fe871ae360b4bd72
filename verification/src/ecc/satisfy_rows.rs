//! The rows satisfy their constraints: once a region has taken the steps of
//! a gadget's layout, the polynomials of the gadget vanish on the rows that
//! the gadget assigned.

use crate::circuit::{
    after, at, Cell, Column, eval_on, Expect, expects, flag, found, laid_out, lemma_expect_in,
    lemma_laid_out_assigns, Lookup, Op, RegionView,
};
use crate::ecc::add_complete::{complete_values, indicator, no_complete_sum};
use crate::ecc::chip::{CellValue, EccPoint};
use crate::ecc::config::EccConfig;
use crate::ecc::curve::{add_complete, Affine, Curve, on_curve, Pt};
use crate::ecc::fixed_base::{row_point, RowView, TableView};
use crate::ecc::gates::{
    add_polys, bit_poly, complete_polys, double_polys, interpolation, is_digit_table,
    mul_fixed_polys, point_poly, short_polys, window_input,
};
use crate::ecc::interpolate::value_at;
use crate::ecc::layout::{
    add_complete_laid, add_laid, assigns, both_known, complete_numbers, copy_point_ops,
    double_laid, e_copy, e_place, e_window_head, e_window_row, e_window_tail, e_windows,
    e_windows_from, is_digit_rows, Laid, lemma_windows_split, number, place_ops, point_laid,
    point_ok, witness_columns,
};
use crate::ecc::mul_fixed::{mul_fixed_spec, window_point, window_sum};
use crate::ecc::mul_fixed_short::apply_sign;
use crate::ecc::poly::poly_eval;
use crate::ecc::satisfy::{
    complete_witnessed, inverses_exist, lemma_add_vanishes, lemma_bit_vanishes,
    lemma_complete_slope_vanishes, lemma_complete_sum_vanishes, lemma_complete_ties_vanish,
    lemma_double_vanishes, lemma_point_vanishes, lemma_sign_vanishes,
    lemma_window_vanishes,
};
use crate::field::{
    BaseField, fadd, FieldElement, finv, fmul, fsub, is_inverse, lemma_eqm_ops, lemma_fmul_zero,
    lemma_units,
};
use vstd::arithmetic::div_mod::lemma_small_mod;
use vstd::arithmetic::power2::pow2;
use vstd::prelude::*;

verus! {

/// The coordinates of a known point are reduced.
proof fn lemma_known_reduced<F: FieldElement>(a: EccPoint<F>)
    ensures
        a.known() matches Some(p) ==> p.x < F::modulus() && p.y < F::modulus(),
{
    if a.known() is Some {
        a.x.value.unwrap().lemma_value();
        a.y.value.unwrap().lemma_value();
    }
}

/// The row of a witnessed point satisfies the curve equation.
pub proof fn lemma_point_row_satisfied<C: Curve>(
    c: EccConfig,
    value: Option<Affine<C::Base>>,
    offset: usize,
    l: Laid<EccPoint<C::Base>, C::Base>,
    g: RegionView<C::Base>,
)
    requires
        point_laid::<C>(c, value, offset, l),
        point_ok::<C>(value),
        value is Some,
        laid_out(g, l.ops@) is Some,
    ensures
        point_poly::<C>(c, laid_out(g, l.ops@).unwrap(), offset as nat) == 0,
{
    C::Base::lemma_modulus();
    let ops = l.ops@;
    let done = laid_out(g, ops).unwrap();
    lemma_laid_out_assigns(g, ops, 1);
    lemma_laid_out_assigns(g, ops, 2);
    lemma_point_vanishes(C::Base::modulus(), C::b(), value.unwrap()@);
    lemma_fmul_zero(C::Base::modulus(), flag(done, c.q_point, offset as nat));
}

/// The row of a doubling satisfies the two polynomials of doubling, where
/// twice the ordinate has an inverse.
pub proof fn lemma_double_row_satisfied<F: BaseField>(
    c: EccConfig,
    a: EccPoint<F>,
    offset: usize,
    l: Laid<EccPoint<F>, F>,
    g: RegionView<F>,
)
    requires
        double_laid(c, a, offset, l),
        laid_out(g, l.ops@) is Some,
        a.known() matches Some(p) && is_inverse(
            F::modulus(),
            fadd(F::modulus(), p.y, p.y),
            finv(F::modulus(), fadd(F::modulus(), p.y, p.y)),
        ),
    ensures
        double_polys(c, laid_out(g, l.ops@).unwrap(), offset as nat) =~= seq![0nat, 0nat],
{
    let m = F::modulus();
    F::lemma_modulus();
    let ops = l.ops@;
    let done = laid_out(g, ops).unwrap();
    let p = a.known().unwrap();
    lemma_known_reduced(a);
    lemma_known_reduced(l.result);
    lemma_laid_out_assigns(g, ops, 1);
    lemma_laid_out_assigns(g, ops, 3);
    lemma_laid_out_assigns(g, ops, 5);
    lemma_laid_out_assigns(g, ops, 6);
    lemma_double_vanishes(m, p);
    lemma_fmul_zero(m, flag(done, c.q_double, offset as nat));
}

/// The rows of an incomplete addition satisfy its two polynomials, where
/// the difference of the abscissas has an inverse.
pub proof fn lemma_add_rows_satisfied<F: BaseField>(
    c: EccConfig,
    a: EccPoint<F>,
    b: EccPoint<F>,
    offset: usize,
    l: Laid<EccPoint<F>, F>,
    g: RegionView<F>,
)
    requires
        offset < usize::MAX,
        add_laid(c, a, b, offset, l),
        laid_out(g, l.ops@) is Some,
        both_known(a, b) matches Some((p, q)) && is_inverse(
            F::modulus(),
            fsub(F::modulus(), q.x, p.x),
            finv(F::modulus(), fsub(F::modulus(), q.x, p.x)),
        ),
    ensures
        add_polys(c, laid_out(g, l.ops@).unwrap(), offset as nat) =~= seq![0nat, 0nat],
{
    let m = F::modulus();
    F::lemma_modulus();
    let ops = l.ops@;
    let done = laid_out(g, ops).unwrap();
    let (p, q) = both_known(a, b).unwrap();
    lemma_known_reduced(a);
    lemma_known_reduced(b);
    lemma_known_reduced(l.result);
    lemma_laid_out_assigns(g, ops, 1);
    lemma_laid_out_assigns(g, ops, 3);
    lemma_laid_out_assigns(g, ops, 5);
    lemma_laid_out_assigns(g, ops, 7);
    lemma_laid_out_assigns(g, ops, 9);
    lemma_laid_out_assigns(g, ops, 10);
    lemma_add_vanishes(m, p, q);
    lemma_fmul_zero(m, flag(done, c.q_add, offset as nat));
}

/// The rows of a complete addition satisfy its twenty-two polynomials,
/// where every number that it inverts has an inverse.
pub proof fn lemma_complete_rows_satisfied<F: BaseField>(
    c: EccConfig,
    a: EccPoint<F>,
    b: EccPoint<F>,
    offset: usize,
    l: Laid<EccPoint<F>, F>,
    g: RegionView<F>,
)
    requires
        offset < usize::MAX,
        add_complete_laid(c, a, b, offset, l),
        laid_out(g, l.ops@) is Some,
        both_known(a, b) matches Some((p, q)) && inverses_exist(F::modulus(), p, q)
            && !no_complete_sum(F::modulus(), p, q),
    ensures
        forall|i: int|
            0 <= i < 22 ==> (#[trigger] complete_polys(
                c,
                laid_out(g, l.ops@).unwrap(),
                offset as nat,
            )[i]) == 0,
{
    let m = F::modulus();
    F::lemma_modulus();
    let ops = l.ops@;
    let done = laid_out(g, ops).unwrap();
    let (p, q) = both_known(a, b).unwrap();
    lemma_known_reduced(a);
    lemma_known_reduced(b);
    lemma_known_reduced(l.result);
    let head = seq![Op::<F>::Enable(c.q_add_complete, offset)] + copy_point_ops(a, c.p, offset)
        + copy_point_ops(b, c.a, offset);
    assert(ops.take(9) == head);
    assert forall|i: int| 0 <= i < 9 implies ops[i] == head[i] by {
        assert(ops.take(9)[i] == ops[i]);
    }
    assert(ops.skip(18) == place_ops(l.result));
    assert(ops[18] == ops.skip(18)[0]);
    assert(ops[19] == ops.skip(18)[1]);
    lemma_laid_out_assigns(g, ops, 1);
    lemma_laid_out_assigns(g, ops, 3);
    lemma_laid_out_assigns(g, ops, 5);
    lemma_laid_out_assigns(g, ops, 7);
    lemma_laid_out_assigns(g, ops, 18);
    lemma_laid_out_assigns(g, ops, 19);
    let mid = ops.subrange(9, 18);
    assert forall|i: int| 0 <= i < 9 implies cell_number(
        done,
        witness_columns(c)[i],
        offset,
    ) == complete_values(m, p, q)[i].unwrap() by {
        assert(mid[i] == ops[9 + i]);
        assert(assigns(mid[i], witness_columns(c)[i], offset, complete_numbers(a, b)[i]));
        lemma_laid_out_assigns(g, ops, 9 + i);
    }
    assert(cell_number(done, witness_columns(c)[0], offset) == at(
        done,
        c.add_complete_bool[0],
        offset as nat,
    ));
    assert(cell_number(done, witness_columns(c)[1], offset) == at(
        done,
        c.add_complete_bool[1],
        offset as nat,
    ));
    assert(cell_number(done, witness_columns(c)[2], offset) == at(
        done,
        c.add_complete_bool[2],
        offset as nat,
    ));
    assert(cell_number(done, witness_columns(c)[3], offset) == at(
        done,
        c.add_complete_bool[3],
        offset as nat,
    ));
    assert(cell_number(done, witness_columns(c)[4], offset) == at(
        done,
        c.add_complete_inv[0],
        offset as nat,
    ));
    assert(cell_number(done, witness_columns(c)[5], offset) == at(
        done,
        c.add_complete_inv[1],
        offset as nat,
    ));
    assert(cell_number(done, witness_columns(c)[6], offset) == at(
        done,
        c.add_complete_inv[2],
        offset as nat,
    ));
    assert(cell_number(done, witness_columns(c)[7], offset) == at(
        done,
        c.add_complete_inv[3],
        offset as nat,
    ));
    assert(cell_number(done, witness_columns(c)[8], offset) == at(done, c.lambda.0, offset as nat));
    let s = flag(done, c.q_add_complete, offset as nat);
    lemma_complete_ties_vanish(m, s, p, q);
    lemma_complete_slope_vanishes(m, s, p, q);
    lemma_complete_sum_vanishes(m, s, p, q);
    assert(complete_polys(c, done, offset as nat) == complete_witnessed(m, s, p, q));
    assert forall|i: int| 0 <= i < 22 implies (#[trigger] complete_polys(
        c,
        done,
        offset as nat,
    )[i]) == 0 by {
        let v = complete_witnessed(m, s, p, q);
        if i < 12 {
            assert(v[i] == 0);
        } else if i >= 14 {
            assert(v[i] == 0);
        }
    }
}

/// The number in the cell of a column on a row.
pub open spec fn cell_number<F: FieldElement>(
    g: RegionView<F>,
    column: crate::circuit::Column,
    row: usize,
) -> nat {
    crate::circuit::cell_value(g.cells, Cell { column, row })
}

/// The rows of witnessed bits satisfy the polynomial of a bit.
pub proof fn lemma_bit_rows_satisfied<F: FieldElement>(
    c: EccConfig,
    ops: Seq<Op<F>>,
    cells: Seq<crate::ecc::chip::CellValue<F>>,
    offset: usize,
    bits: Seq<bool>,
    g: RegionView<F>,
    i: int,
)
    requires
        offset + bits.len() <= usize::MAX,
        is_digit_rows(
            ops,
            cells,
            c.q_scalar_var,
            c.bits,
            offset,
            bits.len(),
            Some(Seq::new(bits.len(), |j: int| indicator(bits[j]))),
        ),
        laid_out(g, ops) is Some,
        0 <= i < bits.len(),
    ensures
        bit_poly(c, laid_out(g, ops).unwrap(), (offset + i) as nat) == 0,
{
    let m = F::modulus();
    F::lemma_modulus();
    let done = laid_out(g, ops).unwrap();
    assert(cells[i].cell == (Cell { column: c.bits, row: (offset + i) as usize }));
    lemma_laid_out_assigns(g, ops, 2 * i + 1);
    lemma_units(m, 0);
    lemma_units(m, 1);
    lemma_bit_vanishes(m, bits[i]);
    lemma_fmul_zero(m, flag(done, c.q_scalar_var, (offset + i) as nat));
}

/// The row of a witnessed sign satisfies the polynomial of a sign.
pub proof fn lemma_sign_cell_satisfied<F: FieldElement>(
    c: EccConfig,
    ops: Seq<Op<F>>,
    sign: CellValue<F>,
    negative: bool,
    row: usize,
    g: RegionView<F>,
    i: int,
)
    requires
        0 <= i < ops.len(),
        ops[i] == Op::Assign(c.bits, row, sign.value),
        number(sign) == Some(indicator(negative)),
        laid_out(g, ops) is Some,
    ensures
        crate::ecc::gates::sign_poly(c, laid_out(g, ops).unwrap(), row as nat) == 0,
{
    let m = F::modulus();
    F::lemma_modulus();
    let done = laid_out(g, ops).unwrap();
    lemma_laid_out_assigns(g, ops, i);
    lemma_bit_vanishes(m, negative);
    lemma_fmul_zero(m, flag(done, c.q_scalar_fixed_short, row as nat));
}

/// The lookup of the digits finds the digit of every row of witnessed
/// windows, where every digit is below `2^width`.
pub proof fn lemma_window_rows_satisfied<F: FieldElement>(
    c: EccConfig,
    lookup: Lookup<F>,
    ops: Seq<Op<F>>,
    cells: Seq<CellValue<F>>,
    offset: usize,
    digits: Seq<nat>,
    g: RegionView<F>,
    i: int,
)
    requires
        offset + digits.len() <= usize::MAX,
        is_digit_rows(ops, cells, c.q_scalar_fixed, c.bits, offset, digits.len(), Some(digits)),
        laid_out(g, ops) is Some,
        0 <= i < digits.len(),
        digits[i] < pow2(c.sizes.window_width as nat),
        digits[i] < F::modulus(),
        is_digit_table(lookup.table@, c.sizes.window_width as nat),
        forall|h: RegionView<F>, row: nat| #[trigger]
            eval_on(lookup.input, h, row) == window_input(c, h, row),
    ensures
        found(lookup, laid_out(g, ops).unwrap(), (offset + i) as nat),
{
    let m = F::modulus();
    F::lemma_modulus();
    let done = laid_out(g, ops).unwrap();
    let row = (offset + i) as nat;
    assert(cells[i].cell == (Cell { column: c.bits, row: (offset + i) as usize }));
    lemma_laid_out_assigns(g, ops, 2 * i + 1);
    lemma_small_mod(digits[i], m);
    lemma_units(m, digits[i]);
    let k = if flag(done, c.q_scalar_fixed, row) == 0 {
        0int
    } else {
        digits[i] as int
    };
    lemma_small_mod(0, m);
    assert(lookup.table@[k].value() == window_input(c, done, row));
    assert(eval_on(lookup.input, done, row) == window_input(c, done, row));
}

/// Where the coefficient columns hold the coefficients of a polynomial on a
/// row, the interpolation over the columns is the value of the polynomial.
proof fn lemma_interpolation<F: FieldElement>(
    g: RegionView<F>,
    columns: Seq<Column>,
    coeffs: Seq<nat>,
    row: nat,
    k: nat,
)
    requires
        columns.len() == coeffs.len(),
        forall|i: int| 0 <= i < columns.len() ==> at(g, #[trigger] columns[i], row) == coeffs[i],
    ensures
        interpolation(g, columns, row, k) == poly_eval(F::modulus(), coeffs, k),
    decreases columns.len(),
{
    if columns.len() > 0 {
        assert forall|i: int| 0 <= i < columns.len() - 1 implies at(
            g,
            #[trigger] columns.drop_first()[i],
            row,
        ) == coeffs.drop_first()[i] by {
            assert(columns.drop_first()[i] == columns[i + 1]);
        }
        lemma_interpolation(g, columns.drop_first(), coeffs.drop_first(), row, k);
        assert(at(g, columns[0], row) == coeffs[0]);
    }
}

/// The value of a polynomial is reduced.
proof fn lemma_poly_eval_reduced(m: nat, c: Seq<nat>, x: nat)
    requires
        m > 0,
    ensures
        poly_eval(m, c, x) < m,
    decreases c.len(),
{
    if c.len() > 0 {
        lemma_eqm_ops(m, c[0], fmul(m, x, poly_eval(m, c.drop_first(), x)));
    }
}

/// The row of a window satisfies the polynomials of fixed-base
/// multiplication: once a region has taken the rows of the windows, on the
/// row of window `w` the abscissa is the value of the window's polynomial at
/// the digit and the ordinate is `u^2 - z`; and where the point that the
/// digit selects is on the curve, the curve equation holds.
pub proof fn lemma_window_row_satisfied<C: Curve>(
    c: EccConfig,
    t: TableView,
    k_bits: Seq<CellValue<C::Base>>,
    offset: usize,
    digits: Seq<nat>,
    ops: Seq<Op<C::Base>>,
    g: RegionView<C::Base>,
    w: nat,
)
    requires
        w < k_bits.len(),
        offset + k_bits.len() < usize::MAX,
        expects(ops) == e_windows(c, t, k_bits, offset, Some(digits), k_bits.len()),
        laid_out(g, ops) is Some,
        c.lagrange_coeffs@.len() == t.rows[w as int].coeffs.len(),
        digits[w as int] < t.rows[w as int].u.len(),
        number(k_bits[w as int]) == Some(digits[w as int] % C::Base::modulus()),
    ensures
        ({
            let done = laid_out(g, ops).unwrap();
            let polys = mul_fixed_polys::<C>(c, done, (offset + w) as nat);
            &&& polys[0] == 0
            &&& polys[1] == 0
            &&& on_curve(
                C::Base::modulus(),
                C::b(),
                window_point(C::Base::modulus(), t, digits, w as int),
            ) ==> polys[2] == 0
        }),
{
    let m = C::Base::modulus();
    C::Base::lemma_modulus();
    let done = laid_out(g, ops).unwrap();
    let n = k_bits.len();
    let row = (offset + w) as usize;
    let view = t.rows[w as int];
    let d = digits[w as int];
    let pre = e_windows(c, t, k_bits, offset, Some(digits), w);
    let line = e_window_row(c, t, k_bits[w as int], offset, w as int, Some(digits));
    let post = e_windows_from(c, t, k_bits, offset, Some(digits), w + 1, n);
    lemma_windows_split(c, t, k_bits, offset, Some(digits), w, n);
    let head = e_window_head(c, view, k_bits[w as int], row, Some(d));
    let size = view.coeffs.len() as int;
    let point = row_point(m, view, d as int);
    let tail = e_window_tail(
        c,
        m,
        row,
        (offset + w + 1) as usize,
        w == 0,
        Some(window_point(m, t, digits, w as int)),
        Some(crate::ecc::mul_fixed::window_sum(m, t, digits, w)),
    );
    assert(line == head + tail);
    assert(expects(ops) =~= pre + head + (tail + post));
    assert(head.len() == size + 7);
    assert forall|i: int| 0 <= i < size implies at(
        done,
        #[trigger] c.lagrange_coeffs@[i],
        row as nat,
    ) == view.coeffs[i] by {
        assert(head[1 + i] == Expect::Assign(c.lagrange_coeffs@[i], row, Some(view.coeffs[i])));
        lemma_expect_in(g, ops, pre, head, tail + post, 1 + i);
    }
    assert(head[size + 1] == Expect::Assign(c.fixed_z, row, Some(view.z % m)));
    lemma_expect_in(g, ops, pre, head, tail + post, size + 1);
    assert(head[size + 2] == Expect::Assign(c.bits, row, number(k_bits[w as int])));
    lemma_expect_in(g, ops, pre, head, tail + post, size + 2);
    assert(head[size + 4] == Expect::Assign(c.p.0, row, Some(point.x)));
    lemma_expect_in(g, ops, pre, head, tail + post, size + 4);
    assert(head[size + 5] == Expect::Assign(c.p.1, row, Some(point.y)));
    lemma_expect_in(g, ops, pre, head, tail + post, size + 5);
    assert(head[size + 6] == Expect::Assign(c.u, row, Some(view.u[d as int])));
    lemma_expect_in(g, ops, pre, head, tail + post, size + 6);
    lemma_interpolation(done, c.lagrange_coeffs@, view.coeffs, row as nat, d % m);
    lemma_poly_eval_reduced(m, view.coeffs, d % m);
    vstd::arithmetic::div_mod::lemma_mod_twice(d as int, m as int);
    assert(value_at(m, view.coeffs, d as int) == poly_eval(m, view.coeffs, d % m));
    lemma_window_vanishes(
        m,
        C::b(),
        flag(done, c.q_mul_fixed, row as nat),
        point.x,
        view.u[d as int],
        view.z % m,
    );
    vstd::arithmetic::div_mod::lemma_mod_twice(view.z as int, m as int);
}

/// The cells of a row hold what a complete addition of `p` and `q`
/// witnesses: the operands, the nine numbers, and the sum on the next row.
pub open spec fn holds_complete<F: FieldElement>(
    c: EccConfig,
    g: RegionView<F>,
    row: nat,
    p: Pt,
    q: Pt,
) -> bool {
    let m = F::modulus();
    let v = complete_values(m, p, q);
    let r = add_complete(m, p, q);
    &&& at(g, c.p.0, row) == p.x
    &&& at(g, c.p.1, row) == p.y
    &&& at(g, c.a.0, row) == q.x
    &&& at(g, c.a.1, row) == q.y
    &&& after(g, c.a.0, row) == r.x
    &&& after(g, c.a.1, row) == r.y
    &&& at(g, c.add_complete_bool[0], row) == v[0].unwrap()
    &&& at(g, c.add_complete_bool[1], row) == v[1].unwrap()
    &&& at(g, c.add_complete_bool[2], row) == v[2].unwrap()
    &&& at(g, c.add_complete_bool[3], row) == v[3].unwrap()
    &&& at(g, c.add_complete_inv[0], row) == v[4].unwrap()
    &&& at(g, c.add_complete_inv[1], row) == v[5].unwrap()
    &&& at(g, c.add_complete_inv[2], row) == v[6].unwrap()
    &&& at(g, c.add_complete_inv[3], row) == v[7].unwrap()
    &&& at(g, c.lambda.0, row) == v[8].unwrap()
}

/// A row that holds what a complete addition witnesses satisfies the
/// twenty-two polynomials of complete addition, where every number that it
/// inverts has an inverse.
pub proof fn lemma_complete_cells_satisfied<F: FieldElement>(
    c: EccConfig,
    g: RegionView<F>,
    row: nat,
    p: Pt,
    q: Pt,
)
    requires
        holds_complete(c, g, row, p, q),
        p.x < F::modulus() && p.y < F::modulus() && q.x < F::modulus() && q.y < F::modulus(),
        inverses_exist(F::modulus(), p, q),
        !no_complete_sum(F::modulus(), p, q),
    ensures
        forall|i: int| 0 <= i < 22 ==> (#[trigger] complete_polys(c, g, row)[i]) == 0,
{
    let m = F::modulus();
    F::lemma_modulus();
    let s = flag(g, c.q_add_complete, row);
    lemma_complete_ties_vanish(m, s, p, q);
    lemma_complete_slope_vanishes(m, s, p, q);
    lemma_complete_sum_vanishes(m, s, p, q);
    assert(complete_polys(c, g, row) == complete_witnessed(m, s, p, q));
    assert forall|i: int| 0 <= i < 22 implies (#[trigger] complete_polys(c, g, row)[i]) == 0 by {
        let v = complete_witnessed(m, s, p, q);
        if i < 12 {
            assert(v[i] == 0);
        } else if i >= 14 {
            assert(v[i] == 0);
        }
    }
}

/// The sum of two reduced points is reduced.
pub proof fn lemma_add_complete_reduced(m: nat, p: Pt, q: Pt)
    requires
        m > 0,
        p.x < m && p.y < m && q.x < m && q.y < m,
    ensures
        add_complete(m, p, q).x < m,
        add_complete(m, p, q).y < m,
{
    let r = add_complete(m, p, q);
    let l1 = crate::ecc::curve::chord_slope(m, p, q);
    let l2 = crate::ecc::curve::tangent_slope(m, p);
    lemma_eqm_ops(m, fsub(m, fmul(m, l1, l1), p.x), q.x);
    lemma_eqm_ops(m, fsub(m, fmul(m, l2, l2), p.x), p.x);
    lemma_eqm_ops(m, fmul(m, l1, fsub(m, p.x, r.x)), p.y);
    lemma_eqm_ops(m, fmul(m, l2, fsub(m, p.x, r.x)), p.y);
}

/// The points of the windows and their sums are reduced.
pub proof fn lemma_window_sum_reduced(m: nat, t: TableView, digits: Seq<nat>, n: nat)
    requires
        m > 0,
    ensures
        window_sum(m, t, digits, n).x < m,
        window_sum(m, t, digits, n).y < m,
        forall|w: int| #[trigger] window_point(m, t, digits, w).x < m && window_point(
            m,
            t,
            digits,
            w,
        ).y < m,
    decreases n,
{
    assert forall|w: int| #[trigger] window_point(m, t, digits, w).x < m && window_point(
        m,
        t,
        digits,
        w,
    ).y < m by {
        let view = t.rows[w];
        let d = digits[w];
        lemma_poly_eval_reduced(m, view.coeffs, ((d as int) as nat) % m);
        lemma_eqm_ops(m, fmul(m, view.u[d as int], view.u[d as int]), view.z % m);
    }
    if n >= 2 {
        lemma_window_sum_reduced(m, t, digits, (n - 1) as nat);
        lemma_add_complete_reduced(
            m,
            window_point(m, t, digits, n - 1),
            window_sum(m, t, digits, (n - 1) as nat),
        );
    }
}

/// The first part of the row of a window, step by step.
proof fn lemma_window_head_shape<F: FieldElement>(
    c: EccConfig,
    view: RowView,
    k_bit: CellValue<F>,
    row: usize,
    d: nat,
)
    ensures
        ({
            let head = e_window_head(c, view, k_bit, row, Some(d));
            let size = view.coeffs.len() as int;
            let point = row_point(F::modulus(), view, d as int);
            &&& head.len() == size + 7
            &&& forall|i: int|
                0 <= i < size ==> #[trigger] head[1 + i] == Expect::Assign(
                    c.lagrange_coeffs@[i],
                    row,
                    Some(view.coeffs[i]),
                )
            &&& head[size + 1] == Expect::Assign(c.fixed_z, row, Some(view.z % F::modulus()))
            &&& head[size + 2] == Expect::Assign(c.bits, row, number(k_bit))
            &&& head[size + 4] == Expect::Assign(c.p.0, row, Some(point.x))
            &&& head[size + 5] == Expect::Assign(c.p.1, row, Some(point.y))
            &&& head[size + 6] == Expect::Assign(c.u, row, Some(view.u[d as int]))
        }),
{
    let m = F::modulus();
    let size = view.coeffs.len() as int;
    let a = seq![Expect::Enable(c.q_mul_fixed, row)];
    let b = Seq::new(
        view.coeffs.len(),
        |i: int| Expect::Assign(c.lagrange_coeffs[i], row, Some(view.coeffs[i])),
    );
    let cc = seq![Expect::Assign(c.fixed_z, row, Some(view.z % m))];
    let dd = e_copy(k_bit.cell, number(k_bit), c.bits, row);
    let ee = e_place(c.p, row, Some(row_point(m, view, d as int)));
    let ff = seq![Expect::Assign(c.u, row, Some(view.u[d as int]))];
    let head = e_window_head(c, view, k_bit, row, Some(d));
    F::lemma_modulus();
    assert(head =~= a + b + cc + dd + ee + ff);
    assert(b.len() == size);
    assert((a + b).len() == size + 1);
    assert((a + b + cc).len() == size + 2);
    assert((a + b + cc + dd).len() == size + 4);
    assert((a + b + cc + dd + ee).len() == size + 6);
    assert forall|i: int| 0 <= i < size implies #[trigger] head[1 + i] == Expect::Assign(
        c.lagrange_coeffs@[i],
        row,
        Some(view.coeffs[i]),
    ) by {
        assert(head[1 + i] == (a + b)[1 + i]);
        assert((a + b)[1 + i] == b[i]);
    }
    assert(head[size + 1] == cc[0]);
    assert(head[size + 2] == dd[0]);
    assert(head[size + 4] == ee[0]);
    assert(head[size + 5] == ee[1]);
    assert(head[size + 6] == ff[0]);
}

/// The rows of the windows were laid out on the region, with further steps
/// after them.
pub open spec fn windows_laid_out<F: FieldElement>(
    c: EccConfig,
    t: TableView,
    k_bits: Seq<CellValue<F>>,
    offset: usize,
    digits: Seq<nat>,
    ops: Seq<Op<F>>,
    g: RegionView<F>,
    rest: Seq<Expect>,
) -> bool {
    &&& offset + k_bits.len() < usize::MAX
    &&& expects(ops) == e_windows(c, t, k_bits, offset, Some(digits), k_bits.len()) + rest
    &&& laid_out(g, ops) is Some
}

/// The row of a window holds the point that the digit selects in the
/// columns of `P`.
proof fn lemma_window_point_cells<F: FieldElement>(
    c: EccConfig,
    t: TableView,
    k_bits: Seq<CellValue<F>>,
    offset: usize,
    digits: Seq<nat>,
    ops: Seq<Op<F>>,
    g: RegionView<F>,
    w: nat,
    rest: Seq<Expect>,
)
    requires
        w < k_bits.len(),
        windows_laid_out(c, t, k_bits, offset, digits, ops, g, rest),
    ensures
        at(laid_out(g, ops).unwrap(), c.p.0, (offset + w) as nat) == window_point(
            F::modulus(),
            t,
            digits,
            w as int,
        ).x,
        at(laid_out(g, ops).unwrap(), c.p.1, (offset + w) as nat) == window_point(
            F::modulus(),
            t,
            digits,
            w as int,
        ).y,
{
    let m = F::modulus();
    F::lemma_modulus();
    let n = k_bits.len();
    let row = (offset + w) as usize;
    let p = window_point(m, t, digits, w as int);
    let pre = e_windows(c, t, k_bits, offset, Some(digits), w);
    let post = e_windows_from(c, t, k_bits, offset, Some(digits), w + 1, n);
    lemma_windows_split(c, t, k_bits, offset, Some(digits), w, n);
    let view = t.rows[w as int];
    let head = e_window_head(c, view, k_bits[w as int], row, Some(digits[w as int]));
    let tail = e_window_tail(
        c,
        m,
        row,
        (offset + w + 1) as usize,
        w == 0,
        Some(p),
        Some(window_sum(m, t, digits, w)),
    );
    let size = view.coeffs.len() as int;
    let line = e_window_row(c, t, k_bits[w as int], offset, w as int, Some(digits));
    assert(line == head + tail);
    assert(expects(ops) =~= pre + head + (tail + post + rest));
    lemma_window_head_shape(c, view, k_bits[w as int], row, digits[w as int]);
    lemma_expect_in(g, ops, pre, head, tail + post + rest, size + 4);
    lemma_expect_in(g, ops, pre, head, tail + post + rest, size + 5);
}

/// The row after a window holds the sum of the windows up to it in the
/// columns of `A`.
proof fn lemma_window_sum_cells<F: FieldElement>(
    c: EccConfig,
    t: TableView,
    k_bits: Seq<CellValue<F>>,
    offset: usize,
    digits: Seq<nat>,
    ops: Seq<Op<F>>,
    g: RegionView<F>,
    w: nat,
    rest: Seq<Expect>,
)
    requires
        w < k_bits.len(),
        windows_laid_out(c, t, k_bits, offset, digits, ops, g, rest),
    ensures
        at(laid_out(g, ops).unwrap(), c.a.0, (offset + w + 1) as nat) == window_sum(
            F::modulus(),
            t,
            digits,
            w + 1,
        ).x,
        at(laid_out(g, ops).unwrap(), c.a.1, (offset + w + 1) as nat) == window_sum(
            F::modulus(),
            t,
            digits,
            w + 1,
        ).y,
{
    let m = F::modulus();
    F::lemma_modulus();
    let n = k_bits.len();
    let row = (offset + w) as usize;
    let next = (offset + w + 1) as usize;
    let p = window_point(m, t, digits, w as int);
    let q = window_sum(m, t, digits, w);
    let pre = e_windows(c, t, k_bits, offset, Some(digits), w);
    let post = e_windows_from(c, t, k_bits, offset, Some(digits), w + 1, n);
    lemma_windows_split(c, t, k_bits, offset, Some(digits), w, n);
    let view = t.rows[w as int];
    let head = e_window_head(c, view, k_bits[w as int], row, Some(digits[w as int]));
    let tail = e_window_tail(c, m, row, next, w == 0, Some(p), Some(q));
    let line = e_window_row(c, t, k_bits[w as int], offset, w as int, Some(digits));
    assert(line == head + tail);
    assert(expects(ops) =~= (pre + head) + tail + (post + rest));
    let sum = window_sum(m, t, digits, w + 1);
    if w == 0 {
        assert(tail[0] == Expect::Assign(c.a.0, next, Some(sum.x)));
        lemma_expect_in(g, ops, pre + head, tail, post + rest, 0);
        assert(tail[2] == Expect::Assign(c.a.1, next, Some(sum.y)));
        lemma_expect_in(g, ops, pre + head, tail, post + rest, 2);
    } else {
        assert(tail[10] == Expect::Assign(c.a.0, next, Some(sum.x)));
        lemma_expect_in(g, ops, pre + head, tail, post + rest, 10);
        assert(tail[11] == Expect::Assign(c.a.1, next, Some(sum.y)));
        lemma_expect_in(g, ops, pre + head, tail, post + rest, 11);
    }
}

/// The row of a window but the first holds the nine numbers that the
/// addition of its point to the sum so far witnesses.
proof fn lemma_window_witness_cells<F: FieldElement>(
    c: EccConfig,
    t: TableView,
    k_bits: Seq<CellValue<F>>,
    offset: usize,
    digits: Seq<nat>,
    ops: Seq<Op<F>>,
    g: RegionView<F>,
    w: nat,
    rest: Seq<Expect>,
)
    requires
        0 < w < k_bits.len(),
        windows_laid_out(c, t, k_bits, offset, digits, ops, g, rest),
    ensures
        forall|i: int|
            0 <= i < 9 ==> cell_number(
                laid_out(g, ops).unwrap(),
                #[trigger] witness_columns(c)[i],
                (offset + w) as usize,
            ) == complete_values(
                F::modulus(),
                window_point(F::modulus(), t, digits, w as int),
                window_sum(F::modulus(), t, digits, w),
            )[i].unwrap(),
{
    let m = F::modulus();
    F::lemma_modulus();
    let done = laid_out(g, ops).unwrap();
    let n = k_bits.len();
    let row = (offset + w) as usize;
    let next = (offset + w + 1) as usize;
    let p = window_point(m, t, digits, w as int);
    let q = window_sum(m, t, digits, w);
    let pre = e_windows(c, t, k_bits, offset, Some(digits), w);
    let post = e_windows_from(c, t, k_bits, offset, Some(digits), w + 1, n);
    lemma_windows_split(c, t, k_bits, offset, Some(digits), w, n);
    let view = t.rows[w as int];
    let head = e_window_head(c, view, k_bits[w as int], row, Some(digits[w as int]));
    let tail = e_window_tail(c, m, row, next, false, Some(p), Some(q));
    let line = e_window_row(c, t, k_bits[w as int], offset, w as int, Some(digits));
    assert(line == head + tail);
    assert(expects(ops) =~= (pre + head) + tail + (post + rest));
    let values = complete_values(m, p, q);
    assert forall|i: int| 0 <= i < 9 implies cell_number(
        done,
        #[trigger] witness_columns(c)[i],
        row,
    ) == values[i].unwrap() by {
        assert(tail[1 + i] == Expect::Assign(witness_columns(c)[i], row, values[i]));
        lemma_expect_in(g, ops, pre + head, tail, post + rest, 1 + i);
    }
}

/// The nine cells of the witnesses of a complete addition on a row hold the
/// nine numbers that the addition of `p` and `q` witnesses.
pub open spec fn holds_witnesses<F: FieldElement>(
    c: EccConfig,
    g: RegionView<F>,
    row: usize,
    p: Pt,
    q: Pt,
) -> bool {
    forall|i: int|
        0 <= i < 9 ==> cell_number(g, #[trigger] witness_columns(c)[i], row) == complete_values(
            F::modulus(),
            p,
            q,
        )[i].unwrap()
}

/// A row whose cells hold the operands, the witnesses and the sum of a
/// complete addition holds what the addition witnesses.
pub proof fn lemma_holds_complete<F: FieldElement>(
    c: EccConfig,
    g: RegionView<F>,
    row: usize,
    p: Pt,
    q: Pt,
)
    requires
        row < usize::MAX,
        at(g, c.p.0, row as nat) == p.x,
        at(g, c.p.1, row as nat) == p.y,
        at(g, c.a.0, row as nat) == q.x,
        at(g, c.a.1, row as nat) == q.y,
        at(g, c.a.0, (row + 1) as nat) == add_complete(F::modulus(), p, q).x,
        at(g, c.a.1, (row + 1) as nat) == add_complete(F::modulus(), p, q).y,
        holds_witnesses(c, g, row, p, q),
    ensures
        holds_complete(c, g, row as nat, p, q),
{
    let cols = witness_columns(c);
    assert(cell_number(g, cols[0], row) == at(g, c.add_complete_bool[0], row as nat));
    assert(cell_number(g, cols[1], row) == at(g, c.add_complete_bool[1], row as nat));
    assert(cell_number(g, cols[2], row) == at(g, c.add_complete_bool[2], row as nat));
    assert(cell_number(g, cols[3], row) == at(g, c.add_complete_bool[3], row as nat));
    assert(cell_number(g, cols[4], row) == at(g, c.add_complete_inv[0], row as nat));
    assert(cell_number(g, cols[5], row) == at(g, c.add_complete_inv[1], row as nat));
    assert(cell_number(g, cols[6], row) == at(g, c.add_complete_inv[2], row as nat));
    assert(cell_number(g, cols[7], row) == at(g, c.add_complete_inv[3], row as nat));
    assert(cell_number(g, cols[8], row) == at(g, c.lambda.0, row as nat));
}

/// The row of every window but the first satisfies the polynomials of
/// complete addition: the window's point is added to the sum of the
/// windows before it.
pub proof fn lemma_window_addition_satisfied<F: FieldElement>(
    c: EccConfig,
    t: TableView,
    k_bits: Seq<CellValue<F>>,
    offset: usize,
    digits: Seq<nat>,
    ops: Seq<Op<F>>,
    g: RegionView<F>,
    w: nat,
    rest: Seq<Expect>,
)
    requires
        0 < w < k_bits.len(),
        windows_laid_out(c, t, k_bits, offset, digits, ops, g, rest),
        inverses_exist(
            F::modulus(),
            window_point(F::modulus(), t, digits, w as int),
            window_sum(F::modulus(), t, digits, w),
        ),
        !no_complete_sum(
            F::modulus(),
            window_point(F::modulus(), t, digits, w as int),
            window_sum(F::modulus(), t, digits, w),
        ),
    ensures
        forall|i: int|
            0 <= i < 22 ==> (#[trigger] complete_polys(
                c,
                laid_out(g, ops).unwrap(),
                (offset + w) as nat,
            )[i]) == 0,
{
    let m = F::modulus();
    F::lemma_modulus();
    let done = laid_out(g, ops).unwrap();
    let row = (offset + w) as usize;
    let p = window_point(m, t, digits, w as int);
    let q = window_sum(m, t, digits, w);
    lemma_window_sum_reduced(m, t, digits, w);
    lemma_window_point_cells(c, t, k_bits, offset, digits, ops, g, w, rest);
    lemma_window_sum_cells(c, t, k_bits, offset, digits, ops, g, (w - 1) as nat, rest);
    lemma_window_sum_cells(c, t, k_bits, offset, digits, ops, g, w, rest);
    lemma_window_witness_cells(c, t, k_bits, offset, digits, ops, g, w, rest);
    lemma_holds_complete(c, done, row, p, q);
    lemma_complete_cells_satisfied(c, done, row as nat, p, q);
}

/// The row of the sign of a short product satisfies its two polynomials:
/// the signed product has the abscissa of the unsigned one, and its
/// ordinate under the sign.
pub proof fn lemma_sign_row_satisfied<F: FieldElement>(
    c: EccConfig,
    t: TableView,
    k_bits: Seq<CellValue<F>>,
    sign: CellValue<F>,
    negative: bool,
    offset: usize,
    digits: Seq<nat>,
    ops: Seq<Op<F>>,
    g: RegionView<F>,
)
    requires
        k_bits.len() > 0,
        digits.len() == k_bits.len(),
        number(sign) == Some(indicator(negative)),
        windows_laid_out(
            c,
            t,
            k_bits,
            offset,
            digits,
            ops,
            g,
            sign_steps(c, t, k_bits, sign, negative, offset, digits),
        ),
    ensures
        short_polys(c, laid_out(g, ops).unwrap(), (offset + k_bits.len()) as nat) =~= seq![
            0nat,
            0nat,
        ],
{
    let m = F::modulus();
    F::lemma_modulus();
    let n = k_bits.len();
    let row = (offset + n) as usize;
    let done = laid_out(g, ops).unwrap();
    let unsigned = mul_fixed_spec(m, t, digits);
    let signed = apply_sign(m, unsigned, negative);
    let rest = sign_steps(c, t, k_bits, sign, negative, offset, digits);
    lemma_window_sum_reduced(m, t, digits, n);
    lemma_window_sum_cells(c, t, k_bits, offset, digits, ops, g, (n - 1) as nat, rest);
    let windows = e_windows(c, t, k_bits, offset, Some(digits), n);
    assert(expects(ops) =~= windows + rest + Seq::<Expect>::empty());
    assert(rest[1] == Expect::Assign(c.bits, row, Some(indicator(negative))));
    lemma_expect_in(g, ops, windows, rest, Seq::empty(), 1);
    assert(rest[3] == Expect::Assign(c.p.0, row, Some(signed.x)));
    lemma_expect_in(g, ops, windows, rest, Seq::empty(), 3);
    assert(rest[4] == Expect::Assign(c.p.1, row, Some(signed.y)));
    lemma_expect_in(g, ops, windows, rest, Seq::empty(), 4);
    lemma_sign_vanishes(m, flag(done, c.q_mul_fixed_short, row as nat), unsigned, negative);
}

/// What the row of the sign of a short product does: it enables the sign's
/// selector, copies the sign, and assigns the signed product to the
/// columns of `P`.
pub open spec fn sign_steps<F: FieldElement>(
    c: EccConfig,
    t: TableView,
    k_bits: Seq<CellValue<F>>,
    sign: CellValue<F>,
    negative: bool,
    offset: usize,
    digits: Seq<nat>,
) -> Seq<Expect> {
    let row = (offset + k_bits.len()) as usize;
    seq![Expect::Enable(c.q_mul_fixed_short, row)] + e_copy(sign.cell, number(sign), c.bits, row)
        + e_place(
        c.p,
        row,
        Some(apply_sign(F::modulus(), mul_fixed_spec(F::modulus(), t, digits), negative)),
    )
}

} // verus!

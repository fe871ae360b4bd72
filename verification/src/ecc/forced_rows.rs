//! What a satisfied region holds: where the gates of the gadgets vanish on
//! a row that has a gadget's selector enabled, over a field, the cells of
//! the row hold what the gadget is meant to witness.

use crate::circuit::{
    after, Assigned, at, Cell, cell_value, Column, eval_on, first_at, flag, found, Gate,
    gates_vanish, Lookup, lookups_hold, RegionView, Selector,
};
use crate::ecc::add_complete::{indicator, no_complete_sum};
use crate::ecc::config::EccConfig;
use crate::ecc::curve::{add_complete, add_incomplete, Curve, double, on_curve, Pt};
use crate::ecc::forced::{
    is_field, lemma_add_forced, lemma_bit_forced, lemma_complete_forced, lemma_double_forced,
    lemma_mul_last_forced, lemma_mul_step_forced, lemma_sign_forced, lemma_window_forced,
};
use crate::ecc::gates::{
    add_poly_x, add_poly_y, add_polys, bit_poly, boolean, complete_polys, curve_poly,
    double_poly_x, double_poly_y, double_polys, gates_added, interpolation, lookup_added,
    mul_fixed_polys, mul_polys, point_poly, short_polys, sign_poly,
};
use crate::ecc::mul::{addend, correction};
use crate::ecc::mul_fixed_short::apply_sign;
use crate::ecc::satisfy::lemma_point_vanishes;
use crate::field::{fadd, FieldElement, fmul, fsub, lemma_eqm_ops, lemma_units};
use vstd::arithmetic::div_mod::lemma_small_mod;
use vstd::arithmetic::power2::pow2;
use vstd::prelude::*;

verus! {

/// The number in a cell is reduced.
pub proof fn lemma_cell_reduced<F: FieldElement>(cells: Seq<Assigned<F>>, cell: Cell)
    ensures
        cell_value(cells, cell) < F::modulus(),
{
    F::lemma_modulus();
    if exists|i: int| first_at(cells, cell, i) {
        let i = choose|i: int| first_at(cells, cell, i);
        if cells[i].value is Some {
            cells[i].value.unwrap().lemma_value();
        }
    }
}

/// The numbers in the cells of a row and of the row after it are reduced.
pub proof fn lemma_row_reduced<F: FieldElement>(g: RegionView<F>, row: nat)
    ensures
        forall|column: Column| #[trigger] at(g, column, row) < F::modulus(),
        forall|column: Column| #[trigger] after(g, column, row) < F::modulus(),
{
    F::lemma_modulus();
    assert forall|column: Column| #[trigger] at(g, column, row) < F::modulus() by {
        lemma_cell_reduced(g.cells, Cell { column, row: row as usize });
    }
    assert forall|column: Column| #[trigger]
        after(g, column, row) < F::modulus() by {
        if row < usize::MAX {
            lemma_cell_reduced(g.cells, Cell { column, row: (row + 1) as usize });
        }
    }
}

/// On a row that has the selector enabled, the selector counts as one, and a
/// polynomial that it multiplies vanishes only where the rest does.
proof fn lemma_selected<F: FieldElement>(
    g: RegionView<F>,
    selector: Selector,
    j: int,
    x: nat,
)
    requires
        0 <= j < g.enabled.len(),
        g.enabled[j].0 == selector,
        x < F::modulus(),
    ensures
        flag(g, selector, g.enabled[j].1 as nat) == 1,
        fmul(F::modulus(), flag(g, selector, g.enabled[j].1 as nat), x) == x,
{
    F::lemma_modulus();
    lemma_units(F::modulus(), x);
    assert(g.enabled[j] == (selector, g.enabled[j].1));
    assert(g.enabled.contains((selector, (g.enabled[j].1 as nat) as usize)));
}

/// In a satisfied region, a row that witnesses a point holds a point of the
/// curve.
pub proof fn lemma_point_row_forced<C: Curve>(
    before: Seq<Gate<C::Base>>,
    gates: Seq<Gate<C::Base>>,
    c: EccConfig,
    g: RegionView<C::Base>,
    j: int,
)
    requires
        gates_added::<C>(before, gates, c),
        gates_vanish(gates, g),
        0 <= j < g.enabled.len(),
        g.enabled[j].0 == c.q_point,
    ensures
        on_curve(
            C::Base::modulus(),
            C::b(),
            Pt {
                x: at(g, c.p.0, g.enabled[j].1 as nat),
                y: at(g, c.p.1, g.enabled[j].1 as nat),
            },
        ),
{
    let m = C::Base::modulus();
    let n = before.len() as int;
    let row = g.enabled[j].1 as nat;
    let p = Pt { x: at(g, c.p.0, row), y: at(g, c.p.1, row) };
    C::Base::lemma_modulus();
    assert(eval_on(gates[n + 0].poly, g, row) == 0);
    assert(point_poly::<C>(c, g, row) == 0);
    let curve = curve_poly(m, C::b(), p.x, p.y);
    lemma_eqm_ops(
        m,
        fmul(m, p.y, p.y),
        fadd(m, fmul(m, fmul(m, p.x, p.x), p.x), C::b() % m),
    );
    lemma_selected(g, c.q_point, j, curve);
    lemma_point_vanishes(m, C::b(), p);
}

/// In a satisfied region over a field, a row that witnesses a bit of a
/// scalar holds zero or one.
pub proof fn lemma_bit_row_forced<C: Curve>(
    before: Seq<Gate<C::Base>>,
    gates: Seq<Gate<C::Base>>,
    c: EccConfig,
    g: RegionView<C::Base>,
    j: int,
)
    requires
        is_field(C::Base::modulus()),
        gates_added::<C>(before, gates, c),
        gates_vanish(gates, g),
        0 <= j < g.enabled.len(),
        g.enabled[j].0 == c.q_scalar_var,
    ensures
        at(g, c.bits, g.enabled[j].1 as nat) == 0 || at(g, c.bits, g.enabled[j].1 as nat) == 1,
{
    let m = C::Base::modulus();
    let n = before.len() as int;
    let row = g.enabled[j].1 as nat;
    let k = at(g, c.bits, row);
    lemma_row_reduced(g, row);
    assert(eval_on(gates[n + 1 + 0].poly, g, row) == 0);
    assert(bit_poly(c, g, row) == 0);
    lemma_eqm_ops(m, 1, k);
    lemma_eqm_ops(m, k, fsub(m, 1nat % m, k));
    lemma_selected(g, c.q_scalar_var, j, boolean(m, k));
    lemma_bit_forced(m, k);
}

/// In a satisfied region over a field, a row that witnesses a sign holds
/// zero or one.
pub proof fn lemma_sign_cell_forced<C: Curve>(
    before: Seq<Gate<C::Base>>,
    gates: Seq<Gate<C::Base>>,
    c: EccConfig,
    g: RegionView<C::Base>,
    j: int,
)
    requires
        is_field(C::Base::modulus()),
        gates_added::<C>(before, gates, c),
        gates_vanish(gates, g),
        0 <= j < g.enabled.len(),
        g.enabled[j].0 == c.q_scalar_fixed_short,
    ensures
        at(g, c.bits, g.enabled[j].1 as nat) == 0 || at(g, c.bits, g.enabled[j].1 as nat) == 1,
{
    let m = C::Base::modulus();
    let n = before.len() as int;
    let row = g.enabled[j].1 as nat;
    let k = at(g, c.bits, row);
    lemma_row_reduced(g, row);
    assert(eval_on(gates[n + 2 + 0].poly, g, row) == 0);
    assert(sign_poly(c, g, row) == 0);
    lemma_eqm_ops(m, 1, k);
    lemma_eqm_ops(m, k, fsub(m, 1nat % m, k));
    lemma_selected(g, c.q_scalar_fixed_short, j, boolean(m, k));
    lemma_bit_forced(m, k);
}

/// The point in two columns of a row.
pub open spec fn point_at<F: FieldElement>(
    g: RegionView<F>,
    columns: (Column, Column),
    row: nat,
) -> Pt {
    Pt { x: at(g, columns.0, row), y: at(g, columns.1, row) }
}

/// The point in two columns of the row after `row`.
pub open spec fn point_after<F: FieldElement>(
    g: RegionView<F>,
    columns: (Column, Column),
    row: nat,
) -> Pt {
    Pt { x: after(g, columns.0, row), y: after(g, columns.1, row) }
}

/// In a satisfied region over a field, a row of doubling whose point has a
/// tangent holds the point and its double.
pub proof fn lemma_double_row_forced<C: Curve>(
    before: Seq<Gate<C::Base>>,
    gates: Seq<Gate<C::Base>>,
    c: EccConfig,
    g: RegionView<C::Base>,
    j: int,
)
    requires
        is_field(C::Base::modulus()),
        gates_added::<C>(before, gates, c),
        gates_vanish(gates, g),
        0 <= j < g.enabled.len(),
        g.enabled[j].0 == c.q_double,
        fadd(
            C::Base::modulus(),
            at(g, c.p.1, g.enabled[j].1 as nat),
            at(g, c.p.1, g.enabled[j].1 as nat),
        ) != 0,
    ensures
        point_at(g, c.a, g.enabled[j].1 as nat) == double(
            C::Base::modulus(),
            point_at(g, c.p, g.enabled[j].1 as nat),
        ),
{
    let m = C::Base::modulus();
    let n = before.len() as int;
    let row = g.enabled[j].1 as nat;
    let p = point_at(g, c.p, row);
    let r = point_at(g, c.a, row);
    lemma_row_reduced(g, row);
    assert(eval_on(gates[n + 3 + 0].poly, g, row) == 0);
    assert(eval_on(gates[n + 3 + 1].poly, g, row) == 0);
    let polys = double_polys(c, g, row);
    assert(polys[0] == 0 && polys[1] == 0);
    let x = double_poly_x(m, p.x, p.y, r.x);
    let y = double_poly_y(m, p.x, p.y, r.x, r.y);
    lemma_eqm_ops(
        m,
        fmul(
            m,
            fmul(m, 4nat % m, fmul(m, p.y, p.y)),
            fadd(m, r.x, fmul(m, 2nat % m, p.x)),
        ),
        fmul(
            m,
            9nat % m,
            fmul(m, fmul(m, p.x, p.x), fmul(m, p.x, p.x)),
        ),
    );
    lemma_eqm_ops(
        m,
        fmul(m, fmul(m, 2nat % m, p.y), fadd(m, r.y, p.y)),
        fmul(
            m,
            fmul(m, 3nat % m, fmul(m, p.x, p.x)),
            fsub(m, p.x, r.x),
        ),
    );
    lemma_selected(g, c.q_double, j, x);
    lemma_selected(g, c.q_double, j, y);
    lemma_double_forced(m, p, r);
}

/// In a satisfied region over a field, a row of incomplete addition whose
/// operands differ in their abscissas holds the operands, and the row
/// after it their sum.
pub proof fn lemma_add_row_forced<C: Curve>(
    before: Seq<Gate<C::Base>>,
    gates: Seq<Gate<C::Base>>,
    c: EccConfig,
    g: RegionView<C::Base>,
    j: int,
)
    requires
        is_field(C::Base::modulus()),
        gates_added::<C>(before, gates, c),
        gates_vanish(gates, g),
        0 <= j < g.enabled.len(),
        g.enabled[j].0 == c.q_add,
        at(g, c.p.0, g.enabled[j].1 as nat) != at(g, c.a.0, g.enabled[j].1 as nat),
    ensures
        point_after(g, c.a, g.enabled[j].1 as nat) == add_incomplete(
            C::Base::modulus(),
            point_at(g, c.p, g.enabled[j].1 as nat),
            point_at(g, c.a, g.enabled[j].1 as nat),
        ),
{
    let m = C::Base::modulus();
    let n = before.len() as int;
    let row = g.enabled[j].1 as nat;
    let p = point_at(g, c.p, row);
    let q = point_at(g, c.a, row);
    let r = point_after(g, c.a, row);
    lemma_row_reduced(g, row);
    assert(eval_on(gates[n + 5 + 0].poly, g, row) == 0);
    assert(eval_on(gates[n + 5 + 1].poly, g, row) == 0);
    let polys = add_polys(c, g, row);
    assert(polys[0] == 0 && polys[1] == 0);
    let x = add_poly_x(m, p.x, p.y, q.x, q.y, r.x);
    let y = add_poly_y(m, p.x, p.y, q.x, q.y, r.x, r.y);
    let dx = fsub(m, p.x, q.x);
    let dy = fsub(m, p.y, q.y);
    lemma_eqm_ops(
        m,
        fmul(m, fadd(m, fadd(m, r.x, q.x), p.x), fmul(m, dx, dx)),
        fmul(m, dy, dy),
    );
    lemma_eqm_ops(
        m,
        fmul(m, fadd(m, r.y, q.y), dx),
        fmul(m, dy, fsub(m, q.x, r.x)),
    );
    lemma_selected(g, c.q_add, j, x);
    lemma_selected(g, c.q_add, j, y);
    lemma_add_forced(m, p, q, r);
}

/// In a satisfied region over a field, a row of complete addition whose
/// operands have a complete sum holds the operands, and the row after it
/// their complete sum.
pub proof fn lemma_complete_row_forced<C: Curve>(
    before: Seq<Gate<C::Base>>,
    gates: Seq<Gate<C::Base>>,
    c: EccConfig,
    g: RegionView<C::Base>,
    j: int,
)
    requires
        is_field(C::Base::modulus()),
        gates_added::<C>(before, gates, c),
        gates_vanish(gates, g),
        0 <= j < g.enabled.len(),
        g.enabled[j].0 == c.q_add_complete,
        !no_complete_sum(
            C::Base::modulus(),
            point_at(g, c.p, g.enabled[j].1 as nat),
            point_at(g, c.a, g.enabled[j].1 as nat),
        ),
    ensures
        point_after(g, c.a, g.enabled[j].1 as nat) == add_complete(
            C::Base::modulus(),
            point_at(g, c.p, g.enabled[j].1 as nat),
            point_at(g, c.a, g.enabled[j].1 as nat),
        ),
{
    let m = C::Base::modulus();
    let n = before.len() as int;
    let row = g.enabled[j].1 as nat;
    let p = point_at(g, c.p, row);
    let q = point_at(g, c.a, row);
    let r = point_after(g, c.a, row);
    lemma_row_reduced(g, row);
    lemma_selected(g, c.q_add_complete, j, 0);
    let polys = complete_polys(c, g, row);
    assert forall|i: int| 0 <= i < polys.len() implies polys[i] == 0 by {
        assert(eval_on(gates[n + 7 + i].poly, g, row) == 0);
    }
    lemma_complete_forced(
        m,
        at(g, c.add_complete_bool[0], row),
        at(g, c.add_complete_bool[1], row),
        at(g, c.add_complete_bool[2], row),
        at(g, c.add_complete_bool[3], row),
        at(g, c.add_complete_inv[0], row),
        at(g, c.add_complete_inv[1], row),
        at(g, c.add_complete_inv[2], row),
        at(g, c.add_complete_inv[3], row),
        at(g, c.lambda.0, row),
        p,
        q,
        r,
    );
}

/// In a satisfied region over a field, a row of a window's point holds the
/// point whose abscissa is the value of the polynomial that the
/// coefficient columns hold, at the digit of the row, and whose ordinate is
/// `u^2 - z`; and the point lies on the curve.
pub proof fn lemma_window_row_forced<C: Curve>(
    before: Seq<Gate<C::Base>>,
    gates: Seq<Gate<C::Base>>,
    c: EccConfig,
    g: RegionView<C::Base>,
    j: int,
)
    requires
        is_field(C::Base::modulus()),
        gates_added::<C>(before, gates, c),
        gates_vanish(gates, g),
        0 <= j < g.enabled.len(),
        g.enabled[j].0 == c.q_mul_fixed,
    ensures
        ({
            let m = C::Base::modulus();
            let row = g.enabled[j].1 as nat;
            let u = at(g, c.u, row);
            let p = point_at(g, c.p, row);
            &&& p.x == interpolation(g, c.lagrange_coeffs@, row, at(g, c.bits, row))
            &&& p.y == fsub(m, fmul(m, u, u), at(g, c.fixed_z, row))
            &&& on_curve(m, C::b(), p)
        }),
{
    let m = C::Base::modulus();
    let n = before.len() as int;
    let row = g.enabled[j].1 as nat;
    let p = point_at(g, c.p, row);
    lemma_row_reduced(g, row);
    lemma_selected(g, c.q_mul_fixed, j, 0);
    lemma_interpolation_reduced(g, c.lagrange_coeffs@, row, at(g, c.bits, row));
    let polys = mul_fixed_polys::<C>(c, g, row);
    assert forall|i: int| 0 <= i < polys.len() implies polys[i] == 0 by {
        assert(eval_on(gates[n + 29 + i].poly, g, row) == 0);
    }
    lemma_window_forced(
        m,
        C::b(),
        interpolation(g, c.lagrange_coeffs@, row, at(g, c.bits, row)),
        p,
        at(g, c.u, row),
        at(g, c.fixed_z, row),
    );
}

/// The value of an interpolation over columns is reduced.
proof fn lemma_interpolation_reduced<F: FieldElement>(
    g: RegionView<F>,
    columns: Seq<Column>,
    row: nat,
    k: nat,
)
    ensures
        interpolation(g, columns, row, k) < F::modulus(),
    decreases columns.len(),
{
    F::lemma_modulus();
    if columns.len() > 0 {
        lemma_eqm_ops(
            F::modulus(),
            at(g, columns[0], row),
            fmul(F::modulus(), k, interpolation(g, columns.drop_first(), row, k)),
        );
    }
}

/// In a satisfied region over a field, the row that signs a short product
/// holds the unsigned product and, where its first cell holds the sign, the
/// signed one: the same point under a clear sign, its inverse under a set
/// one.
pub proof fn lemma_sign_row_forced<C: Curve>(
    before: Seq<Gate<C::Base>>,
    gates: Seq<Gate<C::Base>>,
    c: EccConfig,
    g: RegionView<C::Base>,
    j: int,
    sign: bool,
)
    requires
        is_field(C::Base::modulus()),
        gates_added::<C>(before, gates, c),
        gates_vanish(gates, g),
        0 <= j < g.enabled.len(),
        g.enabled[j].0 == c.q_mul_fixed_short,
        at(g, c.bits, g.enabled[j].1 as nat) == indicator(sign),
    ensures
        point_at(g, c.p, g.enabled[j].1 as nat) == apply_sign(
            C::Base::modulus(),
            point_at(g, c.a, g.enabled[j].1 as nat),
            sign,
        ),
{
    let m = C::Base::modulus();
    let n = before.len() as int;
    let row = g.enabled[j].1 as nat;
    lemma_row_reduced(g, row);
    lemma_selected(g, c.q_mul_fixed_short, j, 0);
    let polys = short_polys(c, g, row);
    assert forall|i: int| 0 <= i < polys.len() implies polys[i] == 0 by {
        assert(eval_on(gates[n + 32 + i].poly, g, row) == 0);
    }
    assert(polys =~= seq![0nat, 0nat]);
    lemma_sign_forced(m, sign, point_at(g, c.a, row), point_at(g, c.p, row));
}

/// In a satisfied region over a field, a step row of variable-base
/// multiplication, with zero in the fixed column, whose accumulator shares
/// an abscissa neither with the addend nor with their sum, holds the
/// accumulator and the addend, and the row after it the accumulator added
/// to its sum with the addend; the addend's ordinate is that in the cell
/// of the base's ordinate, under the sign that the bit of the row gives.
pub proof fn lemma_step_row_forced<C: Curve>(
    before: Seq<Gate<C::Base>>,
    gates: Seq<Gate<C::Base>>,
    c: EccConfig,
    g: RegionView<C::Base>,
    j: int,
    bit: bool,
)
    requires
        is_field(C::Base::modulus()),
        gates_added::<C>(before, gates, c),
        gates_vanish(gates, g),
        0 <= j < g.enabled.len(),
        g.enabled[j].0 == c.q_mul,
        at(g, c.fixed_z, g.enabled[j].1 as nat) == 0,
        at(g, c.bits, g.enabled[j].1 as nat) == indicator(bit),
        at(g, c.a.0, g.enabled[j].1 as nat) != at(g, c.p.0, g.enabled[j].1 as nat),
        at(g, c.a.0, g.enabled[j].1 as nat) != add_incomplete(
            C::Base::modulus(),
            point_at(g, c.a, g.enabled[j].1 as nat),
            point_at(g, c.p, g.enabled[j].1 as nat),
        ).x,
    ensures
        ({
            let m = C::Base::modulus();
            let row = g.enabled[j].1 as nat;
            let acc = point_at(g, c.a, row);
            let p = point_at(g, c.p, row);
            &&& point_after(g, c.a, row) == add_incomplete(m, acc, add_incomplete(m, acc, p))
            &&& p.y == addend(m, Pt { x: p.x, y: at(g, c.u, row) }, bit).y
        }),
{
    let m = C::Base::modulus();
    let n = before.len() as int;
    let row = g.enabled[j].1 as nat;
    lemma_row_reduced(g, row);
    lemma_selected(g, c.q_mul, j, 0);
    let polys = mul_polys(c, g, row);
    assert forall|i: int| 0 <= i < polys.len() implies polys[i] == 0 by {
        assert(eval_on(gates[n + 34 + i].poly, g, row) == 0);
    }
    lemma_mul_step_forced(
        m,
        point_at(g, c.a, row),
        point_at(g, c.p, row),
        at(g, c.lambda.0, row),
        at(g, c.lambda.1, row),
        bit,
        at(g, c.u, row),
        point_after(g, c.a, row),
    );
}

/// In a satisfied region over a field, the last row of variable-base
/// multiplication, with one in the fixed column and the base in the cells
/// of the second slope and of the base's ordinate, holds the operand of the
/// last addition: the identity for a set bit, the inverse of the base for a
/// clear one.
pub proof fn lemma_last_row_forced<C: Curve>(
    before: Seq<Gate<C::Base>>,
    gates: Seq<Gate<C::Base>>,
    c: EccConfig,
    g: RegionView<C::Base>,
    j: int,
    bit: bool,
)
    requires
        is_field(C::Base::modulus()),
        gates_added::<C>(before, gates, c),
        gates_vanish(gates, g),
        0 <= j < g.enabled.len(),
        g.enabled[j].0 == c.q_mul,
        at(g, c.fixed_z, g.enabled[j].1 as nat) == 1,
        at(g, c.bits, g.enabled[j].1 as nat) == indicator(bit),
    ensures
        point_at(g, c.p, g.enabled[j].1 as nat) == correction(
            C::Base::modulus(),
            Pt {
                x: at(g, c.lambda.1, g.enabled[j].1 as nat),
                y: at(g, c.u, g.enabled[j].1 as nat),
            },
            bit,
        ),
{
    let m = C::Base::modulus();
    let n = before.len() as int;
    let row = g.enabled[j].1 as nat;
    lemma_row_reduced(g, row);
    lemma_selected(g, c.q_mul, j, 0);
    let polys = mul_polys(c, g, row);
    assert forall|i: int| 0 <= i < polys.len() implies polys[i] == 0 by {
        assert(eval_on(gates[n + 34 + i].poly, g, row) == 0);
    }
    lemma_mul_last_forced(
        m,
        point_at(g, c.a, row),
        point_at(g, c.p, row),
        at(g, c.lambda.0, row),
        Pt { x: at(g, c.lambda.1, row), y: at(g, c.u, row) },
        bit,
        point_after(g, c.a, row),
    );
}

/// In a region whose lookups hold, a row that witnesses a window holds a
/// digit below `2^width`, where the field holds every digit.
pub proof fn lemma_digit_row_forced<F: FieldElement>(
    before: Seq<Lookup<F>>,
    lookups: Seq<Lookup<F>>,
    c: EccConfig,
    g: RegionView<F>,
    j: int,
)
    requires
        lookup_added(before, lookups, c),
        lookups_hold(lookups, g),
        0 <= j < g.enabled.len(),
        g.enabled[j].0 == c.q_scalar_fixed,
        pow2(c.sizes.window_width as nat) <= F::modulus(),
    ensures
        at(g, c.bits, g.enabled[j].1 as nat) < pow2(c.sizes.window_width as nat),
{
    let m = F::modulus();
    let row = g.enabled[j].1 as nat;
    let lookup = lookups[before.len() as int];
    lemma_row_reduced(g, row);
    lemma_selected(g, c.q_scalar_fixed, j, at(g, c.bits, row));
    assert(found(lookup, g, row));
    let k = choose|k: int|
        0 <= k < lookup.table@.len() && (#[trigger] lookup.table@[k]).value() == eval_on(
            lookup.input,
            g,
            row,
        );
    lemma_small_mod(k as nat, m);
}

} // verus!

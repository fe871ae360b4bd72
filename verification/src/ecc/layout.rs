//! The layout of each gadget: the steps that assign its rows, which selector
//! it enables where, and the witnessed value that it gives back. A layout is
//! computed from values alone; a region then carries it out.

use crate::circuit::{Cell, Column, Expect, expects, Op, push_op, Selector};
use crate::ecc::add::{add_points, chord, line_sum};
use crate::ecc::add_complete::{
    add_complete_points, complete_values, CompleteSum, indicator, no_complete_sum,
};
use crate::ecc::chip::{CellValue, EccPoint, EccScalarFixed, EccScalarFixedShort, EccScalarVar};
use crate::ecc::config::EccConfig;
use crate::ecc::curve::{
    add_complete, add_incomplete, Affine, chord_slope, Curve, double, is_on_curve, on_curve, Pt,
};
use crate::ecc::decompose::{
    as_digits, bits_be, check_windows, decompose_bits, decompose_windows, in_range, window_count,
    windows,
};
use crate::ecc::double::double_point;
use crate::ecc::error::Error;
use crate::ecc::fixed_base::{row_point, RowView, TableView, WindowRow, WindowTable};
use crate::ecc::mul::{
    addend, correction, correction_point, ladder, ladder_defined, ladder_end, ladder_step,
    lemma_prefix_undefined, mul_defined, mul_var, negate_point, step_defined,
};
use crate::ecc::mul_fixed::{
    mul_fixed_defined, mul_fixed_spec, sum_defined, window_point, window_sum,
};
use crate::ecc::mul_fixed_short::apply_sign;
use crate::field::{BaseField, fadd, FieldElement};
use vstd::arithmetic::div_mod::lemma_small_mod;
use vstd::arithmetic::power2::pow2;
use vstd::prelude::*;

verus! {

/// A layout: what the gadget gives back, the steps that assign it, and the
/// number of rows that the steps use from the offset on.
#[derive(Debug)]
pub struct Laid<T, F: FieldElement> {
    pub result: T,
    pub ops: Vec<Op<F>>,
    pub rows: usize,
}

/// The steps that copy a witnessed value into a cell: the value is assigned
/// there, and the two cells are constrained equal.
pub open spec fn copy_ops<F: FieldElement>(v: CellValue<F>, column: Column, row: usize) -> Seq<
    Op<F>,
> {
    seq![Op::Assign(column, row, v.value), Op::Copy(v.cell, Cell { column, row })]
}

/// The point whose coordinates are assigned to a pair of columns on a row.
pub open spec fn placed<F: FieldElement>(
    columns: (Column, Column),
    row: usize,
    x: Option<F>,
    y: Option<F>,
) -> EccPoint<F> {
    EccPoint {
        x: CellValue { cell: Cell { column: columns.0, row }, value: x },
        y: CellValue { cell: Cell { column: columns.1, row }, value: y },
    }
}

/// The steps that assign a point to the columns and row where it is placed.
pub open spec fn place_ops<F: FieldElement>(p: EccPoint<F>) -> Seq<Op<F>> {
    seq![
        Op::Assign(p.x.cell.column, p.x.cell.row, p.x.value),
        Op::Assign(p.y.cell.column, p.y.cell.row, p.y.value),
    ]
}

/// The steps that copy a point into a pair of columns on a row.
pub open spec fn copy_point_ops<F: FieldElement>(
    p: EccPoint<F>,
    columns: (Column, Column),
    row: usize,
) -> Seq<Op<F>> {
    copy_ops(p.x, columns.0, row) + copy_ops(p.y, columns.1, row)
}

/// What copying a number from a cell into a column on a row does.
pub open spec fn e_copy(
    from: Cell,
    number: Option<nat>,
    column: Column,
    row: usize,
) -> Seq<Expect> {
    seq![Expect::Assign(column, row, number), Expect::Copy(from, Cell { column, row })]
}

/// What assigning a point to a pair of columns on a row does.
pub open spec fn e_place(columns: (Column, Column), row: usize, point: Option<Pt>) -> Seq<Expect> {
    seq![
        Expect::Assign(
            columns.0,
            row,
            match point {
                Some(p) => Some(p.x),
                None => None,
            },
        ),
        Expect::Assign(
            columns.1,
            row,
            match point {
                Some(p) => Some(p.y),
                None => None,
            },
        ),
    ]
}

/// What copying a point from the cells of another into a pair of columns
/// on a row does.
pub open spec fn e_copy_point<F: FieldElement>(
    p: EccPoint<F>,
    columns: (Column, Column),
    row: usize,
) -> Seq<Expect> {
    e_copy(p.x.cell, number(p.x), columns.0, row) + e_copy(p.y.cell, number(p.y), columns.1, row)
}

/// What assigning the nine witnesses of a complete addition on a row does.
pub open spec fn e_witnesses(c: EccConfig, row: usize, numbers: Seq<Option<nat>>) -> Seq<Expect> {
    Seq::new(9, |i: int| Expect::Assign(witness_columns(c)[i], row, numbers[i]))
}

/// Adds the steps that copy a point into a pair of columns on a row.
pub fn push_copy_point<F: FieldElement>(
    ops: &mut Vec<Op<F>>,
    p: &EccPoint<F>,
    columns: (Column, Column),
    row: usize,
)
    ensures
        final(ops)@ == old(ops)@ + copy_point_ops(*p, columns, row),
        expects(final(ops)@) == expects(old(ops)@) + e_copy_point(*p, columns, row),
        final(ops)@.len() > old(ops)@.len(),
        old(ops)@.len() > 0 ==> final(ops)@[0] == old(ops)@[0],
{
    ops.push(Op::Assign(columns.0, row, p.x.value));
    ops.push(Op::Copy(p.x.cell, Cell { column: columns.0, row }));
    ops.push(Op::Assign(columns.1, row, p.y.value));
    ops.push(Op::Copy(p.y.cell, Cell { column: columns.1, row }));
    proof {
        assert(final(ops)@ =~= old(ops)@ + copy_point_ops(*p, columns, row));
        assert(expects(final(ops)@) =~= expects(old(ops)@) + e_copy_point(*p, columns, row));
    }
}

/// The witnessed point holds exactly the coordinates of the value, or none
/// where there is no value.
pub open spec fn holds<F: FieldElement>(at: EccPoint<F>, value: Option<Affine<F>>) -> bool {
    match value {
        Some(p) => at.x.value == Some(p.x) && at.y.value == Some(p.y),
        None => at.x.value is None && at.y.value is None,
    }
}

/// Adds the steps that assign a point to a pair of columns on a row, and
/// gives the point as it is placed there.
pub fn push_place<F: FieldElement>(
    ops: &mut Vec<Op<F>>,
    columns: (Column, Column),
    row: usize,
    value: Option<Affine<F>>,
) -> (r: EccPoint<F>)
    ensures
        r.x.cell == (Cell { column: columns.0, row }),
        r.y.cell == (Cell { column: columns.1, row }),
        r.coordinates() == value,
        holds(r, value),
        r.known() == (match value {
            Some(p) => Some(p@),
            None => None,
        }),
        final(ops)@ == old(ops)@ + place_ops(r),
        expects(final(ops)@) == expects(old(ops)@) + e_place(
            columns,
            row,
            match value {
                Some(p) => Some(p@),
                None => None,
            },
        ),
        final(ops)@.len() > old(ops)@.len(),
        old(ops)@.len() > 0 ==> final(ops)@[0] == old(ops)@[0],
{
    let (x, y) = match value {
        Some(p) => (Some(p.x), Some(p.y)),
        None => (None, None),
    };
    ops.push(Op::Assign(columns.0, row, x));
    ops.push(Op::Assign(columns.1, row, y));
    let r = EccPoint {
        x: CellValue { cell: Cell { column: columns.0, row }, value: x },
        y: CellValue { cell: Cell { column: columns.1, row }, value: y },
    };
    proof {
        assert(final(ops)@ =~= old(ops)@ + place_ops(r));
        assert(expects(final(ops)@) =~= expects(old(ops)@) + e_place(
            columns,
            row,
            match value {
                Some(p) => Some(p@),
                None => None,
            },
        ));
    }
    r
}

/// The inputs for which `lay_point` gives a layout.
pub open spec fn point_ok<C: Curve>(value: Option<Affine<C::Base>>) -> bool {
    value matches Some(p) ==> on_curve(C::Base::modulus(), C::b(), p@)
}

/// What `lay_point` states of the layout that it gives.
pub open spec fn point_laid<C: Curve>(
    c: EccConfig,
    value: Option<Affine<C::Base>>,
    offset: usize,
    l: Laid<EccPoint<C::Base>, C::Base>,
) -> bool {
    &&& l.rows == 1
    &&& l.result.coordinates() == value
    &&& l.result.x.cell == (Cell { column: c.p.0, row: offset })
    &&& l.result.y.cell == (Cell { column: c.p.1, row: offset })
    &&& l.ops@ == seq![Op::Enable(c.q_point, offset)] + place_ops(l.result)
}

/// The layout of a witnessed point: one row, on which the point is assigned
/// and its gate enabled. A known pair that is not on the curve is refused.
pub fn lay_point<C: Curve>(c: &EccConfig, value: Option<Affine<C::Base>>, offset: usize) -> (r:
    Result<Laid<EccPoint<C::Base>, C::Base>, Error>)
    ensures
        r is Ok <==> point_ok::<C>(value),
        r matches Err(e) ==> e == Error::InvalidPoint,
        r matches Ok(l) ==> point_laid::<C>(*c, value, offset, l),
{
    match value {
        Some(p) => {
            if !is_on_curve::<C>(&p) {
                return Err(Error::InvalidPoint);
            }
        },
        None => {},
    }
    let mut ops: Vec<Op<C::Base>> = Vec::new();
    ops.push(Op::Enable(c.q_point, offset));
    let result = push_place(&mut ops, c.p, offset, value);
    Ok(Laid { result, ops, rows: 1 })
}

/// The inputs for which `lay_double` gives a layout.
pub open spec fn double_ok<F: BaseField>(c: EccConfig, a: EccPoint<F>, offset: usize) -> bool {
    (a.known() matches Some(p) ==> fadd(F::modulus(), p.y, p.y) != 0)
}

/// What `lay_double` states of the layout that it gives.
pub open spec fn double_laid<F: BaseField>(
    c: EccConfig,
    a: EccPoint<F>,
    offset: usize,
    l: Laid<EccPoint<F>, F>,
) -> bool {
    &&& l.rows == 1
    &&& l.result.known() == (match a.known() {
        Some(p) => Some(double(F::modulus(), p)),
        None => None,
    })
    &&& l.result.x.cell == (Cell { column: c.a.0, row: offset })
    &&& l.result.y.cell == (Cell { column: c.a.1, row: offset })
    &&& l.ops@ == seq![Op::Enable(c.q_double, offset)] + copy_point_ops(a, c.p, offset)
        + place_ops(l.result)
}

/// The layout of a doubling: one row, with the point in the columns of `P`
/// and its double in those of `A`.
pub fn lay_double<F: BaseField>(c: &EccConfig, a: &EccPoint<F>, offset: usize) -> (r: Result<
    Laid<EccPoint<F>, F>,
    Error,
>)
    ensures
        r is Ok <==> double_ok(*c, *a, offset),
        r matches Err(e) ==> e == Error::Synthesis,
        r matches Ok(l) ==> double_laid(*c, *a, offset, l),
{
    let doubled = match a.point() {
        Some(p) => match double_point(&p) {
            Some(d) => Some(d),
            None => {
                return Err(Error::Synthesis);
            },
        },
        None => None,
    };
    let mut ops: Vec<Op<F>> = Vec::new();
    ops.push(Op::Enable(c.q_double, offset));
    push_copy_point(&mut ops, a, c.p, offset);
    let result = push_place(&mut ops, c.a, offset, doubled);
    Ok(Laid { result, ops, rows: 1 })
}

/// The known coordinates of two points, where all four are known.
pub open spec fn both_known<F: FieldElement>(a: EccPoint<F>, b: EccPoint<F>) -> Option<(Pt, Pt)> {
    match (a.known(), b.known()) {
        (Some(p), Some(q)) => Some((p, q)),
        _ => None,
    }
}

/// The inputs for which `lay_add` gives a layout.
pub open spec fn add_ok<F: BaseField>(
    c: EccConfig,
    a: EccPoint<F>,
    b: EccPoint<F>,
    offset: usize,
) -> bool {
    offset < usize::MAX && (both_known(a, b) matches Some((p, q)) ==> p.x
        != q.x)
}

/// What `lay_add` states of the layout that it gives.
pub open spec fn add_laid<F: BaseField>(
    c: EccConfig,
    a: EccPoint<F>,
    b: EccPoint<F>,
    offset: usize,
    l: Laid<EccPoint<F>, F>,
) -> bool {
    &&& l.rows == 2
    &&& l.result.known() == (match both_known(a, b) {
        Some((p, q)) => Some(add_incomplete(F::modulus(), p, q)),
        None => None,
    })
    &&& l.result.x.cell == (Cell { column: c.a.0, row: (offset + 1) as usize })
    &&& l.result.y.cell == (Cell { column: c.a.1, row: (offset + 1) as usize })
    &&& l.ops@ == seq![Op::Enable(c.q_add, offset)] + copy_point_ops(a, c.p, offset)
        + copy_point_ops(b, c.a, offset) + place_ops(l.result)
}

/// The layout of an incomplete addition: a row with `P` and `Q`, and the sum
/// in the columns of `A` on the next row.
pub fn lay_add<F: BaseField>(c: &EccConfig, a: &EccPoint<F>, b: &EccPoint<F>, offset: usize) -> (r:
    Result<Laid<EccPoint<F>, F>, Error>)
    ensures
        r is Ok <==> add_ok(*c, *a, *b, offset),
        r matches Err(e) ==> e == Error::Synthesis,
        r matches Ok(l) ==> add_laid(*c, *a, *b, offset, l),
{
    if offset == usize::MAX {
        return Err(Error::Synthesis);
    }
    let sum = match (a.point(), b.point()) {
        (Some(p), Some(q)) => match add_points(&p, &q) {
            Some(s) => Some(s),
            None => {
                return Err(Error::Synthesis);
            },
        },
        _ => None,
    };
    let mut ops: Vec<Op<F>> = Vec::new();
    ops.push(Op::Enable(c.q_add, offset));
    push_copy_point(&mut ops, a, c.p, offset);
    push_copy_point(&mut ops, b, c.a, offset);
    let result = push_place(&mut ops, c.a, offset + 1, sum);
    Ok(Laid { result, ops, rows: 2 })
}

/// The field element of an indicator: one where it is set, zero where not.
pub fn indicator_value<F: FieldElement>(set: bool) -> (r: F)
    ensures
        r.value() == (if set {
            1nat
        } else {
            0nat
        }),
{
    proof {
        F::lemma_modulus();
        lemma_small_mod(0, F::modulus());
        lemma_small_mod(1, F::modulus());
    }
    if set {
        F::from_u64(1)
    } else {
        F::from_u64(0)
    }
}

/// The nine values that a complete addition witnesses besides its operands
/// and its sum: four indicators, four inverses and the slope.
pub open spec fn witness_values<F: FieldElement>(row: Option<CompleteSum<F>>) -> Seq<Option<nat>> {
    match row {
        None => Seq::new(9, |i: int| None),
        Some(w) => seq![
            Some(if w.same_x { 1nat } else { 0nat }),
            Some(if w.p_identity { 1nat } else { 0nat }),
            Some(if w.q_identity { 1nat } else { 0nat }),
            Some(if w.opposite_y { 1nat } else { 0nat }),
            Some(w.alpha.value()),
            Some(w.beta.value()),
            Some(w.gamma.value()),
            Some(w.delta.value()),
            Some(w.lambda.value()),
        ],
    }
}

/// The columns of the nine witnesses of a complete addition, in order.
pub open spec fn witness_columns(c: EccConfig) -> Seq<Column> {
    seq![
        c.add_complete_bool[0],
        c.add_complete_bool[1],
        c.add_complete_bool[2],
        c.add_complete_bool[3],
        c.add_complete_inv[0],
        c.add_complete_inv[1],
        c.add_complete_inv[2],
        c.add_complete_inv[3],
        c.lambda.0,
    ]
}

/// The step assigns to the column on the row a value that stands for the
/// given number, or no value where none is given.
pub open spec fn assigns<F: FieldElement>(
    op: Op<F>,
    column: Column,
    row: usize,
    number: Option<nat>,
) -> bool {
    match op {
        Op::Assign(to, at, value) => to == column && at == row && (match value {
            Some(v) => Some(v.value()),
            None => None,
        }) == number,
        _ => false,
    }
}

/// The steps assign the nine witnesses of a complete addition on the row.
pub open spec fn is_witness_ops<F: FieldElement>(
    ops: Seq<Op<F>>,
    c: EccConfig,
    row: usize,
    numbers: Seq<Option<nat>>,
) -> bool {
    &&& ops.len() == 9
    &&& forall|i: int| 0 <= i < 9 ==> assigns(#[trigger] ops[i], witness_columns(c)[i], row, numbers[i])
}

/// The nine numbers that the rows of a complete addition of two witnessed
/// points hold, where the points are known.
pub open spec fn complete_numbers<F: FieldElement>(a: EccPoint<F>, b: EccPoint<F>) -> Seq<
    Option<nat>,
> {
    match both_known(a, b) {
        Some((p, q)) => complete_values(F::modulus(), p, q),
        None => Seq::new(9, |i: int| None),
    }
}

/// Adds the steps that assign the nine witnesses of a complete addition.
pub fn push_witnesses<F: BaseField>(
    ops: &mut Vec<Op<F>>,
    c: &EccConfig,
    row: usize,
    w: &Option<CompleteSum<F>>,
)
    ensures
        final(ops)@.len() == old(ops)@.len() + 9,
        final(ops)@.take(old(ops)@.len() as int) == old(ops)@,
        is_witness_ops(final(ops)@.skip(old(ops)@.len() as int), *c, row, witness_values(*w)),
        expects(final(ops)@) == expects(old(ops)@) + e_witnesses(*c, row, witness_values(*w)),
        old(ops)@.len() > 0 ==> final(ops)@[0] == old(ops)@[0],
{
    let ghost before = ops@;
    let values: [Option<F>; 9] = match w {
        None => [None, None, None, None, None, None, None, None, None],
        Some(s) => [
            Some(indicator_value(s.same_x)),
            Some(indicator_value(s.p_identity)),
            Some(indicator_value(s.q_identity)),
            Some(indicator_value(s.opposite_y)),
            Some(s.alpha),
            Some(s.beta),
            Some(s.gamma),
            Some(s.delta),
            Some(s.lambda),
        ],
    };
    ops.push(Op::Assign(c.add_complete_bool[0], row, values[0]));
    ops.push(Op::Assign(c.add_complete_bool[1], row, values[1]));
    ops.push(Op::Assign(c.add_complete_bool[2], row, values[2]));
    ops.push(Op::Assign(c.add_complete_bool[3], row, values[3]));
    ops.push(Op::Assign(c.add_complete_inv[0], row, values[4]));
    ops.push(Op::Assign(c.add_complete_inv[1], row, values[5]));
    ops.push(Op::Assign(c.add_complete_inv[2], row, values[6]));
    ops.push(Op::Assign(c.add_complete_inv[3], row, values[7]));
    ops.push(Op::Assign(c.lambda.0, row, values[8]));
    proof {
        assert(ops@.take(before.len() as int) =~= before);
        let tail = ops@.skip(before.len() as int);
        assert(tail.len() == 9);
        assert forall|i: int| 0 <= i < 9 implies assigns(
            #[trigger] tail[i],
            witness_columns(*c)[i],
            row,
            witness_values(*w)[i],
        ) by {
            assert(tail[i] == ops@[before.len() + i]);
        }
        let want = expects(before) + e_witnesses(*c, row, witness_values(*w));
        assert(expects(ops@).len() == want.len());
        assert forall|i: int| 0 <= i < want.len() implies expects(ops@)[i] == want[i] by {
            if i >= before.len() {
                assert(tail[i - before.len()] == ops@[i]);
                assert(assigns(
                    tail[i - before.len()],
                    witness_columns(*c)[i - before.len()],
                    row,
                    witness_values(*w)[i - before.len()],
                ));
            } else {
                assert(ops@.take(before.len() as int)[i] == ops@[i]);
            }
        }
        assert(expects(ops@) =~= want);
    }
}

/// The inputs for which `lay_add_complete` gives a layout.
pub open spec fn add_complete_ok<F: BaseField>(
    c: EccConfig,
    a: EccPoint<F>,
    b: EccPoint<F>,
    offset: usize,
) -> bool {
    offset < usize::MAX && (both_known(a, b) matches Some((p, q))
        ==> !no_complete_sum(F::modulus(), p, q))
}

/// What `lay_add_complete` states of the layout that it gives.
pub open spec fn add_complete_laid<F: BaseField>(
    c: EccConfig,
    a: EccPoint<F>,
    b: EccPoint<F>,
    offset: usize,
    l: Laid<EccPoint<F>, F>,
) -> bool {
    &&& l.rows == 2
    &&& l.result.known() == (match both_known(a, b) {
        Some((p, q)) => Some(add_complete(F::modulus(), p, q)),
        None => None,
    })
    &&& l.result.x.cell == (Cell { column: c.a.0, row: (offset + 1) as usize })
    &&& l.result.y.cell == (Cell { column: c.a.1, row: (offset + 1) as usize })
    &&& l.ops@.len() == 20
    &&& l.ops@.take(9) == seq![Op::Enable(c.q_add_complete, offset)] + copy_point_ops(
        a,
        c.p,
        offset,
    ) + copy_point_ops(b, c.a, offset)
    &&& is_witness_ops(l.ops@.subrange(9, 18), c, offset, complete_numbers(a, b))
    &&& l.ops@.skip(18) == place_ops(l.result)
}

/// The layout of a complete addition: a row with `P`, `Q`, the indicators,
/// the inverses and the slope, and the sum in the columns of `A` on the next
/// row.
pub fn lay_add_complete<F: BaseField>(
    c: &EccConfig,
    a: &EccPoint<F>,
    b: &EccPoint<F>,
    offset: usize,
) -> (r: Result<Laid<EccPoint<F>, F>, Error>)
    ensures
        r is Ok <==> add_complete_ok(*c, *a, *b, offset),
        r matches Err(e) ==> e == Error::Synthesis,
        r matches Ok(l) ==> add_complete_laid(*c, *a, *b, offset, l),
{
    if offset == usize::MAX {
        return Err(Error::Synthesis);
    }
    let witness = match (a.point(), b.point()) {
        (Some(p), Some(q)) => match add_complete_points(&p, &q) {
            Some(s) => Some(s),
            None => {
                return Err(Error::Synthesis);
            },
        },
        _ => None,
    };
    let sum = match witness {
        Some(w) => Some(w.sum),
        None => None,
    };
    let mut ops: Vec<Op<F>> = Vec::new();
    ops.push(Op::Enable(c.q_add_complete, offset));
    push_copy_point(&mut ops, a, c.p, offset);
    push_copy_point(&mut ops, b, c.a, offset);
    let ghost head = ops@;
    push_witnesses(&mut ops, c, offset, &witness);
    let ghost middle = ops@;
    let result = push_place(&mut ops, c.a, offset + 1, sum);
    proof {
        assert(ops@.take(9) =~= head);
        assert(ops@.skip(18) =~= place_ops(result));
        assert(ops@.subrange(9, 18) =~= middle.skip(9));
        assert(witness_values(witness) =~= complete_numbers(*a, *b));
    }
    Ok(Laid { result, ops, rows: 2 })
}

/// The number that a witnessed cell holds, where it is known.
pub open spec fn number<F: FieldElement>(v: CellValue<F>) -> Option<nat> {
    match v.value {
        Some(f) => Some(f.value()),
        None => None,
    }
}

/// The steps witness `n` digits on `n` rows from the offset on, one digit to
/// a row in the given column with the selector enabled, and the cells hold
/// the digits.
pub open spec fn is_digit_rows<F: FieldElement>(
    ops: Seq<Op<F>>,
    cells: Seq<CellValue<F>>,
    selector: Selector,
    column: Column,
    offset: usize,
    n: nat,
    digits: Option<Seq<nat>>,
) -> bool {
    &&& ops.len() == 2 * n
    &&& cells.len() == n
    &&& forall|i: int|
        0 <= i < n ==> {
            &&& ops[2 * i] == Op::<F>::Enable(selector, (offset + i) as usize)
            &&& ops[2 * i + 1] == Op::Assign(column, (offset + i) as usize, cells[i].value)
            &&& (#[trigger] cells[i]).cell == (Cell { column, row: (offset + i) as usize })
            &&& number(cells[i]) == (match digits {
                Some(d) => Some(d[i] % F::modulus()),
                None => None,
            })
        }
}

/// The rows that witness the given digits, or as many unknown digits.
pub fn lay_digits<F: FieldElement>(
    selector: Selector,
    column: Column,
    offset: usize,
    n: usize,
    digits: &Option<Vec<u64>>,
) -> (r: (Vec<CellValue<F>>, Vec<Op<F>>))
    requires
        offset + n <= usize::MAX,
        digits matches Some(d) ==> d.len() == n,
    ensures
        is_digit_rows(
            r.1@,
            r.0@,
            selector,
            column,
            offset,
            n as nat,
            match digits {
                Some(d) => Some(as_digits(d@)),
                None => None,
            },
        ),
{
    let ghost spec_digits = match digits {
        Some(d) => Some(as_digits(d@)),
        None => None,
    };
    let mut cells: Vec<CellValue<F>> = Vec::new();
    let mut ops: Vec<Op<F>> = Vec::new();
    let mut i: usize = 0;
    while i < n
        invariant
            i <= n,
            offset + n <= usize::MAX,
            digits matches Some(d) ==> d.len() == n,
            spec_digits == (match digits {
                Some(d) => Some(as_digits(d@)),
                None => None,
            }),
            is_digit_rows(ops@, cells@, selector, column, offset, i as nat, spec_digits),
        decreases n - i,
    {
        let value = match digits {
            Some(d) => Some(F::from_u64(d[i])),
            None => None,
        };
        let row = offset + i;
        let ghost before = (ops@, cells@);
        ops.push(Op::Enable(selector, row));
        ops.push(Op::Assign(column, row, value));
        cells.push(CellValue { cell: Cell { column, row }, value });
        proof {
            assert forall|j: int| 0 <= j < i + 1 implies {
                &&& ops@[2 * j] == Op::<F>::Enable(selector, (offset + j) as usize)
                &&& ops@[2 * j + 1] == Op::Assign(column, (offset + j) as usize, cells@[j].value)
                &&& (#[trigger] cells@[j]).cell == (Cell { column, row: (offset + j) as usize })
                &&& number(cells@[j]) == (match spec_digits {
                    Some(d) => Some(d[j] % F::modulus()),
                    None => None,
                })
            } by {
                if j < i {
                    assert(cells@[j] == before.1[j]);
                    assert(ops@[2 * j] == before.0[2 * j]);
                    assert(ops@[2 * j + 1] == before.0[2 * j + 1]);
                }
            }
        }
        i = i + 1;
    }
    (cells, ops)
}

/// The digits zero and one for clear and set bits.
pub fn bits_as_digits(bits: &Vec<bool>) -> (r: Vec<u64>)
    ensures
        r.len() == bits.len(),
        forall|i: int|
            0 <= i < bits.len() ==> (#[trigger] r[i]) == (if bits[i] {
                1u64
            } else {
                0u64
            }),
{
    let mut digits: Vec<u64> = Vec::new();
    let mut i: usize = 0;
    while i < bits.len()
        invariant
            i <= bits.len(),
            digits.len() == i,
            forall|j: int|
                0 <= j < i ==> (#[trigger] digits[j]) == (if bits[j] {
                    1u64
                } else {
                    0u64
                }),
        decreases bits.len() - i,
    {
        digits.push(if bits[i] {
            1
        } else {
            0
        });
        i = i + 1;
    }
    digits
}

/// The scalar that the ladder reads: the given scalar plus the offset of
/// the curve.
pub open spec fn shifted<C: Curve>(k: C::Scalar) -> nat {
    fadd(C::Scalar::modulus(), k.value(), C::offset())
}


/// The error of a scalar whose bits cannot be laid out: rows that run out
/// fail the synthesis, and a scalar that the bits cannot hold fails the
/// lookup.
pub open spec fn scalar_var_error(c: EccConfig, offset: usize) -> Error {
    if offset + c.sizes.scalar_bits <= usize::MAX {
        Error::TableLookup
    } else {
        Error::Synthesis
    }
}

/// The error of a scalar whose windows cannot be laid out: a scalar that
/// the bits cannot hold fails the lookup, and anything else fails the
/// synthesis.
pub open spec fn scalar_error<S: FieldElement>(value: Option<S>, bits: u16) -> Error {
    if value matches Some(k) && k.value() >= pow2(bits as nat) {
        Error::TableLookup
    } else {
        Error::Synthesis
    }
}

/// The error of a windowed multiplication that cannot be laid out: with as
/// many digits as the table has windows, a digit that its window cannot hold
/// fails the lookup, and anything else fails the synthesis.
pub open spec fn windows_error(digits: Option<Vec<u64>>, table: TableView) -> Error {
    if digits matches Some(d) && d.len() == table.rows.len() && !in_range(
        as_digits(d@),
        table.width,
    ) {
        Error::TableLookup
    } else {
        Error::Synthesis
    }
}
/// The inputs for which `lay_scalar_var` gives a layout.
pub open spec fn scalar_var_ok<C: Curve>(
    c: EccConfig,
    value: Option<C::Scalar>,
    offset: usize,
) -> bool {
    offset + c.sizes.scalar_bits <= usize::MAX && (value matches Some(k)
        ==> shifted::<C>(k) < pow2(c.sizes.scalar_bits as nat))
}

/// What `lay_scalar_var` states of the layout that it gives.
pub open spec fn scalar_var_laid<C: Curve>(
    c: EccConfig,
    value: Option<C::Scalar>,
    offset: usize,
    l: Laid<EccScalarVar<C>, C::Base>,
) -> bool {
    let n = c.sizes.scalar_bits as nat;
    let bits = match value {
        Some(k) => Some(bits_be(shifted::<C>(k), n)),
        None => None,
    };
    &&& l.rows == n
    &&& l.result.value == value
    &&& (match l.result.bits {
        Some(b) => Some(b@),
        None => None,
    }) == bits
    &&& is_digit_rows(
        l.ops@,
        l.result.k_bits@,
        c.q_scalar_var,
        c.bits,
        offset,
        n,
        match bits {
            Some(b) => Some(
                Seq::new(
                    n,
                    |i: int|
                        if b[i] {
                            1nat
                        } else {
                            0nat
                        },
                ),
            ),
            None => None,
        },
    )
}

/// The layout of a scalar for variable-base multiplication: one row for each
/// bit of the scalar plus the curve's offset, most significant first. A sum
/// that does not fit in the bits of a scalar fails the lookup.
pub fn lay_scalar_var<C: Curve>(c: &EccConfig, value: Option<C::Scalar>, offset: usize) -> (r:
    Result<Laid<EccScalarVar<C>, C::Base>, Error>)
    ensures
        r is Ok <==> scalar_var_ok::<C>(*c, value, offset),
        r matches Err(e) ==> e == scalar_var_error(*c, offset),
        r matches Ok(l) ==> scalar_var_laid::<C>(*c, value, offset, l),
{
    let n = c.sizes.scalar_bits;
    if offset > usize::MAX - (n as usize) {
        return Err(Error::Synthesis);
    }
    let bits = match value {
        Some(k) => match decompose_bits(&k.plus(&C::scalar_offset()), n) {
            Ok(b) => Some(b),
            Err(e) => {
                return Err(e);
            },
        },
        None => None,
    };
    let digits = match &bits {
        Some(b) => Some(bits_as_digits(b)),
        None => None,
    };
    let (k_bits, ops) = lay_digits(c.q_scalar_var, c.bits, offset, n as usize, &digits);
    proof {
        if bits is Some {
            let b = bits.unwrap()@;
            assert(as_digits(digits.unwrap()@) =~= Seq::new(
                n as nat,
                |i: int|
                    if b[i] {
                        1nat
                    } else {
                        0nat
                    },
            ));
        }
    }
    Ok(Laid { result: EccScalarVar { value, bits, k_bits }, ops, rows: n as usize })
}

/// The inputs for which `lay_scalar_fixed` gives a layout.
pub open spec fn scalar_fixed_ok<C: Curve>(
    c: EccConfig,
    value: Option<C::Scalar>,
    offset: usize,
) -> bool {
    offset + window_count(
        c.sizes.scalar_bits as nat,
        c.sizes.window_width as nat,
    ) <= usize::MAX && (value matches Some(k) ==> k.value() < pow2(
        c.sizes.scalar_bits as nat,
    ))
}

/// What `lay_scalar_fixed` states of the layout that it gives.
pub open spec fn scalar_fixed_laid<C: Curve>(
    c: EccConfig,
    value: Option<C::Scalar>,
    offset: usize,
    l: Laid<EccScalarFixed<C>, C::Base>,
) -> bool {
    let w = c.sizes.window_width as nat;
    let n = window_count(c.sizes.scalar_bits as nat, w);
    let digits = match value {
        Some(k) => Some(windows(k.value(), w, n)),
        None => None,
    };
    &&& l.rows == n
    &&& l.result.value == value
    &&& (match l.result.digits {
        Some(d) => Some(as_digits(d@)),
        None => None,
    }) == digits
    &&& is_digit_rows(l.ops@, l.result.k_bits@, c.q_scalar_fixed, c.bits, offset, n, digits)
}

/// The layout of a full-width scalar for fixed-base multiplication: one row
/// for each window, least significant first. A scalar that does not fit in
/// the bits of a scalar fails the lookup.
pub fn lay_scalar_fixed<C: Curve>(c: &EccConfig, value: Option<C::Scalar>, offset: usize) -> (r:
    Result<Laid<EccScalarFixed<C>, C::Base>, Error>)
    requires
        0 < c.sizes.window_width < 64,
    ensures
        r is Ok <==> scalar_fixed_ok::<C>(*c, value, offset),
        r matches Err(e) ==> e == scalar_error(value, c.sizes.scalar_bits),
        r matches Ok(l) ==> scalar_fixed_laid::<C>(*c, value, offset, l),
{
    let (digits, n) = match windows_or_count(&value, c.sizes.scalar_bits, c.sizes.window_width) {
        Ok(found) => found,
        Err(e) => {
            return Err(e);
        },
    };
    if offset > usize::MAX - n {
        return Err(Error::Synthesis);
    }
    let (k_bits, ops) = lay_digits(c.q_scalar_fixed, c.bits, offset, n, &digits);
    Ok(Laid { result: EccScalarFixed { value, digits, k_bits }, ops, rows: n })
}

/// The windows of a scalar where it is known, and their number in any case.
fn windows_or_count<S: FieldElement>(value: &Option<S>, num_bits: u16, width: u8) -> (r: Result<
    (Option<Vec<u64>>, usize),
    Error,
>)
    requires
        0 < width < 64,
    ensures
        r is Ok <==> (value matches Some(k) ==> k.value() < pow2(num_bits as nat)),
        r matches Err(e) ==> e == Error::TableLookup,
        r matches Ok((digits, n)) ==> n == window_count(num_bits as nat, width as nat) && (
        match digits {
            Some(d) => Some(as_digits(d@)),
            None => None,
        }) == (match value {
            Some(k) => Some(windows(k.value(), width as nat, n as nat)),
            None => None,
        }) && (digits matches Some(d) ==> d.len() == n),
{
    proof {
        let total = num_bits as int + width as int - 1;
        let q = total / (width as int);
        vstd::arithmetic::div_mod::lemma_fundamental_div_mod(total, width as int);
        assert(0 <= q <= num_bits) by (nonlinear_arith)
            requires
                total == (width as int) * q + total % (width as int),
                0 <= total % (width as int) < width,
                total == num_bits as int + width as int - 1,
                width >= 1,
                num_bits >= 0,
        ;
    }
    let n: usize = ((num_bits as usize) + (width as usize) - 1) / (width as usize);
    match value {
        None => Ok((None, n)),
        Some(k) => match decompose_windows(k, num_bits, width) {
            Ok(d) => {
                proof {
                    assert(as_digits(d@).len() == d@.len());
                }
                Ok((Some(d), n))
            },
            Err(e) => Err(e),
        },
    }
}

/// The inputs for which `lay_scalar_fixed_short` gives a layout.
pub open spec fn scalar_fixed_short_ok<C: Curve>(
    c: EccConfig,
    magnitude: Option<C::Scalar>,
    sign: Option<bool>,
    offset: usize,
) -> bool {
    offset + window_count(
        c.sizes.short_bits as nat,
        c.sizes.window_width as nat,
    ) < usize::MAX && (magnitude matches Some(k) ==> k.value() < pow2(
        c.sizes.short_bits as nat,
    ))
}

/// What `lay_scalar_fixed_short` states of the layout that it gives.
pub open spec fn scalar_fixed_short_laid<C: Curve>(
    c: EccConfig,
    magnitude: Option<C::Scalar>,
    sign: Option<bool>,
    offset: usize,
    l: Laid<EccScalarFixedShort<C>, C::Base>,
) -> bool {
    let w = c.sizes.window_width as nat;
    let n = window_count(c.sizes.short_bits as nat, w);
    let digits = match magnitude {
        Some(k) => Some(windows(k.value(), w, n)),
        None => None,
    };
    &&& l.rows == n + 1
    &&& l.result.magnitude == magnitude
    &&& l.result.negative == sign
    &&& (match l.result.digits {
        Some(d) => Some(as_digits(d@)),
        None => None,
    }) == digits
    &&& l.result.sign.cell == (Cell { column: c.bits, row: (offset + n) as usize })
    &&& number(l.result.sign) == (match sign {
        Some(s) => Some(if s { 1nat } else { 0nat }),
        None => None,
    })
    &&& l.ops@.len() == 2 * n + 2
    &&& is_digit_rows(
        l.ops@.take(2 * n as int),
        l.result.k_bits@,
        c.q_scalar_fixed,
        c.bits,
        offset,
        n,
        digits,
    )
    &&& l.ops@[2 * n as int] == Op::<C::Base>::Enable(
        c.q_scalar_fixed_short,
        (offset + n) as usize,
    )
    &&& l.ops@[2 * n as int + 1] == Op::Assign(
        c.bits,
        (offset + n) as usize,
        l.result.sign.value,
    )
}

/// The layout of a short signed scalar: one row for each window of the
/// magnitude, least significant first, and one row for the sign. A
/// magnitude that does not fit in the bits of a short scalar fails the
/// lookup.
pub fn lay_scalar_fixed_short<C: Curve>(
    c: &EccConfig,
    magnitude: Option<C::Scalar>,
    sign: Option<bool>,
    offset: usize,
) -> (r: Result<Laid<EccScalarFixedShort<C>, C::Base>, Error>)
    requires
        0 < c.sizes.window_width < 64,
    ensures
        r is Ok <==> scalar_fixed_short_ok::<C>(*c, magnitude, sign, offset),
        r matches Err(e) ==> e == scalar_error(magnitude, c.sizes.short_bits),
        r matches Ok(l) ==> scalar_fixed_short_laid::<C>(*c, magnitude, sign, offset, l),
{
    let (digits, n) = match windows_or_count(&magnitude, c.sizes.short_bits, c.sizes.window_width) {
        Ok(found) => found,
        Err(e) => {
            return Err(e);
        },
    };
    if n == usize::MAX || offset >= usize::MAX - n {
        return Err(Error::Synthesis);
    }
    let (k_bits, mut ops) = lay_digits(c.q_scalar_fixed, c.bits, offset, n, &digits);
    let ghost rows = ops@;
    let value = match sign {
        Some(s) => Some(indicator_value(s)),
        None => None,
    };
    let row = offset + n;
    ops.push(Op::Enable(c.q_scalar_fixed_short, row));
    ops.push(Op::Assign(c.bits, row, value));
    proof {
        assert(ops@.take(2 * n) =~= rows);
    }
    let negative = sign;
    let sign = CellValue { cell: Cell { column: c.bits, row }, value };
    Ok(
        Laid {
            result: EccScalarFixedShort { magnitude, negative, digits, sign, k_bits },
            ops,
            rows: n + 1,
        },
    )
}

/// Adds the steps that copy a witnessed value into a cell.
pub fn push_copy<F: FieldElement>(
    ops: &mut Vec<Op<F>>,
    v: &CellValue<F>,
    column: Column,
    row: usize,
)
    ensures
        final(ops)@ == old(ops)@ + copy_ops(*v, column, row),
        expects(final(ops)@) == expects(old(ops)@) + e_copy(v.cell, number(*v), column, row),
        final(ops)@.len() > old(ops)@.len(),
        old(ops)@.len() > 0 ==> final(ops)@[0] == old(ops)@[0],
{
    ops.push(Op::Assign(column, row, v.value));
    ops.push(Op::Copy(v.cell, Cell { column, row }));
    proof {
        assert(final(ops)@ =~= old(ops)@ + copy_ops(*v, column, row));
        assert(expects(final(ops)@) =~= expects(old(ops)@) + e_copy(
            v.cell,
            number(*v),
            column,
            row,
        ));
    }
}

/// The bits of the scalar and the base are known, and there is a bit for
/// each witnessed bit.
pub open spec fn mul_inputs<C: Curve>(scalar: EccScalarVar<C>, base: EccPoint<C::Base>) -> Option<
    (Seq<bool>, Pt),
> {
    match (scalar.bits, base.known()) {
        (Some(b), Some(t)) => Some((b@, t)),
        _ => None,
    }
}

/// The bits that the ladder takes by chords: all but the last two.
pub open spec fn chord_bits(bits: Seq<bool>) -> Seq<bool> {
    if bits.len() >= 2 {
        bits.drop_last().take(bits.len() - 2)
    } else {
        Seq::empty()
    }
}

/// The abscissa of a point, where there is one.
pub open spec fn x_of(p: Option<Pt>) -> Option<nat> {
    match p {
        Some(p) => Some(p.x),
        None => None,
    }
}

/// The ordinate of a point, where there is one.
pub open spec fn y_of(p: Option<Pt>) -> Option<nat> {
    match p {
        Some(p) => Some(p.y),
        None => None,
    }
}

/// What the first row of a variable-base multiplication does: it doubles
/// the base, and copies the double to the next row as the accumulator.
pub open spec fn e_mul_double<F: FieldElement>(
    c: EccConfig,
    base: EccPoint<F>,
    offset: usize,
    t: Option<Pt>,
) -> Seq<Expect> {
    let twice = match t {
        Some(t) => Some(double(F::modulus(), t)),
        None => None,
    };
    let next = (offset + 1) as usize;
    seq![Expect::Enable(c.q_double, offset)] + e_copy_point(base, c.p, offset) + e_place(
        c.a,
        offset,
        twice,
    ) + e_copy(Cell { column: c.a.0, row: offset }, x_of(twice), c.a.0, next) + e_copy(
        Cell { column: c.a.1, row: offset },
        y_of(twice),
        c.a.1,
        next,
    )
}

/// What is common to the rows of a variable-base multiplication: the
/// selector, the kind of row in the fixed column, and the bit.
pub open spec fn e_mul_row<F: FieldElement>(
    c: EccConfig,
    k_bit: CellValue<F>,
    row: usize,
    kind: nat,
) -> Seq<Expect> {
    seq![
        Expect::Enable(c.q_mul, row),
        Expect::Assign(c.fixed_z, row, Some(kind % F::modulus())),
    ] + e_copy(k_bit.cell, number(k_bit), c.bits, row)
}

/// What the row of a step by chords does: with the accumulator already in
/// the columns of `A`, it copies the base, assigns the ordinate of the
/// addend and the two slopes, and assigns the next accumulator to the next
/// row.
pub open spec fn e_mul_step<F: FieldElement>(
    c: EccConfig,
    k_bit: CellValue<F>,
    base: EccPoint<F>,
    row: usize,
    inputs: Option<(Pt, Pt, bool)>,
) -> Seq<Expect> {
    let m = F::modulus();
    e_mul_row(c, k_bit, row, 0) + e_copy(base.x.cell, number(base.x), c.p.0, row) + e_copy(
        base.y.cell,
        number(base.y),
        c.u,
        row,
    ) + seq![
        Expect::Assign(
            c.p.1,
            row,
            match inputs {
                Some((acc, t, bit)) => Some(addend(m, t, bit).y),
                None => None,
            },
        ),
        Expect::Assign(
            c.lambda.0,
            row,
            match inputs {
                Some((acc, t, bit)) => Some(chord_slope(m, acc, addend(m, t, bit))),
                None => None,
            },
        ),
        Expect::Assign(
            c.lambda.1,
            row,
            match inputs {
                Some((acc, t, bit)) => Some(
                    chord_slope(m, acc, add_incomplete(m, acc, addend(m, t, bit))),
                ),
                None => None,
            },
        ),
    ] + e_place(
        c.a,
        (row + 1) as usize,
        match inputs {
            Some((acc, t, bit)) => Some(ladder_step(m, acc, t, bit)),
            None => None,
        },
    )
}

/// What the row that doubles the base and the rows of the first `j` steps
/// by chords do.
pub open spec fn e_chords<F: FieldElement>(
    c: EccConfig,
    k_bits: Seq<CellValue<F>>,
    base: EccPoint<F>,
    offset: usize,
    inputs: Option<(Seq<bool>, Pt)>,
    j: nat,
) -> Seq<Expect>
    decreases j,
{
    if j == 0 {
        e_mul_double(
            c,
            base,
            offset,
            match inputs {
                Some((bits, t)) => Some(t),
                None => None,
            },
        )
    } else {
        e_chords(c, k_bits, base, offset, inputs, (j - 1) as nat) + e_mul_step(
            c,
            k_bits[j - 1],
            base,
            (offset + j) as usize,
            match inputs {
                Some((bits, t)) => Some(
                    (ladder(F::modulus(), t, bits.take(j - 1)), t, bits[j - 1]),
                ),
                None => None,
            },
        )
    }
}

/// What the first row of the last step does: it ties the addend to the
/// base and the bit and adds it to the accumulator by a complete addition,
/// whose sum goes to the next row.
pub open spec fn e_tied_addition<F: FieldElement>(
    c: EccConfig,
    k_bit: CellValue<F>,
    base: EccPoint<F>,
    row: usize,
    inputs: Option<(Pt, Pt)>,
) -> Seq<Expect> {
    let m = F::modulus();
    e_mul_row(c, k_bit, row, 2) + e_copy(base.x.cell, number(base.x), c.p.0, row) + e_copy(
        base.y.cell,
        number(base.y),
        c.u,
        row,
    ) + seq![
        Expect::Assign(
            c.p.1,
            row,
            match inputs {
                Some((p, a)) => Some(p.y),
                None => None,
            },
        ),
        Expect::Enable(c.q_add_complete, row),
    ] + e_witnesses(c, row, numbers_for(m, inputs)) + e_place(
        c.a,
        (row + 1) as usize,
        match inputs {
            Some((p, a)) => Some(add_complete(m, p, a)),
            None => None,
        },
    )
}

/// What the second row of the last step does: it copies the accumulator
/// from the row before into the columns of `P` and adds it to the sum in
/// the columns of `A` by a complete addition, whose sum goes to the next
/// row.
pub open spec fn e_kept_addition(
    c: EccConfig,
    m: nat,
    row: usize,
    inputs: Option<(Pt, Pt)>,
) -> Seq<Expect> {
    let before = (row - 1) as usize;
    seq![Expect::Enable(c.q_add_complete, row)] + e_copy(
        Cell { column: c.a.0, row: before },
        match inputs {
            Some((a, q)) => Some(a.x),
            None => None,
        },
        c.p.0,
        row,
    ) + e_copy(
        Cell { column: c.a.1, row: before },
        match inputs {
            Some((a, q)) => Some(a.y),
            None => None,
        },
        c.p.1,
        row,
    ) + e_witnesses(c, row, numbers_for(m, inputs)) + e_place(
        c.a,
        (row + 1) as usize,
        match inputs {
            Some((a, q)) => Some(add_complete(m, a, q)),
            None => None,
        },
    )
}

/// What the two rows of the last step do: the first ties the addend to the
/// base and the bit and adds it to the accumulator by a complete addition;
/// the second copies the accumulator beside their sum and adds it to the
/// sum, whose sum goes to the row after.
pub open spec fn e_last_step<F: FieldElement>(
    c: EccConfig,
    k_bit: CellValue<F>,
    base: EccPoint<F>,
    row: usize,
    inputs: Option<(Pt, Pt)>,
) -> Seq<Expect> {
    let m = F::modulus();
    e_tied_addition(c, k_bit, base, row, inputs) + e_kept_addition(
        c,
        m,
        (row + 1) as usize,
        match inputs {
            Some((p, a)) => Some((a, add_complete(m, p, a))),
            None => None,
        },
    )
}

/// What the row of the last addition does: it ties the operand to the base
/// and the last bit and adds it to the accumulator by a complete addition,
/// whose sum, the product, goes to the next row.
pub open spec fn e_correction<F: FieldElement>(
    c: EccConfig,
    k_bit: CellValue<F>,
    base: EccPoint<F>,
    row: usize,
    inputs: Option<(Pt, Pt)>,
) -> Seq<Expect> {
    let m = F::modulus();
    e_mul_row(c, k_bit, row, 1) + e_copy(base.y.cell, number(base.y), c.u, row) + e_copy(
        base.x.cell,
        number(base.x),
        c.lambda.1,
        row,
    ) + seq![Expect::Enable(c.q_add_complete, row)] + e_place(
        c.p,
        row,
        match inputs {
            Some((s, a)) => Some(s),
            None => None,
        },
    ) + e_witnesses(c, row, numbers_for(m, inputs)) + e_place(
        c.a,
        (row + 1) as usize,
        match inputs {
            Some((s, a)) => Some(add_complete(m, s, a)),
            None => None,
        },
    )
}

/// What all rows of a variable-base multiplication do.
pub open spec fn e_mul<F: FieldElement>(
    c: EccConfig,
    k_bits: Seq<CellValue<F>>,
    base: EccPoint<F>,
    offset: usize,
    inputs: Option<(Seq<bool>, Pt)>,
) -> Seq<Expect> {
    let m = F::modulus();
    let n = k_bits.len();
    let chords = e_chords(
        c,
        k_bits,
        base,
        offset,
        match inputs {
            Some((bits, t)) => Some((chord_bits(bits), t)),
            None => None,
        },
        if n >= 2 {
            (n - 2) as nat
        } else {
            0
        },
    );
    let steps = if n >= 2 {
        chords + e_last_step(
            c,
            k_bits[n - 2],
            base,
            (offset + n - 1) as usize,
            match inputs {
                Some((bits, t)) => Some(
                    (addend(m, t, bits[n - 2]), ladder(m, t, chord_bits(bits))),
                ),
                None => None,
            },
        )
    } else {
        chords
    };
    steps + e_correction(
        c,
        k_bits[n - 1],
        base,
        (offset + mul_rows(n) - 2) as usize,
        match inputs {
            Some((bits, t)) => Some(
                (correction(m, t, bits.last()), ladder_end(m, t, bits.drop_last())),
            ),
            None => None,
        },
    )
}

/// Adds what is common to the rows of a variable-base multiplication.
fn push_mul_row<F: FieldElement>(
    ops: &mut Vec<Op<F>>,
    c: &EccConfig,
    k_bit: &CellValue<F>,
    row: usize,
    kind: u64,
)
    ensures
        expects(final(ops)@) == expects(old(ops)@) + e_mul_row(*c, *k_bit, row, kind as nat),
{
    let ghost done = expects(ops@);
    push_op(ops, Op::Enable(c.q_mul, row));
    push_op(ops, Op::Assign(c.fixed_z, row, Some(F::from_u64(kind))));
    push_copy(ops, k_bit, c.bits, row);
    proof {
        assert(expects(ops@) =~= done + e_mul_row(*c, *k_bit, row, kind as nat));
    }
}

/// Adds the row of a step by chords, and gives the next accumulator.
fn push_step<F: BaseField>(
    ops: &mut Vec<Op<F>>,
    c: &EccConfig,
    k_bit: &CellValue<F>,
    base: &EccPoint<F>,
    row: usize,
    inputs: Option<(Affine<F>, Affine<F>, Affine<F>, bool)>,
) -> (r: Result<Option<Affine<F>>, Error>)
    requires
        row < usize::MAX,
        inputs matches Some((acc, t, minus, bit)) ==> minus@ == crate::ecc::curve::negate(
            F::modulus(),
            t@,
        ),
    ensures
        r is Ok <==> (inputs matches Some((acc, t, minus, bit)) ==> step_defined(
            F::modulus(),
            acc@,
            t@,
            bit,
        )),
        r matches Err(e) ==> e == Error::Synthesis,
        r matches Ok(next) ==> {
            &&& next is Some <==> inputs is Some
            &&& inputs matches Some((acc, t, minus, bit)) ==> next.unwrap()@ == ladder_step(
                F::modulus(),
                acc@,
                t@,
                bit,
            )
            &&& expects(final(ops)@) == expects(old(ops)@) + e_mul_step(
                *c,
                *k_bit,
                *base,
                row,
                match inputs {
                    Some((acc, t, minus, bit)) => Some((acc@, t@, bit)),
                    None => None,
                },
            )
        },
{
    let ghost done = expects(ops@);
    let step = match inputs {
        Some((a, t, minus, bit)) => {
            let p = if bit {
                t
            } else {
                minus
            };
            let l1 = match chord(&a, &p) {
                Some(l) => l,
                None => {
                    return Err(Error::Synthesis);
                },
            };
            let inner = line_sum(&l1, &a, &p);
            let l2 = match chord(&a, &inner) {
                Some(l) => l,
                None => {
                    return Err(Error::Synthesis);
                },
            };
            Some((p, l1, l2, line_sum(&l2, &a, &inner)))
        },
        None => None,
    };
    let (y, l1, l2, next) = match step {
        Some((p, l1, l2, next)) => (Some(p.y), Some(l1), Some(l2), Some(next)),
        None => (None, None, None, None),
    };
    push_mul_row(ops, c, k_bit, row, 0);
    push_copy(ops, &base.x, c.p.0, row);
    push_copy(ops, &base.y, c.u, row);
    push_op(ops, Op::Assign(c.p.1, row, y));
    push_op(ops, Op::Assign(c.lambda.0, row, l1));
    push_op(ops, Op::Assign(c.lambda.1, row, l2));
    let _ = push_place(ops, c.a, row + 1, next);
    proof {
        assert(expects(ops@) =~= done + e_mul_step(
            *c,
            *k_bit,
            *base,
            row,
            match inputs {
                Some((acc, t, minus, bit)) => Some((acc@, t@, bit)),
                None => None,
            },
        ));
    }
    Ok(next)
}

/// The rows that double the base and take the steps of the ladder by
/// chords, with the base, its inverse and the accumulator after them where
/// they are known.
fn lay_chords<C: Curve>(
    c: &EccConfig,
    scalar: &EccScalarVar<C>,
    base: &EccPoint<C::Base>,
    offset: usize,
) -> (r: Result<
    (Option<(Affine<C::Base>, Affine<C::Base>)>, Option<Affine<C::Base>>, Vec<Op<C::Base>>),
    Error,
>)
    requires
        0 < scalar.k_bits.len() < usize::MAX - 2,
        offset + scalar.k_bits.len() + 3 <= usize::MAX,
        scalar.bits matches Some(b) ==> b.len() == scalar.k_bits.len(),
    ensures
        r is Ok <==> (mul_inputs(*scalar, *base) matches Some((bits, t)) ==> ladder_defined(
            C::Base::modulus(),
            t,
            chord_bits(bits),
        )),
        r matches Err(e) ==> e == Error::Synthesis,
        r matches Ok((known, acc, ops)) ==> {
            &&& known is Some <==> mul_inputs(*scalar, *base) is Some
            &&& acc is Some <==> known is Some
            &&& known matches Some((t, minus)) ==> Some(t@) == base.known() && minus@
                == crate::ecc::curve::negate(C::Base::modulus(), t@) && acc.unwrap()@ == ladder(
                C::Base::modulus(),
                t@,
                chord_bits(scalar.bits.unwrap()@),
            )
            &&& expects(ops@) == e_chords(
                *c,
                scalar.k_bits@,
                *base,
                offset,
                match mul_inputs(*scalar, *base) {
                    Some((bits, t)) => Some((chord_bits(bits), t)),
                    None => None,
                },
                if scalar.k_bits.len() >= 2 {
                    (scalar.k_bits.len() - 2) as nat
                } else {
                    0
                },
            )
        },
{
    let ghost m = C::Base::modulus();
    let n = scalar.k_bits.len();
    let ghost steps = if scalar.bits is Some {
        chord_bits(scalar.bits.unwrap()@)
    } else {
        Seq::empty()
    };
    let ghost inputs = match mul_inputs(*scalar, *base) {
        Some((bits, t)) => Some((chord_bits(bits), t)),
        None => None,
    };
    // the base and its inverse, where known
    let known: Option<(Affine<C::Base>, Affine<C::Base>)> = match (&scalar.bits, base.point()) {
        (Some(_), Some(t)) => Some((t, negate_point(&t))),
        _ => None,
    };
    let mut acc: Option<Affine<C::Base>> = match known {
        Some((t, _)) => match double_point(&t) {
            Some(d) => Some(d),
            None => {
                proof {
                    assert(steps.take(0) =~= Seq::<bool>::empty());
                    lemma_prefix_undefined(m, t@, steps, 0, steps.len() as int);
                    assert(steps.take(steps.len() as int) =~= steps);
                }
                return Err(Error::Synthesis);
            },
        },
        None => None,
    };
    let mut ops: Vec<Op<C::Base>> = Vec::new();
    push_op(&mut ops, Op::Enable(c.q_double, offset));
    push_copy_point(&mut ops, base, c.p, offset);
    let doubled = push_place(&mut ops, c.a, offset, acc);
    // the accumulator of the first step is a copy of the double
    push_copy_point(&mut ops, &doubled, c.a, offset + 1);
    proof {
        assert(steps.take(0) =~= Seq::<bool>::empty());
        assert(expects(ops@) =~= e_chords(*c, scalar.k_bits@, *base, offset, inputs, 0));
    }
    let mut j: usize = 0;
    while j + 2 < n
        invariant
            0 < n < usize::MAX - 2,
            n == scalar.k_bits.len(),
            offset + n + 3 <= usize::MAX,
            j + 2 <= n || j == 0,
            m == C::Base::modulus(),
            scalar.bits matches Some(b) ==> b.len() == n && steps == chord_bits(b@),
            steps.len() == (if n >= 2 {
                n - 2
            } else {
                0
            }) || scalar.bits is None,
            inputs == (match mul_inputs(*scalar, *base) {
                Some((bits, t)) => Some((chord_bits(bits), t)),
                None => None,
            }),
            known is Some <==> mul_inputs(*scalar, *base) is Some,
            known matches Some((t, minus)) ==> Some(t@) == base.known() && minus@
                == crate::ecc::curve::negate(m, t@),
            acc is Some <==> known is Some,
            known matches Some((t, _)) ==> acc.unwrap()@ == ladder(m, t@, steps.take(j as int))
                && ladder_defined(m, t@, steps.take(j as int)),
            expects(ops@) == e_chords(*c, scalar.k_bits@, *base, offset, inputs, j as nat),
        decreases n - j,
    {
        let row = offset + 1 + j;
        let step_inputs = match (known, acc, &scalar.bits) {
            (Some((t, minus)), Some(a), Some(b)) => {
                proof {
                    assert(steps.take(j + 1).drop_last() =~= steps.take(j as int));
                    assert(steps.take(j + 1).last() == b@[j as int]);
                    assert(steps[j as int] == b@[j as int]);
                }
                Some((a, t, minus, b[j]))
            },
            _ => None,
        };
        let ghost done = expects(ops@);
        acc = match push_step(&mut ops, c, &scalar.k_bits[j], base, row, step_inputs) {
            Ok(next) => next,
            Err(e) => {
                proof {
                    let t = known.unwrap().0;
                    lemma_prefix_undefined(m, t@, steps, j + 1, steps.len() as int);
                    assert(steps.take(steps.len() as int) =~= steps);
                }
                return Err(e);
            },
        };
        proof {
            assert(expects(ops@) =~= e_chords(
                *c,
                scalar.k_bits@,
                *base,
                offset,
                inputs,
                (j + 1) as nat,
            ));
        }
        j = j + 1;
    }
    proof {
        if scalar.bits is Some {
            assert(steps.take(steps.len() as int) =~= steps);
        }
        if n < 2 {
            assert(steps.take(0) =~= Seq::<bool>::empty());
        }
    }
    Ok((known, acc, ops))
}

/// The inputs for which `lay_mul` gives a layout.
pub open spec fn mul_ok<C: Curve>(
    c: EccConfig,
    scalar: EccScalarVar<C>,
    base: EccPoint<C::Base>,
    offset: usize,
) -> bool {
    &&& scalar.k_bits.len() > 0
    &&& offset + scalar.k_bits.len() + 3 <= usize::MAX
    &&& (scalar.bits matches Some(b) ==> b.len() == scalar.k_bits.len())
    &&& (mul_inputs(scalar, base) matches Some((bits, t)) ==> mul_defined(
        C::Base::modulus(),
        t,
        bits,
    ))
}

/// The number of rows of a variable-base multiplication by a scalar of `n`
/// bits: a row that doubles the base, a row for each step by chords, two
/// rows for the last step, a row for the last addition and a row for the
/// product.
pub open spec fn mul_rows(n: nat) -> nat {
    if n == 1 {
        3
    } else {
        n + 3
    }
}

/// What `lay_mul` states of the layout that it gives.
pub open spec fn mul_laid<C: Curve>(
    c: EccConfig,
    scalar: EccScalarVar<C>,
    base: EccPoint<C::Base>,
    offset: usize,
    l: Laid<EccPoint<C::Base>, C::Base>,
) -> bool {
    let rows = mul_rows(scalar.k_bits.len() as nat);
    &&& l.rows == rows
    &&& l.result.known() == (match mul_inputs(scalar, base) {
        Some((bits, t)) => Some(mul_var(C::Base::modulus(), t, bits)),
        None => None,
    })
    &&& l.result.x.cell == (Cell { column: c.a.0, row: (offset + rows - 1) as usize })
    &&& l.result.y.cell == (Cell { column: c.a.1, row: (offset + rows - 1) as usize })
    &&& expects(l.ops@) == e_mul(c, scalar.k_bits@, base, offset, mul_inputs(scalar, base))
}

/// The rows of a variable-base multiplication are the rows of its chords,
/// of its last step where it has one, and of its last addition.
proof fn lemma_e_mul<F: FieldElement>(
    c: EccConfig,
    k_bits: Seq<CellValue<F>>,
    base: EccPoint<F>,
    offset: usize,
    inputs: Option<(Seq<bool>, Pt)>,
    chords: Seq<Expect>,
    all: Seq<Expect>,
)
    requires
        k_bits.len() > 0,
        chords == e_chords(
            c,
            k_bits,
            base,
            offset,
            match inputs {
                Some((bits, t)) => Some((chord_bits(bits), t)),
                None => None,
            },
            if k_bits.len() >= 2 {
                (k_bits.len() - 2) as nat
            } else {
                0
            },
        ),
        all == (if k_bits.len() >= 2 {
            chords + e_last_step(
                c,
                k_bits[k_bits.len() - 2],
                base,
                (offset + k_bits.len() - 1) as usize,
                match inputs {
                    Some((bits, t)) => Some(
                        (
                            addend(F::modulus(), t, bits[k_bits.len() - 2]),
                            ladder(F::modulus(), t, chord_bits(bits)),
                        ),
                    ),
                    None => None,
                },
            )
        } else {
            chords
        }) + e_correction(
            c,
            k_bits[k_bits.len() - 1],
            base,
            (offset + mul_rows(k_bits.len()) - 2) as usize,
            match inputs {
                Some((bits, t)) => Some(
                    (
                        correction(F::modulus(), t, bits.last()),
                        ladder_end(F::modulus(), t, bits.drop_last()),
                    ),
                ),
                None => None,
            },
        ),
    ensures
        all == e_mul(c, k_bits, base, offset, inputs),
{
}

/// The layout of a variable-base multiplication: a row that doubles the
/// base, a row for each step of the ladder by chords, two rows for its last
/// step, a row for the last complete addition, and the product in the
/// columns of `A` on the row after it. The rows hold the same cells whatever
/// the bits are.
#[verifier::rlimit(80)]
pub fn lay_mul<C: Curve>(
    c: &EccConfig,
    scalar: &EccScalarVar<C>,
    base: &EccPoint<C::Base>,
    offset: usize,
) -> (r: Result<Laid<EccPoint<C::Base>, C::Base>, Error>)
    ensures
        r is Ok <==> mul_ok::<C>(*c, *scalar, *base, offset),
        r matches Err(e) ==> e == Error::Synthesis,
        r matches Ok(l) ==> mul_laid::<C>(*c, *scalar, *base, offset, l),
{
    let ghost m = C::Base::modulus();
    let n = scalar.k_bits.len();
    if n == 0 || n >= usize::MAX - 2 || offset > usize::MAX - (n + 3) {
        return Err(Error::Synthesis);
    }
    match &scalar.bits {
        Some(b) => {
            if b.len() != n {
                return Err(Error::Synthesis);
            }
        },
        None => {},
    }
    let ghost steps = if scalar.bits is Some {
        scalar.bits.unwrap()@.drop_last()
    } else {
        Seq::empty()
    };
    let (known, start, mut ops) = match lay_chords::<C>(c, scalar, base, offset) {
        Ok(found) => found,
        Err(e) => {
            proof {
                if n >= 2 {
                    assert(steps.take(n - 2) =~= steps.drop_last());
                } else {
                    assert(steps =~= Seq::<bool>::empty());
                    assert(steps.take(0) =~= steps);
                }
            }
            return Err(e);
        },
    };
    let mut acc = start;
    let ghost chords = expects(ops@);
    let ghost given = mul_inputs(*scalar, *base);
    let mut row = offset + 1;
    if n >= 2 {
        row = offset + n - 1;
        let inputs = match (known, acc, &scalar.bits) {
            (Some((t, minus)), Some(a), Some(b)) => {
                proof {
                    assert(steps.take(n - 2) =~= steps.drop_last());
                    assert(steps.last() == b@[n - 2]);
                }
                Some((if b[n - 2] {
                    t
                } else {
                    minus
                }, a))
            },
            _ => None,
        };
        let ghost last_inputs = match given {
            Some((bits, t)) => Some((addend(m, t, bits[n - 2]), ladder(m, t, chord_bits(bits)))),
            None => None,
        };
        proof {
            assert(last_inputs == (match inputs {
                Some((p, a)) => Some((p@, a@)),
                None => None,
            }));
        }
        acc = match push_last_step(&mut ops, c, &scalar.k_bits[n - 2], base, row, inputs) {
            Ok(next) => next,
            Err(e) => {
                return Err(e);
            },
        };
        proof {
            assert(expects(ops@) == chords + e_last_step(
                *c,
                scalar.k_bits@[n - 2],
                *base,
                (offset + n - 1) as usize,
                last_inputs,
            ));
        }
        row = row + 2;
    } else {
        proof {
            assert(steps =~= Seq::<bool>::empty());
        }
    }
    let ghost before = expects(ops@);
    let inputs = match (known, acc, &scalar.bits) {
        (Some((t, _)), Some(a), Some(b)) => Some((correction_point(&t, b[n - 1]), a)),
        _ => None,
    };
    let ghost end_inputs = match given {
        Some((bits, t)) => Some((correction(m, t, bits.last()), ladder_end(m, t, bits.drop_last()))),
        None => None,
    };
    proof {
        assert(end_inputs == (match inputs {
            Some((s, a)) => Some((s@, a@)),
            None => None,
        }));
        assert(row == offset + mul_rows(n as nat) - 2);
    }
    let result = match push_correction(&mut ops, c, &scalar.k_bits[n - 1], base, row, inputs) {
        Ok(p) => p,
        Err(e) => {
            return Err(e);
        },
    };
    proof {
        assert(expects(ops@) == before + e_correction(
            *c,
            scalar.k_bits@[n - 1],
            *base,
            row,
            end_inputs,
        ));
        lemma_e_mul(*c, scalar.k_bits@, *base, offset, given, chords, expects(ops@));
    }
    Ok(Laid { result, ops, rows: row + 2 - offset })
}

/// Adds the first row of the last step of the ladder, and gives the sum of
/// the addend and the accumulator.
fn push_tied_addition<F: BaseField>(
    ops: &mut Vec<Op<F>>,
    c: &EccConfig,
    bit: &CellValue<F>,
    base: &EccPoint<F>,
    row: usize,
    inputs: Option<(Affine<F>, Affine<F>)>,
) -> (r: Result<Option<Affine<F>>, Error>)
    requires
        row + 1 <= usize::MAX,
    ensures
        r is Ok <==> (inputs matches Some((p, a)) ==> !no_complete_sum(F::modulus(), p@, a@)),
        r matches Err(e) ==> e == Error::Synthesis,
        r matches Ok(out) ==> (out is Some <==> inputs is Some) && (inputs matches Some((p, a))
            ==> out.unwrap()@ == add_complete(F::modulus(), p@, a@)) && expects(final(ops)@)
            == expects(old(ops)@) + e_tied_addition(
            *c,
            *bit,
            *base,
            row,
            match inputs {
                Some((p, a)) => Some((p@, a@)),
                None => None,
            },
        ),
{
    let ghost done = expects(ops@);
    let ghost spec_inputs = match inputs {
        Some((p, a)) => Some((p@, a@)),
        None => None,
    };
    let witness = match inputs {
        Some((p, a)) => match add_complete_points(&p, &a) {
            Some(w) => Some((p, w)),
            None => {
                return Err(Error::Synthesis);
            },
        },
        None => None,
    };
    let (addend_y, first) = match witness {
        Some((p, w)) => (Some(p.y), Some(w)),
        None => (None, None),
    };
    push_mul_row(ops, c, bit, row, 2);
    push_copy(ops, &base.x, c.p.0, row);
    push_copy(ops, &base.y, c.u, row);
    push_op(ops, Op::Assign(c.p.1, row, addend_y));
    push_op(ops, Op::Enable(c.q_add_complete, row));
    proof {
        assert(witness_values(first) =~= numbers_for(F::modulus(), spec_inputs));
    }
    push_witnesses(ops, c, row, &first);
    let sum = match first {
        Some(w) => Some(w.sum),
        None => None,
    };
    let _ = push_place(ops, c.a, row + 1, sum);
    proof {
        assert(expects(ops@) =~= done + e_tied_addition(*c, *bit, *base, row, spec_inputs));
    }
    Ok(sum)
}

/// Adds the second row of the last step of the ladder, and gives the sum
/// of the accumulator and the sum of the row before.
fn push_kept_addition<F: BaseField>(
    ops: &mut Vec<Op<F>>,
    c: &EccConfig,
    row: usize,
    inputs: Option<(Affine<F>, Affine<F>)>,
) -> (r: Result<Option<Affine<F>>, Error>)
    requires
        0 < row < usize::MAX,
    ensures
        r is Ok <==> (inputs matches Some((a, q)) ==> !no_complete_sum(F::modulus(), a@, q@)),
        r matches Err(e) ==> e == Error::Synthesis,
        r matches Ok(out) ==> (out is Some <==> inputs is Some) && (inputs matches Some((a, q))
            ==> out.unwrap()@ == add_complete(F::modulus(), a@, q@)) && expects(final(ops)@)
            == expects(old(ops)@) + e_kept_addition(
            *c,
            F::modulus(),
            row,
            match inputs {
                Some((a, q)) => Some((a@, q@)),
                None => None,
            },
        ),
{
    let ghost done = expects(ops@);
    let ghost spec_inputs = match inputs {
        Some((a, q)) => Some((a@, q@)),
        None => None,
    };
    let witness = match inputs {
        Some((a, q)) => match add_complete_points(&a, &q) {
            Some(w) => Some((a, w)),
            None => {
                return Err(Error::Synthesis);
            },
        },
        None => None,
    };
    let (held, second) = match witness {
        Some((a, w)) => (Some(a), Some(w)),
        None => (None, None),
    };
    let kept = placed_at(c.a, row - 1, held);
    push_op(ops, Op::Enable(c.q_add_complete, row));
    push_copy_point(ops, &kept, c.p, row);
    proof {
        assert(witness_values(second) =~= numbers_for(F::modulus(), spec_inputs));
    }
    push_witnesses(ops, c, row, &second);
    let next = match second {
        Some(w) => Some(w.sum),
        None => None,
    };
    let _ = push_place(ops, c.a, row + 1, next);
    proof {
        assert(expects(ops@) =~= done + e_kept_addition(*c, F::modulus(), row, spec_inputs));
    }
    Ok(next)
}

/// Adds the two rows of the last step of the ladder: the addend, tied to
/// the base and the bit, is added to the accumulator, and the accumulator,
/// copied beside their sum, is added to it. Gives the new accumulator,
/// which is assigned to the columns of `A` two rows on.
fn push_last_step<F: BaseField>(
    ops: &mut Vec<Op<F>>,
    c: &EccConfig,
    bit: &CellValue<F>,
    base: &EccPoint<F>,
    row: usize,
    inputs: Option<(Affine<F>, Affine<F>)>,
) -> (r: Result<Option<Affine<F>>, Error>)
    requires
        row + 2 <= usize::MAX,
    ensures
        r is Ok <==> (inputs matches Some((p, a)) ==> !no_complete_sum(F::modulus(), p@, a@)
            && !no_complete_sum(F::modulus(), a@, add_complete(F::modulus(), p@, a@))),
        r matches Err(e) ==> e == Error::Synthesis,
        r matches Ok(out) ==> (out is Some <==> inputs is Some) && (inputs matches Some((p, a))
            ==> out.unwrap()@ == add_complete(
            F::modulus(),
            a@,
            add_complete(F::modulus(), p@, a@),
        )) && expects(final(ops)@) == expects(old(ops)@) + e_last_step(
            *c,
            *bit,
            *base,
            row,
            match inputs {
                Some((p, a)) => Some((p@, a@)),
                None => None,
            },
        ),
{
    let ghost done = expects(ops@);
    let inner = match push_tied_addition(ops, c, bit, base, row, inputs) {
        Ok(sum) => sum,
        Err(e) => {
            return Err(e);
        },
    };
    let second = match (inputs, inner) {
        (Some((_, a)), Some(q)) => Some((a, q)),
        _ => None,
    };
    let next = match push_kept_addition(ops, c, row + 1, second) {
        Ok(sum) => sum,
        Err(e) => {
            return Err(e);
        },
    };
    proof {
        assert(expects(ops@) =~= done + e_last_step(
            *c,
            *bit,
            *base,
            row,
            match inputs {
                Some((p, a)) => Some((p@, a@)),
                None => None,
            },
        ));
    }
    Ok(next)
}

/// Adds the row of the last addition of a variable-base multiplication:
/// the operand, tied to the base and the last bit, is added to the
/// accumulator. Gives the product, which is assigned to the columns of `A`
/// on the next row.
fn push_correction<F: BaseField>(
    ops: &mut Vec<Op<F>>,
    c: &EccConfig,
    bit: &CellValue<F>,
    base: &EccPoint<F>,
    row: usize,
    inputs: Option<(Affine<F>, Affine<F>)>,
) -> (r: Result<EccPoint<F>, Error>)
    requires
        row + 1 <= usize::MAX,
    ensures
        r is Ok <==> (inputs matches Some((s, a)) ==> !no_complete_sum(F::modulus(), s@, a@)),
        r matches Err(e) ==> e == Error::Synthesis,
        r matches Ok(p) ==> p.known() == (match inputs {
            Some((s, a)) => Some(add_complete(F::modulus(), s@, a@)),
            None => None,
        }) && p.x.cell == (Cell { column: c.a.0, row: (row + 1) as usize }) && p.y.cell == (Cell {
            column: c.a.1,
            row: (row + 1) as usize,
        }) && expects(final(ops)@) == expects(old(ops)@) + e_correction(
            *c,
            *bit,
            *base,
            row,
            match inputs {
                Some((s, a)) => Some((s@, a@)),
                None => None,
            },
        ),
{
    let ghost done = expects(ops@);
    let ghost spec_inputs = match inputs {
        Some((s, a)) => Some((s@, a@)),
        None => None,
    };
    let witness = match inputs {
        Some((s, a)) => match add_complete_points(&s, &a) {
            Some(w) => Some((s, w)),
            None => {
                return Err(Error::Synthesis);
            },
        },
        None => None,
    };
    push_mul_row(ops, c, bit, row, 1);
    push_copy(ops, &base.y, c.u, row);
    push_copy(ops, &base.x, c.lambda.1, row);
    push_op(ops, Op::Enable(c.q_add_complete, row));
    let (operand, complete) = match witness {
        Some((operand, w)) => (Some(operand), Some(w)),
        None => (None, None),
    };
    let _ = push_place(ops, c.p, row, operand);
    proof {
        assert(witness_values(complete) =~= numbers_for(F::modulus(), spec_inputs));
    }
    push_witnesses(ops, c, row, &complete);
    let sum = match complete {
        Some(w) => Some(w.sum),
        None => None,
    };
    let result = push_place(ops, c.a, row + 1, sum);
    proof {
        assert(expects(ops@) =~= done + e_correction(*c, *bit, *base, row, spec_inputs));
    }
    Ok(result)
}

/// The point with the given coordinates in a pair of columns on a row.
fn placed_at<F: FieldElement>(
    columns: (Column, Column),
    row: usize,
    value: Option<Affine<F>>,
) -> (r:
    EccPoint<F>)
    ensures
        r.x.cell == (Cell { column: columns.0, row }),
        r.y.cell == (Cell { column: columns.1, row }),
        r.coordinates() == value,
        holds(r, value),
{
    let (x, y) = match value {
        Some(p) => (Some(p.x), Some(p.y)),
        None => (None, None),
    };
    EccPoint {
        x: CellValue { cell: Cell { column: columns.0, row }, value: x },
        y: CellValue { cell: Cell { column: columns.1, row }, value: y },
    }
}

/// The nine numbers that a complete addition witnesses for two points, or
/// none where the points are not known.
pub open spec fn numbers_for(m: nat, operands: Option<(Pt, Pt)>) -> Seq<Option<nat>> {
    match operands {
        Some((p, q)) => complete_values(m, p, q),
        None => Seq::new(9, |i: int| None),
    }
}

/// What the first part of the row of a window does: it enables fixed-base
/// multiplication, assigns the window's coefficients and offset, copies the
/// digit, and assigns the point that the digit selects and its root.
pub open spec fn e_window_head<F: FieldElement>(
    c: EccConfig,
    view: RowView,
    k_bit: CellValue<F>,
    row: usize,
    digit: Option<nat>,
) -> Seq<Expect> {
    let m = F::modulus();
    seq![Expect::Enable(c.q_mul_fixed, row)] + Seq::new(
        view.coeffs.len(),
        |i: int| Expect::Assign(c.lagrange_coeffs[i], row, Some(view.coeffs[i])),
    ) + seq![Expect::Assign(c.fixed_z, row, Some(view.z % m))] + e_copy(
        k_bit.cell,
        number(k_bit),
        c.bits,
        row,
    ) + e_place(
        c.p,
        row,
        match digit {
            Some(d) => Some(row_point(m, view, d as int)),
            None => None,
        },
    ) + seq![
        Expect::Assign(
            c.u,
            row,
            match digit {
                Some(d) => Some(view.u[d as int]),
                None => None,
            },
        ),
    ]
}

/// What the second part of the row of window `w` does. The first window
/// copies its point to the next row as the sum; every other window adds its
/// point to the sum by a complete addition, whose sum goes to the next row.
pub open spec fn e_window_tail(
    c: EccConfig,
    m: nat,
    row: usize,
    next: usize,
    first: bool,
    point: Option<Pt>,
    acc: Option<Pt>,
) -> Seq<Expect> {
    if first {
        e_copy(
            Cell { column: c.p.0, row },
            match point {
                Some(p) => Some(p.x),
                None => None,
            },
            c.a.0,
            next,
        ) + e_copy(
            Cell { column: c.p.1, row },
            match point {
                Some(p) => Some(p.y),
                None => None,
            },
            c.a.1,
            next,
        )
    } else {
        seq![Expect::Enable(c.q_add_complete, row)] + e_witnesses(
            c,
            row,
            numbers_for(
                m,
                match (point, acc) {
                    (Some(p), Some(a)) => Some((p, a)),
                    _ => None,
                },
            ),
        ) + e_place(
            c.a,
            next,
            match (point, acc) {
                (Some(p), Some(a)) => Some(add_complete(m, p, a)),
                _ => None,
            },
        )
    }
}

/// What the row of window `w` does.
pub open spec fn e_window_row<F: FieldElement>(
    c: EccConfig,
    t: TableView,
    k_bit: CellValue<F>,
    offset: usize,
    w: int,
    digits: Option<Seq<nat>>,
) -> Seq<Expect> {
    let m = F::modulus();
    let row = (offset + w) as usize;
    e_window_head(
        c,
        t.rows[w],
        k_bit,
        row,
        match digits {
            Some(d) => Some(d[w]),
            None => None,
        },
    ) + e_window_tail(
        c,
        m,
        row,
        (offset + w + 1) as usize,
        w == 0,
        match digits {
            Some(d) => Some(window_point(m, t, d, w)),
            None => None,
        },
        match digits {
            Some(d) => Some(window_sum(m, t, d, w as nat)),
            None => None,
        },
    )
}

/// What the rows of the first `n` windows do, one row after the other.
pub open spec fn e_windows<F: FieldElement>(
    c: EccConfig,
    t: TableView,
    k_bits: Seq<CellValue<F>>,
    offset: usize,
    digits: Option<Seq<nat>>,
    n: nat,
) -> Seq<Expect>
    decreases n,
{
    if n == 0 {
        Seq::empty()
    } else {
        e_windows(c, t, k_bits, offset, digits, (n - 1) as nat) + e_window_row(
            c,
            t,
            k_bits[n - 1],
            offset,
            n - 1,
            digits,
        )
    }
}

/// What the rows of the windows from `w` up to `n` do.
pub open spec fn e_windows_from<F: FieldElement>(
    c: EccConfig,
    t: TableView,
    k_bits: Seq<CellValue<F>>,
    offset: usize,
    digits: Option<Seq<nat>>,
    w: nat,
    n: nat,
) -> Seq<Expect>
    decreases n,
{
    if n <= w {
        Seq::empty()
    } else {
        e_windows_from(c, t, k_bits, offset, digits, w, (n - 1) as nat) + e_window_row(
            c,
            t,
            k_bits[n - 1],
            offset,
            n - 1,
            digits,
        )
    }
}

/// The rows of the first `n` windows are the rows of the first `w`, the row
/// of window `w`, and the rows of the windows after it.
pub proof fn lemma_windows_split<F: FieldElement>(
    c: EccConfig,
    t: TableView,
    k_bits: Seq<CellValue<F>>,
    offset: usize,
    digits: Option<Seq<nat>>,
    w: nat,
    n: nat,
)
    requires
        w < n,
    ensures
        e_windows(c, t, k_bits, offset, digits, n) == e_windows(c, t, k_bits, offset, digits, w)
            + e_window_row(c, t, k_bits[w as int], offset, w as int, digits) + e_windows_from(
            c,
            t,
            k_bits,
            offset,
            digits,
            w + 1,
            n,
        ),
    decreases n,
{
    let first = e_windows(c, t, k_bits, offset, digits, w);
    let row = e_window_row(c, t, k_bits[w as int], offset, w as int, digits);
    if n == w + 1 {
        assert(e_windows(c, t, k_bits, offset, digits, n) =~= first + row + e_windows_from(
            c,
            t,
            k_bits,
            offset,
            digits,
            w + 1,
            n,
        ));
    } else {
        lemma_windows_split(c, t, k_bits, offset, digits, w, (n - 1) as nat);
        let last = e_window_row(c, t, k_bits[n - 1], offset, n - 1, digits);
        let mid = e_windows_from(c, t, k_bits, offset, digits, w + 1, (n - 1) as nat);
        assert(e_windows(c, t, k_bits, offset, digits, n) =~= first + row + (mid + last));
        assert(e_windows_from(c, t, k_bits, offset, digits, w + 1, n) =~= mid + last);
    }
}

/// The digits of a scalar as numbers, where they are known.
pub open spec fn digit_numbers(digits: Option<Vec<u64>>) -> Option<Seq<nat>> {
    match digits {
        Some(d) => Some(as_digits(d@)),
        None => None,
    }
}

/// The inputs for which `lay_windows` gives a layout.
pub open spec fn windows_ok<F: BaseField>(
    c: EccConfig,
    k_bits: Vec<CellValue<F>>,
    digits: Option<Vec<u64>>,
    table: WindowTable<F>,
    offset: usize,
) -> bool {
    &&& k_bits.len() == table@.rows.len()
    &&& c.lagrange_coeffs.len() == pow2(table@.width)
    &&& offset + k_bits.len() + 1 <= usize::MAX
    &&& (digits matches Some(d) ==> mul_fixed_defined(F::modulus(), table@, as_digits(d@)))
}

/// What `lay_windows` states of the layout that it gives.
pub open spec fn windows_laid<F: BaseField>(
    c: EccConfig,
    k_bits: Vec<CellValue<F>>,
    digits: Option<Vec<u64>>,
    table: WindowTable<F>,
    offset: usize,
    l: Laid<EccPoint<F>, F>,
) -> bool {
    &&& l.rows == k_bits.len() + 1
    &&& l.result.known() == (match digits {
        Some(d) => Some(mul_fixed_spec(F::modulus(), table@, as_digits(d@))),
        None => None,
    })
    &&& l.result.x.cell == (Cell { column: c.a.0, row: (offset + k_bits.len()) as usize })
    &&& l.result.y.cell == (Cell { column: c.a.1, row: (offset + k_bits.len()) as usize })
    &&& expects(l.ops@) == e_windows(
        c,
        table@,
        k_bits@,
        offset,
        digit_numbers(digits),
        k_bits.len() as nat,
    )
}

/// The layout of the sum of a table's points for the windows of a scalar:
/// a row for each window with the window's coefficients and offset, the
/// digit, the point that the digit selects and its root; from the second
/// window on the row also holds the complete addition of the point to the
/// sum so far. The sum is in the columns of `A` on the row after the last.
pub fn lay_windows<F: BaseField>(
    c: &EccConfig,
    k_bits: &Vec<CellValue<F>>,
    digits: &Option<Vec<u64>>,
    table: &WindowTable<F>,
    offset: usize,
) -> (r: Result<Laid<EccPoint<F>, F>, Error>)
    ensures
        r is Ok <==> windows_ok(*c, *k_bits, *digits, *table, offset),
        r matches Err(e) ==> e == windows_error(*digits, table@),
        r matches Ok(l) ==> windows_laid(*c, *k_bits, *digits, *table, offset, l),
{
    let ghost m = F::modulus();
    let n = table.num_windows();
    let width = table.width();
    match digits {
        Some(d) => {
            if d.len() != n {
                return Err(Error::Synthesis);
            }
            match check_windows(d, width) {
                Ok(()) => {},
                Err(e) => {
                    return Err(e);
                },
            }
        },
        None => {},
    }
    proof {
        vstd::bits::lemma_u64_pow2_no_overflow(table@.width);
    }
    if k_bits.len() != n || n == usize::MAX || offset > usize::MAX - (n + 1) {
        return Err(Error::Synthesis);
    }
    let size = match table.row(0) {
        Some(first) => first.size(),
        None => {
            return Err(Error::Synthesis);
        },
    };
    if c.lagrange_coeffs.len() != size {
        return Err(Error::Synthesis);
    }
    let ghost ds = match digits {
        Some(d) => as_digits(d@),
        None => Seq::empty(),
    };
    let ghost dn = digit_numbers(*digits);
    let mut ops: Vec<Op<F>> = Vec::new();
    let mut acc: Option<Affine<F>> = None;
    let mut sum = placed_nowhere(c);
    let mut w: usize = 0;
    while w < n
        invariant
            w <= n,
            0 < n < usize::MAX,
            n == table@.rows.len(),
            n == k_bits.len(),
            offset + n + 1 <= usize::MAX,
            m == F::modulus(),
            size == pow2(table@.width),
            c.lagrange_coeffs.len() == size,
            dn == digit_numbers(*digits),
            digits matches Some(d) ==> d.len() == n && ds == as_digits(d@) && in_range(
                ds,
                table@.width,
            ),
            w > 0 ==> (acc is Some <==> digits is Some),
            w > 0 && digits is Some ==> acc.unwrap()@ == window_sum(m, table@, ds, w as nat)
                && sum_defined(m, table@, ds, w as nat),
            w > 0 ==> sum.known() == (match acc {
                Some(a) => Some(a@),
                None => None,
            }) && sum.x.cell == (Cell { column: c.a.0, row: (offset + w) as usize }) && sum.y.cell
                == (Cell { column: c.a.1, row: (offset + w) as usize }),
            expects(ops@) == e_windows(*c, table@, k_bits@, offset, dn, w as nat),
        decreases n - w,
    {
        let row = offset + w;
        let entry = match table.row(w) {
            Some(entry) => entry,
            None => {
                return Err(Error::Synthesis);
            },
        };
        let ghost done = expects(ops@);
        let digit = match digits {
            Some(d) => {
                proof {
                    assert(ds[w as int] == d[w as int] as nat);
                }
                Some(d[w])
            },
            None => None,
        };
        let (point, at_p) = push_window_head(&mut ops, c, entry, &k_bits[w], row, digit);
        let ghost before = acc;
        let (next_acc, next_sum) = match push_window_tail(&mut ops, c, row, w == 0, point, &at_p, acc) {
            Ok(found) => found,
            Err(e) => {
                proof {
                    lemma_windows_undefined(m, table@, ds, (w + 1) as nat, n as nat);
                }
                return Err(e);
            },
        };
        acc = next_acc;
        sum = next_sum;
        proof {
            let want = e_window_row(*c, table@, k_bits@[w as int], offset, w as int, dn);
            assert(expects(ops@) =~= done + want);
        }
        w = w + 1;
    }
    Ok(Laid { result: sum, ops, rows: n + 1 })
}

/// Adds the first part of the row of a window, and gives the point that
/// the digit selects, as a value and as it is placed in the columns of `P`.
fn push_window_head<F: BaseField>(
    ops: &mut Vec<Op<F>>,
    c: &EccConfig,
    entry: &WindowRow<F>,
    k_bit: &CellValue<F>,
    row: usize,
    digit: Option<u64>,
) -> (r: (Option<Affine<F>>, EccPoint<F>))
    requires
        c.lagrange_coeffs.len() == entry@.coeffs.len(),
        entry@.coeffs.len() == entry@.u.len(),
        digit matches Some(d) ==> d < entry@.u.len(),
    ensures
        r.0 is Some <==> digit is Some,
        digit matches Some(d) ==> r.0.unwrap()@ == row_point(F::modulus(), entry@, d as int),
        holds(r.1, r.0),
        r.1.x.cell == (Cell { column: c.p.0, row }),
        r.1.y.cell == (Cell { column: c.p.1, row }),
        expects(final(ops)@) == expects(old(ops)@) + e_window_head(
            *c,
            entry@,
            *k_bit,
            row,
            match digit {
                Some(d) => Some(d as nat),
                None => None,
            },
        ),
{
    let ghost done = expects(ops@);
    let ghost view = entry@;
    let size = entry.size();
    push_op(ops, Op::Enable(c.q_mul_fixed, row));
    let mut i: usize = 0;
    while i < size
        invariant
            i <= size,
            size == view.coeffs.len(),
            c.lagrange_coeffs.len() == size,
            view == entry@,
            expects(ops@) == done + seq![Expect::Enable(c.q_mul_fixed, row)] + Seq::new(
                i as nat,
                |j: int| Expect::Assign(c.lagrange_coeffs[j], row, Some(view.coeffs[j])),
            ),
        decreases size - i,
    {
        push_op(ops, Op::Assign(c.lagrange_coeffs[i], row, entry.coefficient(i)));
        proof {
            assert(expects(ops@) =~= done + seq![Expect::Enable(c.q_mul_fixed, row)] + Seq::new(
                (i + 1) as nat,
                |j: int| Expect::Assign(c.lagrange_coeffs[j], row, Some(view.coeffs[j])),
            ));
        }
        i = i + 1;
    }
    push_op(ops, Op::Assign(c.fixed_z, row, Some(F::from_u64(entry.offset()))));
    push_copy(ops, k_bit, c.bits, row);
    let (point, root) = match digit {
        Some(d) => (entry.point(d), entry.root(d as usize)),
        None => (None, None),
    };
    let at_p = push_place(ops, c.p, row, point);
    push_op(ops, Op::Assign(c.u, row, root));
    proof {
        assert(expects(ops@) =~= done + e_window_head(
            *c,
            view,
            *k_bit,
            row,
            match digit {
                Some(d) => Some(d as nat),
                None => None,
            },
        ));
    }
    (point, at_p)
}

/// Adds the second part of the row of a window, and gives the new sum, as
/// a value and as it is placed in the columns of `A` on the next row.
fn push_window_tail<F: BaseField>(
    ops: &mut Vec<Op<F>>,
    c: &EccConfig,
    row: usize,
    first: bool,
    point: Option<Affine<F>>,
    at_p: &EccPoint<F>,
    acc: Option<Affine<F>>,
) -> (r: Result<(Option<Affine<F>>, EccPoint<F>), Error>)
    requires
        row < usize::MAX,
        holds(*at_p, point),
        at_p.x.cell == (Cell { column: c.p.0, row }),
        at_p.y.cell == (Cell { column: c.p.1, row }),
        !first ==> (acc is Some <==> point is Some),
    ensures
        r is Ok <==> (!first && point is Some ==> !no_complete_sum(
            F::modulus(),
            point.unwrap()@,
            acc.unwrap()@,
        )),
        r matches Err(e) ==> e == Error::Synthesis,
        r matches Ok((next, sum)) ==> {
            &&& next is Some <==> point is Some
            &&& point is Some ==> next.unwrap()@ == (if first {
                point.unwrap()@
            } else {
                add_complete(F::modulus(), point.unwrap()@, acc.unwrap()@)
            })
            &&& sum.known() == (match next {
                Some(a) => Some(a@),
                None => None,
            })
            &&& sum.x.cell == (Cell { column: c.a.0, row: (row + 1) as usize })
            &&& sum.y.cell == (Cell { column: c.a.1, row: (row + 1) as usize })
            &&& expects(final(ops)@) == expects(old(ops)@) + e_window_tail(
                *c,
                F::modulus(),
                row,
                (row + 1) as usize,
                first,
                match point {
                    Some(p) => Some(p@),
                    None => None,
                },
                match acc {
                    Some(a) => Some(a@),
                    None => None,
                },
            )
        },
{
    let ghost done = expects(ops@);
    if first {
        push_copy_point(ops, at_p, c.a, row + 1);
        let sum = EccPoint {
            x: CellValue { cell: Cell { column: c.a.0, row: row + 1 }, value: at_p.x.value },
            y: CellValue { cell: Cell { column: c.a.1, row: row + 1 }, value: at_p.y.value },
        };
        proof {
            assert(expects(ops@) =~= done + e_window_tail(
                *c,
                F::modulus(),
                row,
                (row + 1) as usize,
                first,
                match point {
                    Some(p) => Some(p@),
                    None => None,
                },
                match acc {
                    Some(a) => Some(a@),
                    None => None,
                },
            ));
        }
        Ok((point, sum))
    } else {
        let witness = match (point, acc) {
            (Some(p), Some(a)) => match add_complete_points(&p, &a) {
                Some(s) => Some(s),
                None => {
                    return Err(Error::Synthesis);
                },
            },
            _ => None,
        };
        push_op(ops, Op::Enable(c.q_add_complete, row));
        proof {
            let operands = match (point, acc) {
                (Some(p), Some(a)) => Some((p@, a@)),
                _ => None,
            };
            assert(witness_values(witness) =~= numbers_for(F::modulus(), operands));
        }
        push_witnesses(ops, c, row, &witness);
        let next = match witness {
            Some(s) => Some(s.sum),
            None => None,
        };
        let sum = push_place(ops, c.a, row + 1, next);
        proof {
            assert(expects(ops@) =~= done + e_window_tail(
                *c,
                F::modulus(),
                row,
                (row + 1) as usize,
                first,
                match point {
                    Some(p) => Some(p@),
                    None => None,
                },
                match acc {
                    Some(a) => Some(a@),
                    None => None,
                },
            ));
        }
        Ok((next, sum))
    }
}

/// A point with no values, placed at the first row of the columns of `A`:
/// what stands for the sum of the windows before the first window is laid
/// out.
fn placed_nowhere<F: FieldElement>(c: &EccConfig) -> (r: EccPoint<F>)
    ensures
        r.x == (CellValue::<F> { cell: Cell { column: c.a.0, row: 0 }, value: None }),
        r.y == (CellValue::<F> { cell: Cell { column: c.a.1, row: 0 }, value: None }),
        r.known() is None,
{
    EccPoint {
        x: CellValue { cell: Cell { column: c.a.0, row: 0 }, value: None },
        y: CellValue { cell: Cell { column: c.a.1, row: 0 }, value: None },
    }
}

/// A sum of windows that is undefined on the first windows is undefined on
/// more.
proof fn lemma_windows_undefined(m: nat, t: TableView, digits: Seq<nat>, i: nat, n: nat)
    requires
        i <= n,
        !sum_defined(m, t, digits, i),
    ensures
        !sum_defined(m, t, digits, n),
    decreases n - i,
{
    if i < n {
        lemma_windows_undefined(m, t, digits, i, (n - 1) as nat);
    }
}

/// The inputs for which `lay_mul_fixed` gives a layout.
pub open spec fn mul_fixed_ok<C: Curve>(
    c: EccConfig,
    scalar: EccScalarFixed<C>,
    table: WindowTable<C::Base>,
    offset: usize,
) -> bool {
    &&& scalar.k_bits.len() == table@.rows.len()
    &&& c.lagrange_coeffs.len() == pow2(table@.width)
    &&& offset + scalar.k_bits.len() + 1 <= usize::MAX
    &&& (scalar.digits matches Some(d) ==> mul_fixed_defined(
        C::Base::modulus(),
        table@,
        as_digits(d@),
    ))
}

/// What `lay_mul_fixed` states of the layout that it gives.
pub open spec fn mul_fixed_laid<C: Curve>(
    c: EccConfig,
    scalar: EccScalarFixed<C>,
    table: WindowTable<C::Base>,
    offset: usize,
    l: Laid<EccPoint<C::Base>, C::Base>,
) -> bool {
    &&& l.rows == scalar.k_bits.len() + 1
    &&& l.result.known() == (match scalar.digits {
        Some(d) => Some(mul_fixed_spec(C::Base::modulus(), table@, as_digits(d@))),
        None => None,
    })
    &&& l.result.x.cell == (Cell {
        column: c.a.0,
        row: (offset + scalar.k_bits.len()) as usize,
    })
    &&& l.result.y.cell == (Cell {
        column: c.a.1,
        row: (offset + scalar.k_bits.len()) as usize,
    })
    &&& expects(l.ops@) == e_windows(
        c,
        table@,
        scalar.k_bits@,
        offset,
        digit_numbers(scalar.digits),
        scalar.k_bits.len() as nat,
    )
}

/// The layout of a fixed-base multiplication by a full-width scalar.
pub fn lay_mul_fixed<C: Curve>(
    c: &EccConfig,
    scalar: &EccScalarFixed<C>,
    table: &WindowTable<C::Base>,
    offset: usize,
) -> (r: Result<Laid<EccPoint<C::Base>, C::Base>, Error>)
    ensures
        r is Ok <==> mul_fixed_ok::<C>(*c, *scalar, *table, offset),
        r matches Err(e) ==> e == windows_error(scalar.digits, table@),
        r matches Ok(l) ==> mul_fixed_laid::<C>(*c, *scalar, *table, offset, l),
{
    lay_windows(c, &scalar.k_bits, &scalar.digits, table, offset)
}

/// The sign and the windows of a short scalar are known.
pub open spec fn short_inputs<C: Curve>(scalar: EccScalarFixedShort<C>) -> Option<
    (Seq<nat>, bool),
> {
    match (scalar.digits, scalar.negative) {
        (Some(d), Some(s)) => Some((as_digits(d@), s)),
        _ => None,
    }
}

/// The inputs for which `lay_mul_fixed_short` gives a layout.
pub open spec fn mul_fixed_short_ok<C: Curve>(
    c: EccConfig,
    scalar: EccScalarFixedShort<C>,
    table: WindowTable<C::Base>,
    offset: usize,
) -> bool {
    &&& scalar.k_bits.len() == table@.rows.len()
    &&& c.lagrange_coeffs.len() == pow2(table@.width)
    &&& offset + scalar.k_bits.len() + 1 <= usize::MAX
    &&& (scalar.digits matches Some(d) ==> mul_fixed_defined(
        C::Base::modulus(),
        table@,
        as_digits(d@),
    ))
}

/// What `lay_mul_fixed_short` states of the layout that it gives.
pub open spec fn mul_fixed_short_laid<C: Curve>(
    c: EccConfig,
    scalar: EccScalarFixedShort<C>,
    table: WindowTable<C::Base>,
    offset: usize,
    l: Laid<EccPoint<C::Base>, C::Base>,
) -> bool {
    &&& l.rows == scalar.k_bits.len() + 1
    &&& l.result.known() == (match short_inputs(scalar) {
        Some((d, s)) => Some(
            apply_sign(C::Base::modulus(), mul_fixed_spec(C::Base::modulus(), table@, d), s),
        ),
        None => None,
    })
    &&& l.result.x.cell == (Cell {
        column: c.p.0,
        row: (offset + scalar.k_bits.len()) as usize,
    })
    &&& l.result.y.cell == (Cell {
        column: c.p.1,
        row: (offset + scalar.k_bits.len()) as usize,
    })
    &&& expects(l.ops@) == e_windows(
        c,
        table@,
        scalar.k_bits@,
        offset,
        digit_numbers(scalar.digits),
        scalar.k_bits.len() as nat,
    ) + seq![
        Expect::Enable(c.q_mul_fixed_short, (offset + scalar.k_bits.len()) as usize),
    ] + e_copy(
        scalar.sign.cell,
        number(scalar.sign),
        c.bits,
        (offset + scalar.k_bits.len()) as usize,
    ) + e_place(c.p, (offset + scalar.k_bits.len()) as usize, l.result.known())
}

/// The layout of a fixed-base multiplication by a short signed scalar: the
/// rows of the product by the magnitude, and on the row of that product the
/// sign and the signed product, in the columns of `P`.
pub fn lay_mul_fixed_short<C: Curve>(
    c: &EccConfig,
    scalar: &EccScalarFixedShort<C>,
    table: &WindowTable<C::Base>,
    offset: usize,
) -> (r: Result<Laid<EccPoint<C::Base>, C::Base>, Error>)
    ensures
        r is Ok <==> mul_fixed_short_ok::<C>(*c, *scalar, *table, offset),
        r matches Err(e) ==> e == windows_error(scalar.digits, table@),
        r matches Ok(l) ==> mul_fixed_short_laid::<C>(*c, *scalar, *table, offset, l),
{
    let laid = match lay_windows(c, &scalar.k_bits, &scalar.digits, table, offset) {
        Ok(l) => l,
        Err(e) => {
            return Err(e);
        },
    };
    let row = offset + scalar.k_bits.len();
    let signed = match (laid.result.point(), scalar.negative) {
        (Some(p), Some(s)) => Some(
            if s {
                negate_point(&p)
            } else {
                p
            },
        ),
        _ => None,
    };
    let mut ops = laid.ops;
    let ghost windows = expects(ops@);
    push_op(&mut ops, Op::Enable(c.q_mul_fixed_short, row));
    push_copy(&mut ops, &scalar.sign, c.bits, row);
    let result = push_place(&mut ops, c.p, row, signed);
    proof {
        assert(expects(ops@) =~= windows + seq![Expect::Enable(c.q_mul_fixed_short, row)] + e_copy(
            scalar.sign.cell,
            number(scalar.sign),
            c.bits,
            row,
        ) + e_place(c.p, row, result.known()));
    }
    Ok(Laid { result, ops, rows: laid.rows })
}

} // verus!

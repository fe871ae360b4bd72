//! The rows of a variable-base multiplication satisfy their constraints:
//! once a region has taken the steps of its layout, the polynomials of
//! doubling, of the ladder and of complete addition vanish on its rows.

use crate::circuit::{
    after, at, Expect, expects, flag, laid_out, lemma_expect_all, lemma_expect_in, Op, RegionView,
    step_held,
};
use crate::ecc::add_complete::{complete_values, indicator, no_complete_sum};
use crate::ecc::chip::{CellValue, EccPoint};
use crate::ecc::config::EccConfig;
use crate::ecc::curve::{add_complete, add_incomplete, chord_slope, double, Pt, tangent_slope};
use crate::ecc::gates::{complete_polys, double_polys, mul_polys};
use crate::ecc::layout::{
    chord_bits, e_chords, e_correction, e_kept_addition, e_last_step, e_mul, e_mul_double,
    e_mul_row, e_mul_step, e_tied_addition, e_witnesses, mul_rows, number, numbers_for,
    witness_columns,
};
use crate::ecc::mul::{addend, correction, ladder, ladder_end, ladder_step};
use crate::ecc::satisfy::{
    inverses_exist, lemma_double_vanishes, lemma_mul_last_vanishes, lemma_mul_step_vanishes,
    lemma_mul_tie_vanishes,
};
use crate::ecc::satisfy_rows::{
    cell_number, holds_witnesses, lemma_add_complete_reduced, lemma_complete_cells_satisfied,
    lemma_holds_complete,
};
use crate::field::{
    fadd, FieldElement, finv, fmul, fsub, is_inverse, lemma_eqm_ops, lemma_fmul_zero,
};
use vstd::prelude::*;

verus! {

/// What a witnessed multiplication is given: the cells of the bits hold the
/// bits, and the cells of the base hold the base.
pub open spec fn mul_given<F: FieldElement>(
    k_bits: Seq<CellValue<F>>,
    base: EccPoint<F>,
    bits: Seq<bool>,
    t: Pt,
) -> bool {
    &&& bits.len() == k_bits.len()
    &&& number(base.x) == Some(t.x)
    &&& number(base.y) == Some(t.y)
    &&& t.x < F::modulus()
    &&& t.y < F::modulus()
    &&& forall|j: int| 0 <= j < bits.len() ==> number(#[trigger] k_bits[j]) == Some(indicator(bits[j]))
}

/// The rows of a variable-base multiplication were laid out on the region.
pub open spec fn mul_laid_out<F: FieldElement>(
    c: EccConfig,
    k_bits: Seq<CellValue<F>>,
    base: EccPoint<F>,
    offset: usize,
    bits: Seq<bool>,
    t: Pt,
    ops: Seq<Op<F>>,
    g: RegionView<F>,
) -> bool {
    &&& k_bits.len() > 0
    &&& offset + k_bits.len() + 3 <= usize::MAX
    &&& mul_given(k_bits, base, bits, t)
    &&& expects(ops) == e_mul(c, k_bits, base, offset, Some((bits, t)))
    &&& laid_out(g, ops) is Some
}

/// The number of steps that the ladder takes by chords.
pub open spec fn chord_count(n: nat) -> nat {
    if n >= 2 {
        (n - 2) as nat
    } else {
        0
    }
}

/// What the rows after the chords do: the two rows of the last step, where
/// there is one, and the row of the last addition.
pub open spec fn e_ending<F: FieldElement>(
    c: EccConfig,
    k_bits: Seq<CellValue<F>>,
    base: EccPoint<F>,
    offset: usize,
    bits: Seq<bool>,
    t: Pt,
) -> Seq<Expect> {
    let m = F::modulus();
    let n = k_bits.len();
    let last = e_correction(
        c,
        k_bits[n - 1],
        base,
        (offset + mul_rows(n) - 2) as usize,
        Some((correction(m, t, bits.last()), ladder_end(m, t, bits.drop_last()))),
    );
    if n >= 2 {
        e_last_step(
            c,
            k_bits[n - 2],
            base,
            (offset + n - 1) as usize,
            Some((addend(m, t, bits[n - 2]), ladder(m, t, chord_bits(bits)))),
        ) + last
    } else {
        last
    }
}

/// The rows of a multiplication are the rows of its chords and its ending.
proof fn lemma_mul_parts<F: FieldElement>(
    c: EccConfig,
    k_bits: Seq<CellValue<F>>,
    base: EccPoint<F>,
    offset: usize,
    bits: Seq<bool>,
    t: Pt,
)
    requires
        k_bits.len() > 0,
    ensures
        e_mul(c, k_bits, base, offset, Some((bits, t))) == e_chords(
            c,
            k_bits,
            base,
            offset,
            Some((chord_bits(bits), t)),
            chord_count(k_bits.len()),
        ) + e_ending(c, k_bits, base, offset, bits, t),
{
    let chords = e_chords(
        c,
        k_bits,
        base,
        offset,
        Some((chord_bits(bits), t)),
        chord_count(k_bits.len()),
    );
    assert(e_mul(c, k_bits, base, offset, Some((bits, t))) =~= chords + e_ending(
        c,
        k_bits,
        base,
        offset,
        bits,
        t,
    ));
}

/// What the rows of the steps by chords from `j` up to `n` do.
pub open spec fn e_chords_from<F: FieldElement>(
    c: EccConfig,
    k_bits: Seq<CellValue<F>>,
    base: EccPoint<F>,
    offset: usize,
    inputs: Option<(Seq<bool>, Pt)>,
    j: nat,
    n: nat,
) -> Seq<Expect>
    decreases n,
{
    if n <= j {
        Seq::empty()
    } else {
        e_chords_from(c, k_bits, base, offset, inputs, j, (n - 1) as nat) + e_mul_step(
            c,
            k_bits[n - 1],
            base,
            (offset + n) as usize,
            match inputs {
                Some((bits, t)) => Some(
                    (ladder(F::modulus(), t, bits.take(n - 1)), t, bits[n - 1]),
                ),
                None => None,
            },
        )
    }
}

/// The rows of the first `n` steps are the rows of the first `j`, the row
/// of step `j`, and the rows of the steps after it.
proof fn lemma_chords_split<F: FieldElement>(
    c: EccConfig,
    k_bits: Seq<CellValue<F>>,
    base: EccPoint<F>,
    offset: usize,
    inputs: Option<(Seq<bool>, Pt)>,
    j: nat,
    n: nat,
)
    requires
        j < n,
    ensures
        e_chords(c, k_bits, base, offset, inputs, n) == e_chords(
            c,
            k_bits,
            base,
            offset,
            inputs,
            j,
        ) + e_mul_step(
            c,
            k_bits[j as int],
            base,
            (offset + j + 1) as usize,
            match inputs {
                Some((bits, t)) => Some(
                    (ladder(F::modulus(), t, bits.take(j as int)), t, bits[j as int]),
                ),
                None => None,
            },
        ) + e_chords_from(c, k_bits, base, offset, inputs, j + 1, n),
    decreases n,
{
    let first = e_chords(c, k_bits, base, offset, inputs, j);
    let row = e_mul_step(
        c,
        k_bits[j as int],
        base,
        (offset + j + 1) as usize,
        match inputs {
            Some((bits, t)) => Some(
                (ladder(F::modulus(), t, bits.take(j as int)), t, bits[j as int]),
            ),
            None => None,
        },
    );
    if n == j + 1 {
        assert(e_chords(c, k_bits, base, offset, inputs, n) =~= first + row + e_chords_from(
            c,
            k_bits,
            base,
            offset,
            inputs,
            j + 1,
            n,
        ));
    } else {
        lemma_chords_split(c, k_bits, base, offset, inputs, j, (n - 1) as nat);
        let last = e_mul_step(
            c,
            k_bits[n - 1],
            base,
            (offset + n) as usize,
            match inputs {
                Some((bits, t)) => Some(
                    (ladder(F::modulus(), t, bits.take(n - 1)), t, bits[n - 1]),
                ),
                None => None,
            },
        );
        let mid = e_chords_from(c, k_bits, base, offset, inputs, j + 1, (n - 1) as nat);
        assert(e_chords(c, k_bits, base, offset, inputs, n) =~= first + row + (mid + last));
        assert(e_chords_from(c, k_bits, base, offset, inputs, j + 1, n) =~= mid + last);
    }
}

/// The points of the ladder are reduced.
pub proof fn lemma_ladder_reduced(m: nat, t: Pt, bits: Seq<bool>)
    requires
        m > 0,
        t.x < m && t.y < m,
    ensures
        ladder(m, t, bits).x < m,
        ladder(m, t, bits).y < m,
    decreases bits.len(),
{
    if bits.len() == 0 {
        let l = tangent_slope(m, t);
        lemma_eqm_ops(m, fsub(m, fmul(m, l, l), t.x), t.x);
        lemma_eqm_ops(m, fmul(m, l, fsub(m, t.x, double(m, t).x)), t.y);
    } else {
        let acc = ladder(m, t, bits.drop_last());
        let p = addend(m, t, bits.last());
        let inner = add_incomplete(m, acc, p);
        let l = chord_slope(m, acc, inner);
        let next = ladder_step(m, acc, t, bits.last());
        lemma_eqm_ops(m, fsub(m, fmul(m, l, l), acc.x), inner.x);
        lemma_eqm_ops(m, fmul(m, l, fsub(m, acc.x, next.x)), acc.y);
    }
}

/// The first row of a multiplication, step by step.
proof fn lemma_double_shape<F: FieldElement>(c: EccConfig, base: EccPoint<F>, offset: usize, t: Pt)
    requires
        offset < usize::MAX,
    ensures
        ({
            let row = e_mul_double(c, base, offset, Some(t));
            let twice = double(F::modulus(), t);
            let next = (offset + 1) as usize;
            &&& row.len() == 11
            &&& row[1] == Expect::Assign(c.p.0, offset, number(base.x))
            &&& row[3] == Expect::Assign(c.p.1, offset, number(base.y))
            &&& row[5] == Expect::Assign(c.a.0, offset, Some(twice.x))
            &&& row[6] == Expect::Assign(c.a.1, offset, Some(twice.y))
            &&& row[7] == Expect::Assign(c.a.0, next, Some(twice.x))
            &&& row[9] == Expect::Assign(c.a.1, next, Some(twice.y))
        }),
{
}

/// The row that doubles the base satisfies the two polynomials of
/// doubling, where twice the ordinate of the base has an inverse.
pub proof fn lemma_mul_double_satisfied<F: FieldElement>(
    c: EccConfig,
    k_bits: Seq<CellValue<F>>,
    base: EccPoint<F>,
    offset: usize,
    bits: Seq<bool>,
    t: Pt,
    ops: Seq<Op<F>>,
    g: RegionView<F>,
)
    requires
        mul_laid_out(c, k_bits, base, offset, bits, t, ops, g),
        is_inverse(
            F::modulus(),
            fadd(F::modulus(), t.y, t.y),
            finv(F::modulus(), fadd(F::modulus(), t.y, t.y)),
        ),
    ensures
        double_polys(c, laid_out(g, ops).unwrap(), offset as nat) =~= seq![0nat, 0nat],
{
    let m = F::modulus();
    F::lemma_modulus();
    let done = laid_out(g, ops).unwrap();
    let inputs = Some((chord_bits(bits), t));
    let count = chord_count(k_bits.len());
    lemma_mul_parts(c, k_bits, base, offset, bits, t);
    let first = e_mul_double(c, base, offset, Some(t));
    let others = e_chords_from(c, k_bits, base, offset, inputs, 0, count);
    lemma_chords_from_zero(c, k_bits, base, offset, inputs, count);
    let ending = e_ending(c, k_bits, base, offset, bits, t);
    assert(expects(ops) =~= Seq::<Expect>::empty() + first + (others + ending));
    lemma_double_shape(c, base, offset, t);
    lemma_expect_in(g, ops, Seq::empty(), first, others + ending, 1);
    lemma_expect_in(g, ops, Seq::empty(), first, others + ending, 3);
    lemma_expect_in(g, ops, Seq::empty(), first, others + ending, 5);
    lemma_expect_in(g, ops, Seq::empty(), first, others + ending, 6);
    lemma_double_vanishes(m, t);
    lemma_fmul_zero(m, flag(done, c.q_double, offset as nat));
}

/// The rows of the chords are the row that doubles the base and the rows of
/// the steps.
proof fn lemma_chords_from_zero<F: FieldElement>(
    c: EccConfig,
    k_bits: Seq<CellValue<F>>,
    base: EccPoint<F>,
    offset: usize,
    inputs: Option<(Seq<bool>, Pt)>,
    n: nat,
)
    ensures
        e_chords(c, k_bits, base, offset, inputs, n) == e_chords(
            c,
            k_bits,
            base,
            offset,
            inputs,
            0,
        ) + e_chords_from(c, k_bits, base, offset, inputs, 0, n),
    decreases n,
{
    let first = e_chords(c, k_bits, base, offset, inputs, 0);
    if n == 0 {
        assert(e_chords(c, k_bits, base, offset, inputs, n) =~= first + e_chords_from(
            c,
            k_bits,
            base,
            offset,
            inputs,
            0,
            n,
        ));
    } else {
        lemma_chords_from_zero(c, k_bits, base, offset, inputs, (n - 1) as nat);
        let last = e_mul_step(
            c,
            k_bits[n - 1],
            base,
            (offset + n) as usize,
            match inputs {
                Some((bits, t)) => Some(
                    (ladder(F::modulus(), t, bits.take(n - 1)), t, bits[n - 1]),
                ),
                None => None,
            },
        );
        let mid = e_chords_from(c, k_bits, base, offset, inputs, 0, (n - 1) as nat);
        assert(e_chords(c, k_bits, base, offset, inputs, n) =~= first + (mid + last));
        assert(e_chords_from(c, k_bits, base, offset, inputs, 0, n) =~= mid + last);
    }
}

/// The row of a step by chords, step by step.
proof fn lemma_step_shape<F: FieldElement>(
    c: EccConfig,
    k_bit: CellValue<F>,
    base: EccPoint<F>,
    row: usize,
    acc: Pt,
    t: Pt,
    bit: bool,
)
    requires
        row < usize::MAX,
    ensures
        ({
            let m = F::modulus();
            let line = e_mul_step(c, k_bit, base, row, Some((acc, t, bit)));
            let p = addend(m, t, bit);
            let next = ladder_step(m, acc, t, bit);
            &&& line.len() == 13
            &&& line[1] == Expect::Assign(c.fixed_z, row, Some(0nat % m))
            &&& line[2] == Expect::Assign(c.bits, row, number(k_bit))
            &&& line[4] == Expect::Assign(c.p.0, row, number(base.x))
            &&& line[6] == Expect::Assign(c.u, row, number(base.y))
            &&& line[8] == Expect::Assign(c.p.1, row, Some(p.y))
            &&& line[9] == Expect::Assign(c.lambda.0, row, Some(chord_slope(m, acc, p)))
            &&& line[10] == Expect::Assign(
                c.lambda.1,
                row,
                Some(chord_slope(m, acc, add_incomplete(m, acc, p))),
            )
            &&& line[11] == Expect::Assign(c.a.0, (row + 1) as usize, Some(next.x))
            &&& line[12] == Expect::Assign(c.a.1, (row + 1) as usize, Some(next.y))
        }),
{
    F::lemma_modulus();
    let m = F::modulus();
    let line = e_mul_step(c, k_bit, base, row, Some((acc, t, bit)));
    let a = e_mul_row(c, k_bit, row, 0);
    assert(a.len() == 4);
    assert(line.len() == 13);
    assert(line[1] == a[1]);
    assert(line[2] == a[2]);
}

/// The rows of the chords were laid out on the region, with further steps
/// after them.
pub open spec fn chords_laid_out<F: FieldElement>(
    c: EccConfig,
    k_bits: Seq<CellValue<F>>,
    base: EccPoint<F>,
    offset: usize,
    steps: Seq<bool>,
    t: Pt,
    count: nat,
    ops: Seq<Op<F>>,
    g: RegionView<F>,
    rest: Seq<Expect>,
) -> bool {
    &&& offset + count + 1 < usize::MAX
    &&& expects(ops) == e_chords(c, k_bits, base, offset, Some((steps, t)), count) + rest
    &&& laid_out(g, ops) is Some
}

/// The row after the row that doubles the base holds the double in the
/// columns of `A`.
proof fn lemma_first_accumulator<F: FieldElement>(
    c: EccConfig,
    k_bits: Seq<CellValue<F>>,
    base: EccPoint<F>,
    offset: usize,
    steps: Seq<bool>,
    t: Pt,
    count: nat,
    ops: Seq<Op<F>>,
    g: RegionView<F>,
    rest: Seq<Expect>,
)
    requires
        chords_laid_out(c, k_bits, base, offset, steps, t, count, ops, g, rest),
    ensures
        at(laid_out(g, ops).unwrap(), c.a.0, (offset + 1) as nat) == double(F::modulus(), t).x,
        at(laid_out(g, ops).unwrap(), c.a.1, (offset + 1) as nat) == double(F::modulus(), t).y,
{
    F::lemma_modulus();
    let inputs = Some((steps, t));
    let first = e_mul_double(c, base, offset, Some(t));
    let others = e_chords_from(c, k_bits, base, offset, inputs, 0, count);
    lemma_chords_from_zero(c, k_bits, base, offset, inputs, count);
    assert(expects(ops) =~= Seq::<Expect>::empty() + first + (others + rest));
    lemma_double_shape(c, base, offset, t);
    lemma_expect_in(g, ops, Seq::empty(), first, others + rest, 7);
    lemma_expect_in(g, ops, Seq::empty(), first, others + rest, 9);
}

/// The cells of the row of step `j` hold what the step witnesses, but for
/// the accumulator before it.
pub open spec fn holds_step<F: FieldElement>(
    c: EccConfig,
    g: RegionView<F>,
    row: nat,
    k_bit: CellValue<F>,
    base: EccPoint<F>,
    acc: Pt,
    t: Pt,
    bit: bool,
) -> bool {
    let m = F::modulus();
    let p = addend(m, t, bit);
    let next = ladder_step(m, acc, t, bit);
    &&& Some(at(g, c.fixed_z, row)) == Some(0nat % m)
    &&& Some(at(g, c.bits, row)) == number(k_bit)
    &&& Some(at(g, c.p.0, row)) == number(base.x)
    &&& Some(at(g, c.u, row)) == number(base.y)
    &&& at(g, c.p.1, row) == p.y
    &&& at(g, c.lambda.0, row) == chord_slope(m, acc, p)
    &&& at(g, c.lambda.1, row) == chord_slope(m, acc, add_incomplete(m, acc, p))
    &&& after(g, c.a.0, row) == next.x
    &&& after(g, c.a.1, row) == next.y
}

/// The row of step `j` holds what the step witnesses.
proof fn lemma_step_cells<F: FieldElement>(
    c: EccConfig,
    k_bits: Seq<CellValue<F>>,
    base: EccPoint<F>,
    offset: usize,
    steps: Seq<bool>,
    t: Pt,
    count: nat,
    ops: Seq<Op<F>>,
    g: RegionView<F>,
    rest: Seq<Expect>,
    j: nat,
)
    requires
        chords_laid_out(c, k_bits, base, offset, steps, t, count, ops, g, rest),
        j < count,
        number(k_bits[j as int]) is Some,
        number(base.x) is Some,
        number(base.y) is Some,
    ensures
        holds_step(
            c,
            laid_out(g, ops).unwrap(),
            (offset + 1 + j) as nat,
            k_bits[j as int],
            base,
            ladder(F::modulus(), t, steps.take(j as int)),
            t,
            steps[j as int],
        ),
{
    let m = F::modulus();
    F::lemma_modulus();
    let inputs = Some((steps, t));
    let acc = ladder(m, t, steps.take(j as int));
    let bit = steps[j as int];
    let row = (offset + j + 1) as usize;
    let pre = e_chords(c, k_bits, base, offset, inputs, j);
    let line = e_mul_step(c, k_bits[j as int], base, row, Some((acc, t, bit)));
    let post = e_chords_from(c, k_bits, base, offset, inputs, j + 1, count);
    lemma_chords_split(c, k_bits, base, offset, inputs, j, count);
    assert(expects(ops) =~= pre + line + (post + rest));
    lemma_step_shape(c, k_bits[j as int], base, row, acc, t, bit);
    lemma_expect_all(g, ops, pre, line, post + rest);
    let done = laid_out(g, ops).unwrap();
    assert(step_held(done, line[1]));
    assert(step_held(done, line[2]));
    assert(step_held(done, line[4]));
    assert(step_held(done, line[6]));
    assert(step_held(done, line[8]));
    assert(step_held(done, line[9]));
    assert(step_held(done, line[10]));
    assert(step_held(done, line[11]));
    assert(step_held(done, line[12]));
}

/// The row of step `j` holds the accumulator before the step in the
/// columns of `A`.
proof fn lemma_accumulator_cells<F: FieldElement>(
    c: EccConfig,
    k_bits: Seq<CellValue<F>>,
    base: EccPoint<F>,
    offset: usize,
    steps: Seq<bool>,
    t: Pt,
    count: nat,
    ops: Seq<Op<F>>,
    g: RegionView<F>,
    rest: Seq<Expect>,
    j: nat,
)
    requires
        chords_laid_out(c, k_bits, base, offset, steps, t, count, ops, g, rest),
        j <= count <= steps.len(),
        forall|i: int| 0 <= i < count ==> number(#[trigger] k_bits[i]) is Some,
        number(base.x) is Some,
        number(base.y) is Some,
    ensures
        at(laid_out(g, ops).unwrap(), c.a.0, (offset + 1 + j) as nat) == ladder(
            F::modulus(),
            t,
            steps.take(j as int),
        ).x,
        at(laid_out(g, ops).unwrap(), c.a.1, (offset + 1 + j) as nat) == ladder(
            F::modulus(),
            t,
            steps.take(j as int),
        ).y,
{
    if j == 0 {
        lemma_first_accumulator(c, k_bits, base, offset, steps, t, count, ops, g, rest);
        assert(steps.take(0) =~= Seq::<bool>::empty());
    } else {
        let i = (j - 1) as nat;
        lemma_step_cells(c, k_bits, base, offset, steps, t, count, ops, g, rest, i);
        assert(steps.take(j as int).drop_last() =~= steps.take(i as int));
        assert(steps.take(j as int).last() == steps[i as int]);
    }
}

/// The row of a step by chords satisfies the seven polynomials of
/// variable-base multiplication, where the two differences of abscissas
/// that the step divides by have inverses.
pub proof fn lemma_mul_step_satisfied<F: FieldElement>(
    c: EccConfig,
    k_bits: Seq<CellValue<F>>,
    base: EccPoint<F>,
    offset: usize,
    bits: Seq<bool>,
    t: Pt,
    ops: Seq<Op<F>>,
    g: RegionView<F>,
    j: nat,
)
    requires
        mul_laid_out(c, k_bits, base, offset, bits, t, ops, g),
        j < chord_count(k_bits.len()),
        ({
            let m = F::modulus();
            let acc = ladder(m, t, chord_bits(bits).take(j as int));
            let p = addend(m, t, bits[j as int]);
            &&& is_inverse(m, fsub(m, t.x, acc.x), finv(m, fsub(m, t.x, acc.x)))
            &&& is_inverse(
                m,
                fsub(m, add_incomplete(m, acc, p).x, acc.x),
                finv(m, fsub(m, add_incomplete(m, acc, p).x, acc.x)),
            )
        }),
    ensures
        mul_polys(c, laid_out(g, ops).unwrap(), (offset + 1 + j) as nat) =~= Seq::new(
            7,
            |i: int| 0nat,
        ),
{
    let m = F::modulus();
    F::lemma_modulus();
    let done = laid_out(g, ops).unwrap();
    let count = chord_count(k_bits.len());
    let n = k_bits.len();
    let steps = chord_bits(bits);
    let acc = ladder(m, t, steps.take(j as int));
    assert(steps[j as int] == bits[j as int]) by {
        assert(bits.drop_last().take(n - 2)[j as int] == bits[j as int]);
    }
    let bit = bits[j as int];
    let row = (offset + j + 1) as usize;
    lemma_mul_parts(c, k_bits, base, offset, bits, t);
    let ending = e_ending(c, k_bits, base, offset, bits, t);
    lemma_step_cells(c, k_bits, base, offset, steps, t, count, ops, g, ending, j);
    lemma_accumulator_cells(c, k_bits, base, offset, steps, t, count, ops, g, ending, j);
    lemma_ladder_reduced(m, t, steps.take(j as int));
    vstd::arithmetic::div_mod::lemma_small_mod(0, m);
    lemma_mul_step_vanishes(m, flag(done, c.q_mul, row as nat), acc, t, bit);
}

/// The nine cells of the witnesses of a complete addition hold the nine
/// numbers, where a part of the layout assigns them from its step `at` on.
proof fn lemma_witness_steps<F: FieldElement>(
    c: EccConfig,
    g: RegionView<F>,
    part: Seq<Expect>,
    at: int,
    row: usize,
    p: Pt,
    q: Pt,
)
    requires
        0 <= at,
        at + 9 <= part.len(),
        forall|k: int| 0 <= k < part.len() ==> step_held(g, #[trigger] part[k]),
        forall|i: int|
            0 <= i < 9 ==> part[at + i] == Expect::Assign(
                witness_columns(c)[i],
                row,
                complete_values(F::modulus(), p, q)[i],
            ),
    ensures
        holds_witnesses(c, g, row, p, q),
{
    assert forall|i: int| 0 <= i < 9 implies cell_number(
        g,
        #[trigger] witness_columns(c)[i],
        row,
    ) == complete_values(F::modulus(), p, q)[i].unwrap() by {
        assert(step_held(g, part[at + i]));
    }
}

/// The first row of the last step, step by step.
proof fn lemma_tied_shape<F: FieldElement>(
    c: EccConfig,
    k_bit: CellValue<F>,
    base: EccPoint<F>,
    row: usize,
    p: Pt,
    a: Pt,
)
    requires
        row < usize::MAX,
    ensures
        ({
            let m = F::modulus();
            let line = e_tied_addition(c, k_bit, base, row, Some((p, a)));
            let sum = add_complete(m, p, a);
            &&& line.len() == 21
            &&& line[1] == Expect::Assign(c.fixed_z, row, Some(2nat % m))
            &&& line[2] == Expect::Assign(c.bits, row, number(k_bit))
            &&& line[4] == Expect::Assign(c.p.0, row, number(base.x))
            &&& line[6] == Expect::Assign(c.u, row, number(base.y))
            &&& line[8] == Expect::Assign(c.p.1, row, Some(p.y))
            &&& forall|i: int|
                0 <= i < 9 ==> #[trigger] line[10 + i] == Expect::Assign(
                    witness_columns(c)[i],
                    row,
                    complete_values(m, p, a)[i],
                )
            &&& line[19] == Expect::Assign(c.a.0, (row + 1) as usize, Some(sum.x))
            &&& line[20] == Expect::Assign(c.a.1, (row + 1) as usize, Some(sum.y))
        }),
{
    F::lemma_modulus();
    let m = F::modulus();
    let line = e_tied_addition(c, k_bit, base, row, Some((p, a)));
    let head = e_mul_row(c, k_bit, row, 2);
    let w = e_witnesses(c, row, numbers_for(m, Some((p, a))));
    assert(head.len() == 4);
    assert(w.len() == 9);
    assert(line.len() == 21);
    assert(line[1] == head[1]);
    assert(line[2] == head[2]);
    assert forall|i: int| 0 <= i < 9 implies #[trigger] line[10 + i] == Expect::Assign(
        witness_columns(c)[i],
        row,
        complete_values(m, p, a)[i],
    ) by {
        assert(line[10 + i] == w[i]);
    }
}

/// The second row of the last step, step by step.
proof fn lemma_kept_shape(c: EccConfig, m: nat, row: usize, a: Pt, q: Pt)
    requires
        0 < row < usize::MAX,
        m > 0,
    ensures
        ({
            let line = e_kept_addition(c, m, row, Some((a, q)));
            let sum = add_complete(m, a, q);
            &&& line.len() == 16
            &&& line[1] == Expect::Assign(c.p.0, row, Some(a.x))
            &&& line[3] == Expect::Assign(c.p.1, row, Some(a.y))
            &&& forall|i: int|
                0 <= i < 9 ==> #[trigger] line[5 + i] == Expect::Assign(
                    witness_columns(c)[i],
                    row,
                    complete_values(m, a, q)[i],
                )
            &&& line[14] == Expect::Assign(c.a.0, (row + 1) as usize, Some(sum.x))
            &&& line[15] == Expect::Assign(c.a.1, (row + 1) as usize, Some(sum.y))
        }),
{
    let line = e_kept_addition(c, m, row, Some((a, q)));
    let w = e_witnesses(c, row, numbers_for(m, Some((a, q))));
    assert(w.len() == 9);
    assert(line.len() == 16);
    assert forall|i: int| 0 <= i < 9 implies #[trigger] line[5 + i] == Expect::Assign(
        witness_columns(c)[i],
        row,
        complete_values(m, a, q)[i],
    ) by {
        assert(line[5 + i] == w[i]);
    }
}

/// The row of the last addition, step by step.
proof fn lemma_correction_shape<F: FieldElement>(
    c: EccConfig,
    k_bit: CellValue<F>,
    base: EccPoint<F>,
    row: usize,
    s: Pt,
    a: Pt,
)
    requires
        row < usize::MAX,
    ensures
        ({
            let m = F::modulus();
            let line = e_correction(c, k_bit, base, row, Some((s, a)));
            let sum = add_complete(m, s, a);
            &&& line.len() == 22
            &&& line[1] == Expect::Assign(c.fixed_z, row, Some(1nat % m))
            &&& line[2] == Expect::Assign(c.bits, row, number(k_bit))
            &&& line[4] == Expect::Assign(c.u, row, number(base.y))
            &&& line[6] == Expect::Assign(c.lambda.1, row, number(base.x))
            &&& line[9] == Expect::Assign(c.p.0, row, Some(s.x))
            &&& line[10] == Expect::Assign(c.p.1, row, Some(s.y))
            &&& forall|i: int|
                0 <= i < 9 ==> #[trigger] line[11 + i] == Expect::Assign(
                    witness_columns(c)[i],
                    row,
                    complete_values(m, s, a)[i],
                )
            &&& line[20] == Expect::Assign(c.a.0, (row + 1) as usize, Some(sum.x))
            &&& line[21] == Expect::Assign(c.a.1, (row + 1) as usize, Some(sum.y))
        }),
{
    F::lemma_modulus();
    let m = F::modulus();
    let line = e_correction(c, k_bit, base, row, Some((s, a)));
    let head = e_mul_row(c, k_bit, row, 1);
    let w = e_witnesses(c, row, numbers_for(m, Some((s, a))));
    assert(head.len() == 4);
    assert(w.len() == 9);
    assert(line.len() == 22);
    assert(line[1] == head[1]);
    assert(line[2] == head[2]);
    assert forall|i: int| 0 <= i < 9 implies #[trigger] line[11 + i] == Expect::Assign(
        witness_columns(c)[i],
        row,
        complete_values(m, s, a)[i],
    ) by {
        assert(line[11 + i] == w[i]);
    }
}

/// The accumulator of the last step and the sum of its first addition.
pub open spec fn last_step_points(m: nat, t: Pt, bits: Seq<bool>) -> (Pt, Pt, Pt) {
    let p = addend(m, t, bits[bits.len() - 2]);
    let acc = ladder(m, t, chord_bits(bits));
    (p, acc, add_complete(m, p, acc))
}

/// The ending of a multiplication with a last step is the two rows of the
/// step and the row of the last addition.
proof fn lemma_ending_parts<F: FieldElement>(
    c: EccConfig,
    k_bits: Seq<CellValue<F>>,
    base: EccPoint<F>,
    offset: usize,
    bits: Seq<bool>,
    t: Pt,
)
    requires
        k_bits.len() >= 2,
        bits.len() == k_bits.len(),
        offset + k_bits.len() + 3 <= usize::MAX,
    ensures
        ({
            let m = F::modulus();
            let n = k_bits.len();
            let (p, acc, inner) = last_step_points(m, t, bits);
            e_ending(c, k_bits, base, offset, bits, t) == e_tied_addition(
                c,
                k_bits[n - 2],
                base,
                (offset + n - 1) as usize,
                Some((p, acc)),
            ) + e_kept_addition(c, m, (offset + n) as usize, Some((acc, inner))) + e_correction(
                c,
                k_bits[n - 1],
                base,
                (offset + n + 1) as usize,
                Some((correction(m, t, bits.last()), add_complete(m, acc, inner))),
            )
        }),
{
    let m = F::modulus();
    let n = k_bits.len();
    let (p, acc, inner) = last_step_points(m, t, bits);
    let steps = bits.drop_last();
    assert(steps.drop_last() =~= chord_bits(bits));
    assert(steps.last() == bits[n - 2]);
    assert(ladder_end(m, t, steps) == add_complete(m, acc, inner));
    assert(e_ending(c, k_bits, base, offset, bits, t) =~= e_tied_addition(
        c,
        k_bits[n - 2],
        base,
        (offset + n - 1) as usize,
        Some((p, acc)),
    ) + e_kept_addition(c, m, (offset + n) as usize, Some((acc, inner))) + e_correction(
        c,
        k_bits[n - 1],
        base,
        (offset + n + 1) as usize,
        Some((correction(m, t, bits.last()), add_complete(m, acc, inner))),
    ));
}

/// The first row of the last step satisfies the polynomials of
/// variable-base multiplication and of complete addition, where every
/// number that the addition inverts has an inverse.
pub proof fn lemma_mul_tied_satisfied<F: FieldElement>(
    c: EccConfig,
    k_bits: Seq<CellValue<F>>,
    base: EccPoint<F>,
    offset: usize,
    bits: Seq<bool>,
    t: Pt,
    ops: Seq<Op<F>>,
    g: RegionView<F>,
)
    requires
        mul_laid_out(c, k_bits, base, offset, bits, t, ops, g),
        k_bits.len() >= 2,
        inverses_exist(
            F::modulus(),
            last_step_points(F::modulus(), t, bits).0,
            last_step_points(F::modulus(), t, bits).1,
        ),
        !no_complete_sum(
            F::modulus(),
            last_step_points(F::modulus(), t, bits).0,
            last_step_points(F::modulus(), t, bits).1,
        ),
    ensures
        mul_polys(c, laid_out(g, ops).unwrap(), (offset + k_bits.len() - 1) as nat) =~= Seq::new(
            7,
            |i: int| 0nat,
        ),
        forall|i: int|
            0 <= i < 22 ==> (#[trigger] complete_polys(
                c,
                laid_out(g, ops).unwrap(),
                (offset + k_bits.len() - 1) as nat,
            )[i]) == 0,
{
    let m = F::modulus();
    F::lemma_modulus();
    let done = laid_out(g, ops).unwrap();
    let n = k_bits.len();
    let count = chord_count(n);
    let steps = chord_bits(bits);
    let row = (offset + n - 1) as usize;
    let (p, acc, inner) = last_step_points(m, t, bits);
    let bit = bits[n - 2];
    lemma_mul_parts(c, k_bits, base, offset, bits, t);
    lemma_ending_parts(c, k_bits, base, offset, bits, t);
    let chords = e_chords(c, k_bits, base, offset, Some((steps, t)), count);
    let ending = e_ending(c, k_bits, base, offset, bits, t);
    let tied = e_tied_addition(c, k_bits[n - 2], base, row, Some((p, acc)));
    let kept = e_kept_addition(c, m, (offset + n) as usize, Some((acc, inner)));
    let corr = e_correction(
        c,
        k_bits[n - 1],
        base,
        (offset + n + 1) as usize,
        Some((correction(m, t, bits.last()), add_complete(m, acc, inner))),
    );
    assert(expects(ops) =~= chords + tied + (kept + corr));
    lemma_tied_shape(c, k_bits[n - 2], base, row, p, acc);
    lemma_expect_all(g, ops, chords, tied, kept + corr);
    assert(step_held(done, tied[1]));
    assert(step_held(done, tied[2]));
    assert(step_held(done, tied[4]));
    assert(step_held(done, tied[6]));
    assert(step_held(done, tied[8]));
    assert(step_held(done, tied[19]));
    assert(step_held(done, tied[20]));
    lemma_witness_steps(c, done, tied, 10, row, p, acc);
    // the accumulator
    assert(steps.take(count as int) =~= steps);
    lemma_accumulator_cells(c, k_bits, base, offset, steps, t, count, ops, g, ending, count);
    lemma_ladder_reduced(m, t, steps);
    lemma_eqm_ops(m, 0, t.y);
    vstd::arithmetic::div_mod::lemma_small_mod(2, m);
    lemma_mul_tie_vanishes(
        m,
        flag(done, c.q_mul, row as nat),
        t,
        bit,
        at(done, c.a.0, row as nat),
        at(done, c.a.1, row as nat),
        at(done, c.lambda.0, row as nat),
        at(done, c.lambda.1, row as nat),
        after(done, c.a.0, row as nat),
        after(done, c.a.1, row as nat),
    );
    lemma_holds_complete(c, done, row, p, acc);
    lemma_complete_cells_satisfied(c, done, row as nat, p, acc);
}

/// The second row of the last step satisfies the polynomials of complete
/// addition, where every number that the addition inverts has an inverse.
pub proof fn lemma_mul_kept_satisfied<F: FieldElement>(
    c: EccConfig,
    k_bits: Seq<CellValue<F>>,
    base: EccPoint<F>,
    offset: usize,
    bits: Seq<bool>,
    t: Pt,
    ops: Seq<Op<F>>,
    g: RegionView<F>,
)
    requires
        mul_laid_out(c, k_bits, base, offset, bits, t, ops, g),
        k_bits.len() >= 2,
        inverses_exist(
            F::modulus(),
            last_step_points(F::modulus(), t, bits).1,
            last_step_points(F::modulus(), t, bits).2,
        ),
        !no_complete_sum(
            F::modulus(),
            last_step_points(F::modulus(), t, bits).1,
            last_step_points(F::modulus(), t, bits).2,
        ),
    ensures
        forall|i: int|
            0 <= i < 22 ==> (#[trigger] complete_polys(
                c,
                laid_out(g, ops).unwrap(),
                (offset + k_bits.len()) as nat,
            )[i]) == 0,
{
    let m = F::modulus();
    F::lemma_modulus();
    let done = laid_out(g, ops).unwrap();
    let n = k_bits.len();
    let count = chord_count(n);
    let steps = chord_bits(bits);
    let row = (offset + n) as usize;
    let (p, acc, inner) = last_step_points(m, t, bits);
    lemma_mul_parts(c, k_bits, base, offset, bits, t);
    lemma_ending_parts(c, k_bits, base, offset, bits, t);
    let chords = e_chords(c, k_bits, base, offset, Some((steps, t)), count);
    let tied = e_tied_addition(c, k_bits[n - 2], base, (offset + n - 1) as usize, Some((p, acc)));
    let kept = e_kept_addition(c, m, row, Some((acc, inner)));
    let corr = e_correction(
        c,
        k_bits[n - 1],
        base,
        (offset + n + 1) as usize,
        Some((correction(m, t, bits.last()), add_complete(m, acc, inner))),
    );
    assert(expects(ops) =~= chords + tied + (kept + corr));
    lemma_tied_shape(c, k_bits[n - 2], base, (offset + n - 1) as usize, p, acc);
    lemma_expect_all(g, ops, chords, tied, kept + corr);
    assert(step_held(done, tied[19]));
    assert(step_held(done, tied[20]));
    assert(expects(ops) =~= (chords + tied) + kept + corr);
    lemma_kept_shape(c, m, row, acc, inner);
    lemma_expect_all(g, ops, chords + tied, kept, corr);
    assert(step_held(done, kept[1]));
    assert(step_held(done, kept[3]));
    assert(step_held(done, kept[14]));
    assert(step_held(done, kept[15]));
    lemma_witness_steps(c, done, kept, 5, row, acc, inner);
    lemma_ladder_reduced(m, t, steps);
    lemma_eqm_ops(m, 0, t.y);
    lemma_add_complete_reduced(m, p, acc);
    lemma_holds_complete(c, done, row, acc, inner);
    lemma_complete_cells_satisfied(c, done, row as nat, acc, inner);
}

/// The operand and the accumulator of the last addition.
pub open spec fn last_addition_points(m: nat, t: Pt, bits: Seq<bool>) -> (Pt, Pt) {
    (correction(m, t, bits.last()), ladder_end(m, t, bits.drop_last()))
}

/// The row of the last addition holds the accumulator after the ladder in
/// the columns of `A`.
proof fn lemma_last_accumulator<F: FieldElement>(
    c: EccConfig,
    k_bits: Seq<CellValue<F>>,
    base: EccPoint<F>,
    offset: usize,
    bits: Seq<bool>,
    t: Pt,
    ops: Seq<Op<F>>,
    g: RegionView<F>,
)
    requires
        mul_laid_out(c, k_bits, base, offset, bits, t, ops, g),
    ensures
        at(
            laid_out(g, ops).unwrap(),
            c.a.0,
            (offset + mul_rows(k_bits.len()) - 2) as nat,
        ) == ladder_end(F::modulus(), t, bits.drop_last()).x,
        at(
            laid_out(g, ops).unwrap(),
            c.a.1,
            (offset + mul_rows(k_bits.len()) - 2) as nat,
        ) == ladder_end(F::modulus(), t, bits.drop_last()).y,
{
    let m = F::modulus();
    F::lemma_modulus();
    let done = laid_out(g, ops).unwrap();
    let n = k_bits.len();
    let count = chord_count(n);
    let steps = chord_bits(bits);
    lemma_mul_parts(c, k_bits, base, offset, bits, t);
    let chords = e_chords(c, k_bits, base, offset, Some((steps, t)), count);
    let ending = e_ending(c, k_bits, base, offset, bits, t);
    if n >= 2 {
        let (p, acc, inner) = last_step_points(m, t, bits);
        lemma_ending_parts(c, k_bits, base, offset, bits, t);
        let tied = e_tied_addition(
            c,
            k_bits[n - 2],
            base,
            (offset + n - 1) as usize,
            Some((p, acc)),
        );
        let kept = e_kept_addition(c, m, (offset + n) as usize, Some((acc, inner)));
        let corr = e_correction(
            c,
            k_bits[n - 1],
            base,
            (offset + n + 1) as usize,
            Some((correction(m, t, bits.last()), add_complete(m, acc, inner))),
        );
        assert(expects(ops) =~= (chords + tied) + kept + corr);
        lemma_kept_shape(c, m, (offset + n) as usize, acc, inner);
        lemma_expect_all(g, ops, chords + tied, kept, corr);
        assert(step_held(done, kept[14]));
        assert(step_held(done, kept[15]));
        assert(bits.drop_last().drop_last() =~= steps);
    } else {
        assert(bits.drop_last() =~= Seq::<bool>::empty());
        lemma_first_accumulator(c, k_bits, base, offset, steps, t, count, ops, g, ending);
    }
}

/// The row of the last addition satisfies the polynomials of variable-base
/// multiplication and of complete addition, where every number that the
/// addition inverts has an inverse.
pub proof fn lemma_mul_last_satisfied<F: FieldElement>(
    c: EccConfig,
    k_bits: Seq<CellValue<F>>,
    base: EccPoint<F>,
    offset: usize,
    bits: Seq<bool>,
    t: Pt,
    ops: Seq<Op<F>>,
    g: RegionView<F>,
)
    requires
        mul_laid_out(c, k_bits, base, offset, bits, t, ops, g),
        ladder_end(F::modulus(), t, bits.drop_last()).x < F::modulus(),
        ladder_end(F::modulus(), t, bits.drop_last()).y < F::modulus(),
        inverses_exist(
            F::modulus(),
            last_addition_points(F::modulus(), t, bits).0,
            last_addition_points(F::modulus(), t, bits).1,
        ),
        !no_complete_sum(
            F::modulus(),
            last_addition_points(F::modulus(), t, bits).0,
            last_addition_points(F::modulus(), t, bits).1,
        ),
    ensures
        mul_polys(
            c,
            laid_out(g, ops).unwrap(),
            (offset + mul_rows(k_bits.len()) - 2) as nat,
        ) =~= Seq::new(7, |i: int| 0nat),
        forall|i: int|
            0 <= i < 22 ==> (#[trigger] complete_polys(
                c,
                laid_out(g, ops).unwrap(),
                (offset + mul_rows(k_bits.len()) - 2) as nat,
            )[i]) == 0,
{
    let m = F::modulus();
    F::lemma_modulus();
    let done = laid_out(g, ops).unwrap();
    let n = k_bits.len();
    let count = chord_count(n);
    let steps = chord_bits(bits);
    let row = (offset + mul_rows(n) - 2) as usize;
    let (s, a) = last_addition_points(m, t, bits);
    let bit = bits.last();
    lemma_mul_parts(c, k_bits, base, offset, bits, t);
    let chords = e_chords(c, k_bits, base, offset, Some((steps, t)), count);
    let corr = e_correction(c, k_bits[n - 1], base, row, Some((s, a)));
    if n >= 2 {
        let (p, acc, inner) = last_step_points(m, t, bits);
        lemma_ending_parts(c, k_bits, base, offset, bits, t);
        let tied = e_tied_addition(
            c,
            k_bits[n - 2],
            base,
            (offset + n - 1) as usize,
            Some((p, acc)),
        );
        let kept = e_kept_addition(c, m, (offset + n) as usize, Some((acc, inner)));
        assert(bits.drop_last().drop_last() =~= steps);
        assert(expects(ops) =~= (chords + tied + kept) + corr + Seq::<Expect>::empty());
        lemma_expect_all(g, ops, chords + tied + kept, corr, Seq::empty());
    } else {
        assert(expects(ops) =~= chords + corr + Seq::<Expect>::empty());
        lemma_expect_all(g, ops, chords, corr, Seq::empty());
    }
    lemma_correction_shape(c, k_bits[n - 1], base, row, s, a);
    assert(step_held(done, corr[1]));
    assert(step_held(done, corr[2]));
    assert(step_held(done, corr[4]));
    assert(step_held(done, corr[6]));
    assert(step_held(done, corr[9]));
    assert(step_held(done, corr[10]));
    assert(step_held(done, corr[20]));
    assert(step_held(done, corr[21]));
    lemma_witness_steps(c, done, corr, 11, row, s, a);
    lemma_last_accumulator(c, k_bits, base, offset, bits, t, ops, g);
    lemma_eqm_ops(m, 0, t.y);
    vstd::arithmetic::div_mod::lemma_small_mod(1, m);
    vstd::arithmetic::div_mod::lemma_small_mod(0, m);
    lemma_mul_last_vanishes(
        m,
        flag(done, c.q_mul, row as nat),
        t,
        bit,
        at(done, c.a.0, row as nat),
        at(done, c.a.1, row as nat),
        at(done, c.lambda.0, row as nat),
        after(done, c.a.0, row as nat),
        after(done, c.a.1, row as nat),
    );
    lemma_holds_complete(c, done, row, s, a);
    lemma_complete_cells_satisfied(c, done, row as nat, s, a);
}

} // verus!

//! The multiplications measured against the multiples of a point. The
//! field formulas of the group law are taken as given: `mult` stands for
//! the multiples `[a] T` of a base, and where they add as the group law
//! says, the ladder gives the multiple by the scalar that its bits stand
//! for, and the windows of a table give the multiple by the scalar that
//! their digits stand for. Where the multiples are moreover those of a
//! point of a curve, every row of either multiplication can be witnessed.

use crate::ecc::add_complete::no_complete_sum;
use crate::ecc::curve::{add_complete, add_incomplete, Curve, double, identity, negate, Pt};
use crate::ecc::decompose::{
    bits_be, in_range, lemma_recompose_bits, lemma_recompose_windows, recompose, recompose_be,
    windows,
};
use crate::ecc::fixed_base::{row_point, TableView};
use crate::ecc::mul::{
    addend, complete_step, correction, ladder, ladder_defined, ladder_end, ladder_step,
    mul_defined, mul_var, step_defined,
};
use crate::ecc::mul_fixed::{
    mul_fixed_defined, mul_fixed_spec, sum_defined, window_point, window_sum,
};
use crate::ecc::mul_fixed_short::apply_sign;
use crate::ecc::window_points::{power, power_sum, window_points_spec, window_scalar};
use crate::field::{eqm, fadd, FieldElement, fmul, lemma_eqm_ops, lemma_eqm_ring, lemma_fadd_zero};
use vstd::arithmetic::div_mod::{lemma_mod_multiples_vanish, lemma_small_mod};
use vstd::arithmetic::power2::{lemma2_to64, lemma_pow2_pos, lemma_pow2_unfold, pow2};
use vstd::prelude::*;

verus! {

/// The identity stands at `[a] T` exactly where the order divides `a`.
pub open spec fn vanishes(order: nat, mult: spec_fn(int) -> Pt, a: int) -> bool {
    (mult(a).x == 0) == (a % (order as int) == 0)
}

/// Scalars that are equal modulo the order give the same multiple.
pub open spec fn wraps(order: nat, mult: spec_fn(int) -> Pt, a: int, b: int) -> bool {
    a % (order as int) == b % (order as int) ==> mult(a) == mult(b)
}

/// Negating `[a] T` gives `[-a] T`.
pub open spec fn negates(m: nat, mult: spec_fn(int) -> Pt, a: int) -> bool {
    negate(m, mult(a)) == mult(-a)
}

/// Complete addition of `[a] T` and `[b] T` gives `[a + b] T`.
pub open spec fn adds(m: nat, mult: spec_fn(int) -> Pt, a: int, b: int) -> bool {
    add_complete(m, mult(a), mult(b)) == mult(a + b)
}

/// `mult` gives the multiples of `t`, a point of the given order, and they
/// add as the group law says: the identity stands at zero, and at the
/// multiples of the order and nowhere else, equal scalars modulo the order
/// give the same point, negating a point negates its scalar, and complete
/// addition adds the scalars.
pub open spec fn is_multiples(m: nat, t: Pt, order: nat, mult: spec_fn(int) -> Pt) -> bool {
    &&& order > 1
    &&& mult(0) == identity()
    &&& mult(1) == t
    &&& forall|a: int| #[trigger] vanishes(order, mult, a)
    &&& forall|a: int, b: int| #[trigger] wraps(order, mult, a, b)
    &&& forall|a: int| #[trigger] negates(m, mult, a)
    &&& forall|a: int, b: int| #[trigger] adds(m, mult, a, b)
}

/// The coordinates of `[a] T` are reduced.
pub open spec fn reduced(m: nat, mult: spec_fn(int) -> Pt, a: int) -> bool {
    mult(a).x < m && mult(a).y < m
}

/// Equal multiples have scalars that are equal modulo the order.
pub open spec fn distinguishes(order: nat, mult: spec_fn(int) -> Pt, a: int, b: int) -> bool {
    mult(a) == mult(b) ==> a % (order as int) == b % (order as int)
}

/// Multiples of the same abscissa have scalars that are equal or opposite
/// modulo the order.
pub open spec fn separates(order: nat, mult: spec_fn(int) -> Pt, a: int, b: int) -> bool {
    mult(a).x == mult(b).x ==> a % (order as int) == b % (order as int) || a % (order as int) == (
    -b) % (order as int)
}

/// The multiples are those of a point of a curve, of order above two:
/// their coordinates are reduced, different scalars modulo the order give
/// different points, and only a point and its inverse share an abscissa.
pub open spec fn is_faithful(m: nat, order: nat, mult: spec_fn(int) -> Pt) -> bool {
    &&& order > 2
    &&& forall|a: int| #[trigger] reduced(m, mult, a)
    &&& forall|a: int, b: int| #[trigger] distinguishes(order, mult, a, b)
    &&& forall|a: int, b: int| #[trigger] separates(order, mult, a, b)
}

/// The scalar of the accumulator after the given bits: `2^n + 1 + 2 v` for
/// `n` bits of value `v`.
pub open spec fn ladder_scalar(bits: Seq<bool>) -> int {
    (pow2(bits.len()) + 1 + 2 * recompose_be(bits)) as int
}

/// Big-endian bits stand for a number below `2^n`.
pub proof fn lemma_recompose_be_bound(bits: Seq<bool>)
    ensures
        recompose_be(bits) < pow2(bits.len()),
    decreases bits.len(),
{
    lemma2_to64();
    if bits.len() > 0 {
        lemma_recompose_be_bound(bits.drop_last());
        lemma_pow2_unfold(bits.len());
    }
}

/// The scalar of a step's addend: one for a set bit, minus one for a clear
/// one.
pub open spec fn addend_scalar(bit: bool) -> int {
    if bit {
        1
    } else {
        -1
    }
}

/// The addend of a step is the multiple by its scalar, and no identity.
proof fn lemma_addend(m: nat, t: Pt, order: nat, mult: spec_fn(int) -> Pt, bit: bool)
    requires
        is_multiples(m, t, order, mult),
    ensures
        addend(m, t, bit) == mult(addend_scalar(bit)),
        addend(m, t, bit).x == t.x,
        t.x != 0,
{
    lemma_small_mod(1, order);
    assert(vanishes(order, mult, 1));
    assert(negates(m, mult, 1));
}

/// A multiple by a scalar between zero and the order is no identity.
proof fn lemma_not_identity(m: nat, t: Pt, order: nat, mult: spec_fn(int) -> Pt, a: int)
    requires
        is_multiples(m, t, order, mult),
        0 < a < order,
    ensures
        mult(a).x != 0,
{
    lemma_small_mod(a as nat, order);
    assert(vanishes(order, mult, a));
}

/// Where the multiples of the base add as the group law says and the order
/// leaves room for every step, or for the scalar of the last, the ladder's
/// accumulator is the multiple by `2^n + 1 + 2 v`, for `n` bits of value
/// `v`.
pub proof fn lemma_ladder_multiple(
    m: nat,
    t: Pt,
    order: nat,
    mult: spec_fn(int) -> Pt,
    bits: Seq<bool>,
)
    requires
        is_multiples(m, t, order, mult),
        ladder_defined(m, t, bits),
        3 * pow2(bits.len()) < 2 * order || ladder_scalar(bits) < order,
    ensures
        ladder(m, t, bits) == mult(ladder_scalar(bits)),
    decreases bits.len(),
{
    lemma2_to64();
    lemma_addend(m, t, order, mult, true);
    if bits.len() == 0 {
        assert(adds(m, mult, 1, 1));
        assert(add_complete(m, t, t) == double(m, t));
    } else {
        let prev = bits.drop_last();
        let bit = bits.last();
        lemma_pow2_unfold(bits.len());
        lemma_pow2_pos(prev.len());
        lemma_recompose_be_bound(prev);
        let c = ladder_scalar(prev);
        let s = addend_scalar(bit);
        assert(ladder_scalar(bits) == c + (c + s));
        lemma_ladder_multiple(m, t, order, mult, prev);
        let acc = ladder(m, t, prev);
        let p = addend(m, t, bit);
        lemma_addend(m, t, order, mult, bit);
        lemma_not_identity(m, t, order, mult, c);
        lemma_not_identity(m, t, order, mult, c + s);
        assert(step_defined(m, acc, t, bit));
        assert(adds(m, mult, c, s));
        let inner = add_incomplete(m, acc, p);
        assert(inner == add_complete(m, acc, p));
        assert(adds(m, mult, c, c + s));
        assert(add_incomplete(m, acc, inner) == add_complete(m, acc, inner));
        assert(ladder(m, t, bits) == ladder_step(m, acc, t, bit));
    }
}

/// Where the multiples of the base add as the group law says, the product
/// that the ladder gives for `n` bits of value `v` is the multiple by
/// `2^(n-1) + v`.
pub proof fn lemma_mul_var_multiple(
    m: nat,
    t: Pt,
    order: nat,
    mult: spec_fn(int) -> Pt,
    bits: Seq<bool>,
)
    requires
        is_multiples(m, t, order, mult),
        mul_defined(m, t, bits),
        pow2((bits.len() - 1) as nat) <= order,
    ensures
        mul_var(m, t, bits) == mult((pow2((bits.len() - 1) as nat) + recompose_be(bits)) as int,
        ),
{
    lemma2_to64();
    let n = bits.len();
    let steps = bits.drop_last();
    let last = if bits.last() {
        0int
    } else {
        -1int
    };
    lemma_addend(m, t, order, mult, false);
    assert(correction(m, t, bits.last()) == mult(last));
    let end_scalar = (pow2((n - 1) as nat) + 1 + 2 * recompose_be(steps)) as int;
    assert(ladder_end(m, t, steps) == mult(end_scalar)) by {
        if steps.len() == 0 {
            lemma_ladder_multiple(m, t, order, mult, steps);
        } else {
            let chords = steps.drop_last();
            let bit = steps.last();
            lemma_pow2_unfold(steps.len());
            lemma_pow2_pos(chords.len());
            lemma_ladder_multiple(m, t, order, mult, chords);
            let c = ladder_scalar(chords);
            let s = addend_scalar(bit);
            lemma_addend(m, t, order, mult, bit);
            assert(adds(m, mult, s, c));
            assert(adds(m, mult, c, s + c));
            assert(ladder_end(m, t, steps) == complete_step(m, ladder(m, t, chords), t, bit));
            assert(end_scalar == c + (s + c));
        }
    }
    assert(adds(m, mult, last, end_scalar));
}

/// Modulo the order, the negative of a scalar between zero and the order
/// is what is left to the order.
proof fn lemma_negative(order: nat, a: int)
    requires
        0 < a < order,
    ensures
        (-a) % (order as int) == order - a,
        a % (order as int) == a,
{
    lemma_small_mod(a as nat, order);
    lemma_small_mod((order - a) as nat, order);
    lemma_mod_multiples_vanish(1, -a, order as int);
    assert((order as int) * 1 + (-a) == order - a);
}

/// Two multiples of a faithful base always have a complete sum to witness.
pub proof fn lemma_sum_exists(
    m: nat,
    t: Pt,
    order: nat,
    mult: spec_fn(int) -> Pt,
    a: int,
    b: int,
)
    requires
        is_multiples(m, t, order, mult),
        is_faithful(m, order, mult),
    ensures
        !no_complete_sum(m, mult(a), mult(b)),
{
    let p = mult(a);
    let q = mult(b);
    assert(reduced(m, mult, a));
    assert(reduced(m, mult, b));
    assert(separates(order, mult, a, b));
    assert(wraps(order, mult, a, b));
    assert(wraps(order, mult, a, -b));
    assert(negates(m, mult, b));
    if p.x == q.x && a % (order as int) != b % (order as int) {
        // opposite points: the ordinates sum to zero
        lemma_fadd_zero(m, q.y, p.y);
        assert(fadd(m, p.y, q.y) == fadd(m, q.y, p.y));
    }
}

/// A faithful base has a tangent.
pub proof fn lemma_tangent_exists(m: nat, t: Pt, order: nat, mult: spec_fn(int) -> Pt)
    requires
        is_multiples(m, t, order, mult),
        is_faithful(m, order, mult),
    ensures
        fadd(m, t.y, t.y) != 0,
{
    assert(reduced(m, mult, 1));
    assert(negates(m, mult, 1));
    assert(distinguishes(order, mult, 1, -1));
    lemma_negative(order, 1);
    lemma_fadd_zero(m, t.y, t.y);
}

/// Where the multiples of a faithful base add as the group law says and
/// the scalar of the accumulator stays below the order, every tangent and
/// chord of the ladder exists, and the accumulator is the multiple by
/// `2^n + 1 + 2 v`, for `n` bits of value `v`.
pub proof fn lemma_ladder_defined(
    m: nat,
    t: Pt,
    order: nat,
    mult: spec_fn(int) -> Pt,
    bits: Seq<bool>,
)
    requires
        is_multiples(m, t, order, mult),
        is_faithful(m, order, mult),
        ladder_scalar(bits) < order,
    ensures
        ladder_defined(m, t, bits),
        ladder(m, t, bits) == mult(ladder_scalar(bits)),
    decreases bits.len(),
{
    lemma2_to64();
    lemma_tangent_exists(m, t, order, mult);
    if bits.len() > 0 {
        let prev = bits.drop_last();
        let bit = bits.last();
        lemma_pow2_unfold(bits.len());
        lemma_pow2_pos(prev.len());
        let c = ladder_scalar(prev);
        let s = addend_scalar(bit);
        assert(ladder_scalar(bits) == c + (c + s));
        lemma_ladder_defined(m, t, order, mult, prev);
        lemma_addend(m, t, order, mult, bit);
        lemma_addend(m, t, order, mult, true);
        lemma_not_identity(m, t, order, mult, c);
        lemma_negative(order, 1);
        lemma_negative(order, c);
        lemma_negative(order, c + s);
        let acc = ladder(m, t, prev);
        // the accumulator is neither the base nor its inverse
        assert(separates(order, mult, c, 1));
        assert(acc.x != t.x);
        assert(adds(m, mult, c, s));
        assert(add_incomplete(m, acc, addend(m, t, bit)) == mult(c + s));
        // nor is it the first sum or its inverse
        assert(separates(order, mult, c, c + s));
        assert(step_defined(m, acc, t, bit));
    }
    lemma_ladder_multiple(m, t, order, mult, bits);
}

/// Where the multiples of a faithful base add as the group law says, the
/// order is at least `2^(n-1) + 2` and the `n` bits stand for a number
/// below the order, the ladder has every row to witness.
pub proof fn lemma_mul_var_defined(
    m: nat,
    t: Pt,
    order: nat,
    mult: spec_fn(int) -> Pt,
    bits: Seq<bool>,
)
    requires
        is_multiples(m, t, order, mult),
        is_faithful(m, order, mult),
        bits.len() > 0,
        pow2((bits.len() - 1) as nat) + 2 <= order,
        recompose_be(bits) < order,
    ensures
        mul_defined(m, t, bits),
{
    lemma2_to64();
    let n = bits.len();
    let steps = bits.drop_last();
    let last = if bits.last() {
        0int
    } else {
        -1int
    };
    lemma_addend(m, t, order, mult, false);
    assert(correction(m, t, bits.last()) == mult(last));
    if steps.len() == 0 {
        lemma_ladder_defined(m, t, order, mult, steps);
        lemma_sum_exists(m, t, order, mult, last, ladder_scalar(steps));
    } else {
        let chords = steps.drop_last();
        let bit = steps.last();
        lemma_pow2_unfold(steps.len());
        lemma_pow2_pos(chords.len());
        let c = ladder_scalar(chords);
        let s = addend_scalar(bit);
        assert(recompose_be(bits) >= 2 * recompose_be(steps));
        assert(recompose_be(steps) >= 2 * recompose_be(chords));
        lemma_ladder_defined(m, t, order, mult, chords);
        lemma_addend(m, t, order, mult, bit);
        assert(adds(m, mult, s, c));
        assert(adds(m, mult, c, s + c));
        lemma_sum_exists(m, t, order, mult, s, c);
        lemma_sum_exists(m, t, order, mult, c, s + c);
        lemma_sum_exists(m, t, order, mult, last, c + (s + c));
        assert(ladder_end(m, t, steps) == complete_step(m, ladder(m, t, chords), t, bit));
    }
}

/// Where the multiples of a faithful base add as the group law says and
/// the order is `2^(n-1)` and an offset between two and `2^(n-1)`, the
/// ladder over the `n` bits of a scalar and the offset has every row to
/// witness, and gives the multiple by the scalar.
pub proof fn lemma_mul_var_by_scalar(
    m: nat,
    t: Pt,
    order: nat,
    mult: spec_fn(int) -> Pt,
    k: nat,
    n: nat,
    offset: nat,
)
    requires
        is_multiples(m, t, order, mult),
        is_faithful(m, order, mult),
        n > 0,
        order == pow2((n - 1) as nat) + offset,
        2 <= offset <= pow2((n - 1) as nat),
    ensures
        mul_defined(m, t, bits_be((k + offset) % order, n)),
        mul_var(m, t, bits_be((k + offset) % order, n)) == mult(k as int),
{
    let shifted = (k + offset) % order;
    let bits = bits_be(shifted, n);
    vstd::arithmetic::div_mod::lemma_mod_bound((k + offset) as int, order as int);
    lemma_pow2_unfold(n);
    lemma_recompose_bits(shifted, n);
    lemma_mul_var_defined(m, t, order, mult, bits);
    lemma_mul_var_multiple(m, t, order, mult, bits);
    let a = (pow2((n - 1) as nat) + shifted) as int;
    // modulo the order, `2^(n-1) + (k + offset)` is `k`
    let top = pow2((n - 1) as nat) as int;
    vstd::arithmetic::div_mod::lemma_add_mod_noop_right(top, (k + offset) as int, order as int);
    assert(top + (k + offset) == (order as int) * 1 + k);
    lemma_mod_multiples_vanish(1, k as int, order as int);
    assert(a % (order as int) == (k as int) % (order as int));
    assert(wraps(order, mult, a, k as int));
}

/// `1 + h + ... + h^(w-1)` for `h = 2^width`.
pub open spec fn geometric(width: nat, w: nat) -> int
    decreases w,
{
    if w == 0 {
        0
    } else {
        geometric(width, (w - 1) as nat) + pow2(width * ((w - 1) as nat))
    }
}

/// The scalar of the point of digit `k` in window `w` of `n`, as an
/// integer: `(k + 1) h^w` in every window but the last, and
/// `k h^w - (1 + h + ... + h^(w-1))` in the last.
pub open spec fn window_int(width: nat, n: nat, w: nat, k: nat) -> int {
    if w + 1 < n {
        ((k + 1) * pow2(width * w)) as int
    } else {
        k * pow2(width * w) - geometric(width, w)
    }
}

/// Every entry of the table is the multiple of the base by the scalar of
/// its window and digit.
pub open spec fn holds_multiples(m: nat, table: TableView, mult: spec_fn(int) -> Pt) -> bool {
    forall|w: int, k: int|
        0 <= w < table.rows.len() && 0 <= k < pow2(table.width) ==> #[trigger] row_point(
            m,
            table.rows[w],
            k,
        ) == mult(window_int(table.width, table.rows.len(), w as nat, k as nat))
}

/// A digit above the others adds its weight to the number that the digits
/// stand for.
pub proof fn lemma_recompose_push(digits: Seq<nat>, d: nat, w: nat)
    ensures
        recompose(digits.push(d), w) == recompose(digits, w) + d * pow2(w * digits.len()),
    decreases digits.len(),
{
    lemma2_to64();
    let all = digits.push(d);
    assert(recompose(all, w) == all[0] + pow2(w) * recompose(all.drop_first(), w));
    if digits.len() == 0 {
        assert(all.drop_first() =~= Seq::<nat>::empty());
        assert(recompose(Seq::<nat>::empty(), w) == 0);
        assert(w * 0 == 0) by (nonlinear_arith);
        assert(pow2(w) * 0 == 0) by (nonlinear_arith);
        assert(d * 1 == d) by (nonlinear_arith);
    } else {
        let rest = digits.drop_first();
        assert(all.drop_first() =~= rest.push(d));
        lemma_recompose_push(rest, d, w);
        let low = pow2(w * rest.len());
        assert(w * digits.len() == w + w * rest.len()) by (nonlinear_arith)
            requires
                digits.len() == rest.len() + 1,
        ;
        vstd::arithmetic::power2::lemma_pow2_adds(w, w * rest.len());
        assert(pow2(w * digits.len()) == pow2(w) * low);
        assert(recompose(digits, w) == digits[0] + pow2(w) * recompose(rest, w));
        assert(pow2(w) * (recompose(rest, w) + d * low) == pow2(w) * recompose(rest, w) + d * (pow2(
            w,
        ) * low)) by (nonlinear_arith);
    }
}

/// Where the multiples of the base add as the group law says and the table
/// holds them, the sum of the first `j` windows, the last window left out,
/// is the multiple by the number that their digits stand for and one more
/// in every window.
pub proof fn lemma_window_sum_multiple(
    m: nat,
    t: Pt,
    order: nat,
    mult: spec_fn(int) -> Pt,
    table: TableView,
    digits: Seq<nat>,
    j: nat,
)
    requires
        is_multiples(m, t, order, mult),
        holds_multiples(m, table, mult),
        digits.len() == table.rows.len(),
        in_range(digits, table.width),
        j < digits.len(),
    ensures
        window_sum(m, table, digits, j) == mult(
            recompose(digits.take(j as int), table.width) + geometric(table.width, j),
        ),
    decreases j,
{
    lemma2_to64();
    let width = table.width;
    if j == 0 {
        assert(digits.take(0) =~= Seq::<nat>::empty());
    } else {
        let w = (j - 1) as nat;
        let low = digits.take(w as int);
        assert(digits.take(j as int) =~= low.push(digits[w as int]));
        lemma_recompose_push(low, digits[w as int], width);
        lemma_window_sum_multiple(m, t, order, mult, table, digits, w);
        let here = window_int(width, digits.len(), w, digits[w as int]);
        let before = recompose(low, width) + geometric(width, w);
        assert(window_point(m, table, digits, w as int) == mult(here));
        assert((digits[w as int] + 1) * pow2(width * w) == digits[w as int] * pow2(width * w)
            + pow2(width * w)) by (nonlinear_arith);
        if j == 1 {
            assert(low =~= Seq::<nat>::empty());
        } else {
            assert(adds(m, mult, here, before));
        }
    }
}

/// Where the multiples of the base add as the group law says and the table
/// holds them, the product that the table gives is the multiple by the
/// number that the digits stand for.
pub proof fn lemma_mul_fixed_multiple(
    m: nat,
    t: Pt,
    order: nat,
    mult: spec_fn(int) -> Pt,
    table: TableView,
    digits: Seq<nat>,
)
    requires
        is_multiples(m, t, order, mult),
        holds_multiples(m, table, mult),
        digits.len() == table.rows.len(),
        digits.len() > 0,
        in_range(digits, table.width),
    ensures
        mul_fixed_spec(m, table, digits) == mult(recompose(digits, table.width) as int),
{
    lemma2_to64();
    let width = table.width;
    let n = digits.len();
    let w = (n - 1) as nat;
    let low = digits.take(w as int);
    assert(digits =~= low.push(digits[w as int]));
    lemma_recompose_push(low, digits[w as int], width);
    lemma_window_sum_multiple(m, t, order, mult, table, digits, w);
    let here = window_int(width, n, w, digits[w as int]);
    let before = recompose(low, width) + geometric(width, w);
    assert(window_point(m, table, digits, w as int) == mult(here));
    if n == 1 {
        assert(low =~= Seq::<nat>::empty());
    } else {
        assert(adds(m, mult, here, before));
    }
}

/// Where the multiples of a faithful base add as the group law says and
/// the table holds them, every addition in the sum of the first `j` windows
/// has a row to witness.
pub proof fn lemma_sum_defined(
    m: nat,
    t: Pt,
    order: nat,
    mult: spec_fn(int) -> Pt,
    table: TableView,
    digits: Seq<nat>,
    j: nat,
)
    requires
        is_multiples(m, t, order, mult),
        is_faithful(m, order, mult),
        holds_multiples(m, table, mult),
        digits.len() == table.rows.len(),
        in_range(digits, table.width),
        j <= digits.len(),
    ensures
        sum_defined(m, table, digits, j),
    decreases j,
{
    if j > 1 {
        let w = (j - 1) as nat;
        lemma_sum_defined(m, t, order, mult, table, digits, w);
        lemma_window_sum_multiple(m, t, order, mult, table, digits, w);
        let here = window_int(table.width, digits.len(), w, digits[w as int]);
        assert(window_point(m, table, digits, w as int) == mult(here));
        lemma_sum_exists(
            m,
            t,
            order,
            mult,
            here,
            recompose(digits.take(w as int), table.width) + geometric(table.width, w),
        );
    }
}

/// Where the multiples of a faithful base add as the group law says and
/// the table holds them, the windows of a scalar have every row to witness,
/// and the product that the table gives for them is the multiple by the
/// scalar.
pub proof fn lemma_mul_fixed_by_scalar(
    m: nat,
    t: Pt,
    order: nat,
    mult: spec_fn(int) -> Pt,
    table: TableView,
    k: nat,
)
    requires
        is_multiples(m, t, order, mult),
        is_faithful(m, order, mult),
        holds_multiples(m, table, mult),
        table.rows.len() > 0,
        k < pow2(table.width * table.rows.len()),
    ensures
        mul_fixed_defined(m, table, windows(k, table.width, table.rows.len())),
        mul_fixed_spec(m, table, windows(k, table.width, table.rows.len())) == mult(k as int),
{
    let digits = windows(k, table.width, table.rows.len());
    lemma_recompose_windows(k, table.width, table.rows.len());
    lemma_sum_defined(m, t, order, mult, table, digits, digits.len());
    lemma_mul_fixed_multiple(m, t, order, mult, table, digits);
}

/// Where the multiples of a faithful base add as the group law says and
/// the table holds them, the signed product that the table gives for the
/// windows of a magnitude is the multiple by the magnitude under a clear
/// sign, and by the negated magnitude under a set one.
pub proof fn lemma_mul_fixed_short_by_scalar(
    m: nat,
    t: Pt,
    order: nat,
    mult: spec_fn(int) -> Pt,
    table: TableView,
    magnitude: nat,
    sign: bool,
)
    requires
        is_multiples(m, t, order, mult),
        is_faithful(m, order, mult),
        holds_multiples(m, table, mult),
        table.rows.len() > 0,
        magnitude < pow2(table.width * table.rows.len()),
    ensures
        mul_fixed_defined(m, table, windows(magnitude, table.width, table.rows.len())),
        apply_sign(
            m,
            mul_fixed_spec(m, table, windows(magnitude, table.width, table.rows.len())),
            sign,
        ) == mult(
            if sign {
                -(magnitude as int)
            } else {
                magnitude as int
            },
        ),
{
    lemma_mul_fixed_by_scalar(m, t, order, mult, table, magnitude);
    lemma_signed_multiple(m, t, order, mult, magnitude as int, sign);
}

/// Where negating a multiple negates its scalar, a set sign gives the
/// multiple by the negated scalar.
pub proof fn lemma_signed_multiple(
    m: nat,
    t: Pt,
    order: nat,
    mult: spec_fn(int) -> Pt,
    a: int,
    sign: bool,
)
    requires
        is_multiples(m, t, order, mult),
    ensures
        apply_sign(m, mult(a), sign) == mult(
            if sign {
                -a
            } else {
                a
            },
        ),
{
    assert(negates(m, mult, a));
}

/// The powers of `h = 2^width` in the scalar field are those of the
/// integers, modulo the characteristic.
proof fn lemma_power(q: nat, width: nat, w: nat)
    requires
        q > 0,
    ensures
        eqm(q, power(q, pow2(width) % q, w) as int, pow2(width * w) as int),
        eqm(q, power_sum(q, pow2(width) % q, w) as int, geometric(width, w)),
    decreases w,
{
    lemma2_to64();
    let h = pow2(width) % q;
    if w == 0 {
        assert(width * 0 == 0) by (nonlinear_arith);
        lemma_eqm_ops(q, 1, 0);
    } else {
        let v = (w - 1) as nat;
        lemma_power(q, width, v);
        lemma_eqm_ops(q, pow2(width), 0);
        lemma_eqm_ops(q, power(q, h, v), h);
        lemma_eqm_ring(
            q,
            power(q, h, v) as int,
            pow2(width * v) as int,
            h as int,
            pow2(width) as int,
        );
        assert(width * w == width * v + width) by (nonlinear_arith)
            requires
                w == v + 1,
        ;
        vstd::arithmetic::power2::lemma_pow2_adds(width * v, width);
        lemma_eqm_ops(q, power_sum(q, h, v), power(q, h, v));
        lemma_eqm_ring(
            q,
            power_sum(q, h, v) as int,
            geometric(width, v),
            power(q, h, v) as int,
            pow2(width * v) as int,
        );
    }
}

/// The scalar of a window's point in the scalar field is its integer,
/// modulo the characteristic.
pub proof fn lemma_window_scalar(q: nat, width: nat, n: nat, w: nat, k: nat)
    requires
        q > 0,
    ensures
        eqm(q, window_scalar(q, width, n, w, k) as int, window_int(width, n, w, k)),
{
    let h = pow2(width) % q;
    let hw = power(q, h, w);
    lemma_power(q, width, w);
    if w + 1 < n {
        lemma_eqm_ops(q, k + 1, 0);
        lemma_eqm_ops(q, (k + 1) % q, hw);
        lemma_eqm_ring(q, ((k + 1) % q) as int, (k + 1) as int, hw as int, pow2(width * w) as int);
    } else {
        lemma_eqm_ops(q, k, 0);
        lemma_eqm_ops(q, k % q, hw);
        lemma_eqm_ring(q, (k % q) as int, k as int, hw as int, pow2(width * w) as int);
        lemma_eqm_ops(q, fmul(q, k % q, hw), power_sum(q, h, w));
        lemma_eqm_ring(
            q,
            fmul(q, k % q, hw) as int,
            (k * pow2(width * w)) as int,
            power_sum(q, h, w) as int,
            geometric(width, w),
        );
    }
}

/// A table that gives back the points of the windows of a curve's base
/// holds the multiples of the base, where `mult` extends the multiples of
/// the curve to all integers.
pub proof fn lemma_table_holds_multiples<C: Curve>(
    base: Pt,
    mult: spec_fn(int) -> Pt,
    table: TableView,
)
    requires
        is_multiples(C::Base::modulus(), base, C::Scalar::modulus(), mult),
        forall|s: nat| #[trigger] C::multiple(base, s) == mult(s as int),
        forall|w: int, k: int|
            0 <= w < table.rows.len() && 0 <= k < pow2(table.width) ==> #[trigger] row_point(
                C::Base::modulus(),
                table.rows[w],
                k,
            ) == window_points_spec::<C>(base, table.width, table.rows.len())[w][k],
    ensures
        holds_multiples(C::Base::modulus(), table, mult),
{
    let m = C::Base::modulus();
    let q = C::Scalar::modulus();
    let n = table.rows.len();
    assert forall|w: int, k: int|
        0 <= w < table.rows.len() && 0 <= k < pow2(table.width) implies #[trigger] row_point(
        m,
        table.rows[w],
        k,
    ) == mult(window_int(table.width, n, w as nat, k as nat)) by {
        let s = window_scalar(q, table.width, n, w as nat, k as nat);
        lemma_window_scalar(q, table.width, n, w as nat, k as nat);
        assert(wraps(q, mult, s as int, window_int(table.width, n, w as nat, k as nat)));
        assert(C::multiple(base, s) == mult(s as int));
    }
}

} // verus!

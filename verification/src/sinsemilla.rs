//! The Sinsemilla hash in a circuit: the message as words of ten bits, each
//! read with its first bit least significant; the step that takes the
//! generator of a word into the accumulator; and the two polynomials that
//! constrain a row of the hash.

use crate::circuit::{
    after, at, Column, ConstraintSystem, eval_on, Expression, flag, RegionView, Selector,
};
use crate::ecc::curve::{add_incomplete, Affine, chord_slope, Curve, Pt};
use crate::ecc::forced::{is_field, lemma_quotient_forced};
use crate::field::{
    BaseField, eqm, fadd, fdiv, FieldElement, finv, fmul, fsub, lemma_div_mul, lemma_eqm_ops,
    lemma_eqm_reduced, lemma_eqm_ring, lemma_finv, lemma_fsub_zero,
};
use vstd::arithmetic::div_mod::lemma_small_mod;
use vstd::arithmetic::power2::pow2;
use vstd::prelude::*;

verus! {

/// The hash domains of a circuit over a curve, which can be listed.
pub trait HashDomains<C: Curve>: Clone + core::fmt::Debug {

}

/// The number of bits of a word.
pub const K: usize = 10;

/// The greatest number of words of a message.
pub const C: usize = 253;

/// The number that little-endian bits stand for.
pub open spec fn lebs2ip(bits: Seq<bool>) -> nat
    decreases bits.len(),
{
    if bits.len() == 0 {
        0
    } else {
        (if bits[0] {
            1nat
        } else {
            0nat
        }) + 2 * lebs2ip(bits.drop_first())
    }
}

/// Little-endian bits stand for a number below two to their count.
pub proof fn lemma_lebs2ip_bound(bits: Seq<bool>)
    ensures
        lebs2ip(bits) < pow2(bits.len()),
    decreases bits.len(),
{
    vstd::arithmetic::power2::lemma2_to64();
    if bits.len() > 0 {
        lemma_lebs2ip_bound(bits.drop_first());
        vstd::arithmetic::power2::lemma_pow2_unfold(bits.len());
    }
}

/// The number that at most 32 little-endian bits stand for.
pub fn lebs2ip_32(bits: &[bool]) -> (r: u32)
    requires
        bits@.len() <= 32,
    ensures
        r == lebs2ip(bits@),
{
    let mut acc: u32 = 0;
    let mut i: usize = bits.len();
    proof {
        assert(bits@.skip(i as int) =~= Seq::<bool>::empty());
        vstd::arithmetic::power2::lemma2_to64();
    }
    while i > 0
        invariant
            i <= bits@.len() <= 32,
            acc == lebs2ip(bits@.skip(i as int)),
            acc < pow2((bits@.len() - i) as nat),
        decreases i,
    {
        i = i - 1;
        proof {
            let s = bits@.skip(i as int);
            assert(s.drop_first() =~= bits@.skip(i + 1));
            assert(s[0] == bits@[i as int]);
            vstd::arithmetic::power2::lemma_pow2_unfold((bits@.len() - i) as nat);
            vstd::arithmetic::power2::lemma2_to64();
            if bits@.len() - i < 32 {
                vstd::arithmetic::power2::lemma_pow2_strictly_increases(
                    (bits@.len() - i) as nat,
                    32,
                );
            }
        }
        acc = 2 * acc + if bits[i] {
            1
        } else {
            0
        };
    }
    proof {
        assert(bits@.skip(0) =~= bits@);
    }
    acc
}

/// The message with as many clear bits behind it as its length leaves over
/// when it is cut into words.
pub open spec fn padded(message: Seq<bool>) -> Seq<bool> {
    message + Seq::new((message.len() % K as nat) as nat, |i: int| false)
}

/// Word `i` of the bits: the ten bits from `10 i` on, or those that are
/// left.
pub open spec fn word(bits: Seq<bool>, i: int) -> nat {
    let end = if (i + 1) * K <= bits.len() {
        (i + 1) * K
    } else {
        bits.len() as int
    };
    lebs2ip(bits.subrange(i * K, end))
}

/// The words of a message of at most `K * C` bits: the padded message, cut
/// into words of ten bits, the last word of those that are left.
pub fn message_words(message: &Vec<bool>) -> (r: Option<Vec<u32>>)
    ensures
        r is Some <==> message.len() <= K * C,
        r matches Some(words) ==> words.len() == (padded(message@).len() + K - 1) / K as int
            && forall|i: int|
            0 <= i < words.len() ==> (#[trigger] words[i]) == word(padded(message@), i),
{
    if message.len() > K * C {
        return None;
    }
    let pad = message.len() % K;
    let mut bits: Vec<bool> = Vec::new();
    let mut i: usize = 0;
    while i < message.len()
        invariant
            i <= message.len(),
            bits.len() == i,
            forall|j: int| 0 <= j < i ==> bits[j] == message[j],
        decreases message.len() - i,
    {
        bits.push(message[i]);
        i = i + 1;
    }
    let mut j: usize = 0;
    while j < pad
        invariant
            j <= pad < K,
            message.len() <= K * C,
            bits.len() == message.len() + j,
            forall|k: int| 0 <= k < message.len() ==> bits[k] == message[k],
            forall|k: int| message.len() <= k < bits.len() ==> !bits[k],
        decreases pad - j,
    {
        bits.push(false);
        j = j + 1;
    }
    proof {
        assert(bits@ =~= padded(message@));
    }
    let count = (bits.len() + K - 1) / K;
    let mut words: Vec<u32> = Vec::new();
    let mut w: usize = 0;
    while w < count
        invariant
            w <= count,
            count == (bits.len() + K - 1) / K as int,
            bits.len() <= K * C + K,
            words.len() == w,
            forall|k: int| 0 <= k < w ==> (#[trigger] words[k]) == word(bits@, k),
        decreases count - w,
    {
        let start = w * K;
        let end = if start + K <= bits.len() {
            start + K
        } else {
            bits.len()
        };
        let chunk = vstd::slice::slice_subrange(bits.as_slice(), start, end);
        words.push(lebs2ip_32(chunk));
        w = w + 1;
    }
    Some(words)
}

/// The columns of one Sinsemilla hash: the selector of the rows of the
/// hash, and the advice columns of the accumulator's abscissa, the running
/// sum of the words, the two slopes and the generator's abscissa.
#[derive(Clone, Copy, Debug)]
pub struct SinsemillaColumns {
    pub sinsemilla: Selector,
    pub x_a: Column,
    pub z: Column,
    pub lambda1: Column,
    pub lambda2: Column,
    pub x_p: Column,
}

impl SinsemillaColumns {
    /// The columns of a hash.
    pub fn new(
        sinsemilla: Selector,
        x_a: Column,
        z: Column,
        lambda1: Column,
        lambda2: Column,
        x_p: Column,
    ) -> (r: Self)
        ensures
            r == (SinsemillaColumns { sinsemilla, x_a, z, lambda1, lambda2, x_p }),
    {
        SinsemillaColumns { sinsemilla, x_a, z, lambda1, lambda2, x_p }
    }
}

/// The configuration of the hash.
#[derive(Clone, Copy, Debug)]
pub struct SinsemillaConfig {
    pub columns: SinsemillaColumns,
}

/// The ordinate of the accumulator, which a row holds only through its
/// slopes: `(lambda1 + lambda2) (x_a - (lambda1^2 - x_a - x_p)) / 2`.
pub open spec fn accumulator_y(m: nat, l1: nat, l2: nat, xa: nat, xp: nat) -> nat {
    fmul(
        m,
        fmul(m, fadd(m, l1, l2), fsub(m, xa, fsub(m, fsub(m, fmul(m, l1, l1), xa), xp))),
        finv(m, 2nat % m),
    )
}

/// The first polynomial of a row of the hash:
/// `lambda2^2 - x_a' - lambda1^2 + x_p`, for the abscissa `x_a'` of the next
/// accumulator.
pub open spec fn first_poly<F: FieldElement>(
    c: SinsemillaColumns,
    g: RegionView<F>,
    row: nat,
) -> nat {
    let m = F::modulus();
    let (l1, l2) = (at(g, c.lambda1, row), at(g, c.lambda2, row));
    fmul(
        m,
        flag(g, c.sinsemilla, row),
        fadd(
            m,
            fsub(m, fsub(m, fmul(m, l2, l2), after(g, c.x_a, row)), fmul(m, l1, l1)),
            at(g, c.x_p, row),
        ),
    )
}

/// The second polynomial of a row of the hash:
/// `lambda2 (x_a - x_a') - y_a - y_a'`, for the next accumulator
/// `(x_a', y_a')`.
pub open spec fn second_poly<F: FieldElement>(
    c: SinsemillaColumns,
    g: RegionView<F>,
    row: nat,
) -> nat {
    let m = F::modulus();
    let y_cur = accumulator_y(
        m,
        at(g, c.lambda1, row),
        at(g, c.lambda2, row),
        at(g, c.x_a, row),
        at(g, c.x_p, row),
    );
    let y_next = accumulator_y(
        m,
        after(g, c.lambda1, row),
        after(g, c.lambda2, row),
        after(g, c.x_a, row),
        after(g, c.x_p, row),
    );
    fmul(
        m,
        flag(g, c.sinsemilla, row),
        fsub(
            m,
            fsub(
                m,
                fmul(m, at(g, c.lambda2, row), fsub(m, at(g, c.x_a, row), after(g, c.x_a, row))),
                y_cur,
            ),
            y_next,
        ),
    )
}

/// The polynomial of the accumulator's ordinate on the row, or on the next.
fn accumulator_gate<F: BaseField>(c: &SinsemillaColumns, next: bool) -> (r: Expression<F>)
    ensures
        forall|g: RegionView<F>, row: nat| #[trigger]
            eval_on(r, g, row) == (if next {
                accumulator_y(
                    F::modulus(),
                    after(g, c.lambda1, row),
                    after(g, c.lambda2, row),
                    after(g, c.x_a, row),
                    after(g, c.x_p, row),
                )
            } else {
                accumulator_y(
                    F::modulus(),
                    at(g, c.lambda1, row),
                    at(g, c.lambda2, row),
                    at(g, c.x_a, row),
                    at(g, c.x_p, row),
                )
            }),
{
    proof {
        F::lemma_modulus();
        lemma_small_mod(2, F::modulus());
    }
    let half = match F::from_u64(2).invert() {
        Some(inverse) => {
            proof {
                lemma_finv(F::modulus(), 2, inverse.value());
            }
            inverse
        },
        None => F::from_u64(0),
    };
    let l1 = Expression::Query(c.lambda1, next);
    let l2 = Expression::Query(c.lambda2, next);
    let xa = Expression::Query(c.x_a, next);
    let xp = Expression::Query(c.x_p, next);
    let inner = l1.duplicate().times(l1.duplicate()).minus(xa.duplicate()).minus(xp);
    l1.plus(l2).times(xa.minus(inner)).times(Expression::Constant(half))
}

impl SinsemillaConfig {
    /// Configures the hash on the given columns: the two polynomials of a
    /// row are added as gates, in their order.
    pub fn configure<F: BaseField>(
        meta: &mut ConstraintSystem<F>,
        columns: SinsemillaColumns,
    ) -> (r: Self)
        ensures
            r.columns == columns,
            final(meta).gates@.len() == old(meta).gates@.len() + 2,
            forall|i: int|
                0 <= i < old(meta).gates@.len() ==> final(meta).gates@[i] == old(meta).gates@[i],
            forall|g: RegionView<F>, row: nat| #[trigger]
                eval_on(final(meta).gates@[old(meta).gates@.len() as int].poly, g, row)
                    == first_poly(columns, g, row),
            forall|g: RegionView<F>, row: nat| #[trigger]
                eval_on(final(meta).gates@[old(meta).gates@.len() as int + 1].poly, g, row)
                    == second_poly(columns, g, row),
            final(meta).lookups == old(meta).lookups,
            final(meta).permutations == old(meta).permutations,
            final(meta).num_advice == old(meta).num_advice,
            final(meta).num_fixed == old(meta).num_fixed,
            final(meta).num_selectors == old(meta).num_selectors,
    {
        let q = Expression::enabled(columns.sinsemilla);
        let l1 = Expression::cur(columns.lambda1);
        let l2 = Expression::cur(columns.lambda2);
        let first = l2.duplicate().times(l2.duplicate()).minus(Expression::next(columns.x_a)).minus(
            l1.duplicate().times(l1),
        ).plus(Expression::cur(columns.x_p));
        meta.create_gate("Sinsemilla expr1", q.duplicate().times(first));
        let step = l2.times(Expression::cur(columns.x_a).minus(Expression::next(columns.x_a)));
        let second = step.minus(accumulator_gate(&columns, false)).minus(
            accumulator_gate(&columns, true),
        );
        meta.create_gate("Sinsemilla expr2", q.times(second));
        SinsemillaConfig { columns }
    }
}

/// What one step of the hash witnesses on its row, and the accumulator
/// that it gives.
pub struct HashStep<F: FieldElement> {
    pub lambda1: F,
    pub lambda2: F,
    pub next: Affine<F>,
}

/// The first slope of a step, of the chord through the accumulator and the
/// generator: `(y_a - y_p) / (x_a - x_p)`.
pub open spec fn first_slope(m: nat, acc: Pt, p: Pt) -> nat {
    fdiv(m, fsub(m, acc.y, p.y), fsub(m, acc.x, p.x))
}

/// The abscissa of the sum of the accumulator and the generator:
/// `lambda1^2 - x_a - x_p`.
pub open spec fn inner_x(m: nat, acc: Pt, p: Pt) -> nat {
    let l1 = first_slope(m, acc, p);
    fsub(m, fsub(m, fmul(m, l1, l1), acc.x), p.x)
}

/// The second slope of a step, of the chord through the accumulator and
/// that sum: `2 y_a / (x_a - x_r) - lambda1`.
pub open spec fn second_slope(m: nat, acc: Pt, p: Pt) -> nat {
    fsub(
        m,
        fmul(m, fmul(m, 2nat % m, acc.y), finv(m, fsub(m, acc.x, inner_x(m, acc, p)))),
        first_slope(m, acc, p),
    )
}

/// The accumulator after a step: `x = lambda2^2 - x_a - x_r` and
/// `y = lambda2 (x_a - x) - y_a`.
pub open spec fn stepped(m: nat, acc: Pt, p: Pt) -> Pt {
    let l2 = second_slope(m, acc, p);
    let x = fsub(m, fsub(m, fmul(m, l2, l2), acc.x), inner_x(m, acc, p));
    Pt { x, y: fsub(m, fmul(m, l2, fsub(m, acc.x, x)), acc.y) }
}

/// Both chords of a step exist: the accumulator shares an abscissa neither
/// with the generator nor with their sum.
pub open spec fn step_exists(m: nat, acc: Pt, p: Pt) -> bool {
    acc.x != p.x && acc.x != inner_x(m, acc, p)
}

/// One step of the hash: the accumulator takes the generator of a word in,
/// as `(A + P) + A`. There is no step where a chord does not exist.
pub fn hash_step<F: BaseField>(acc: &Affine<F>, p: &Affine<F>) -> (r: Option<HashStep<F>>)
    ensures
        r is Some <==> step_exists(F::modulus(), acc@, p@),
        r matches Some(step) ==> {
            &&& step.lambda1.value() == first_slope(F::modulus(), acc@, p@)
            &&& step.lambda2.value() == second_slope(F::modulus(), acc@, p@)
            &&& step.next@ == stepped(F::modulus(), acc@, p@)
        },
{
    proof {
        F::lemma_modulus();
        acc.x.lemma_value();
        p.x.lemma_value();
        lemma_fsub_zero(F::modulus(), acc.x.value(), p.x.value());
    }
    let first = match acc.x.minus(&p.x).invert() {
        Some(inverse) => {
            proof {
                lemma_finv(
                    F::modulus(),
                    fsub(F::modulus(), acc.x.value(), p.x.value()),
                    inverse.value(),
                );
            }
            inverse
        },
        None => {
            return None;
        },
    };
    let lambda1 = acc.y.minus(&p.y).times(&first);
    let x_r = lambda1.times(&lambda1).minus(&acc.x).minus(&p.x);
    proof {
        x_r.lemma_value();
        lemma_fsub_zero(F::modulus(), acc.x.value(), x_r.value());
    }
    let second = match acc.x.minus(&x_r).invert() {
        Some(inverse) => {
            proof {
                lemma_finv(
                    F::modulus(),
                    fsub(F::modulus(), acc.x.value(), x_r.value()),
                    inverse.value(),
                );
            }
            inverse
        },
        None => {
            return None;
        },
    };
    let lambda2 = F::from_u64(2).times(&acc.y).times(&second).minus(&lambda1);
    let x = lambda2.times(&lambda2).minus(&acc.x).minus(&x_r);
    let y = lambda2.times(&acc.x.minus(&x)).minus(&acc.y);
    Some(HashStep { lambda1, lambda2, next: Affine { x, y } })
}

/// Over a field, a step of the hash is a step of the group law: its slopes
/// are those of the chords through the accumulator and the generator, and
/// through the accumulator and their sum, and it gives the accumulator
/// added to its sum with the generator.
pub proof fn lemma_step_adds(m: nat, acc: Pt, p: Pt)
    requires
        is_field(m),
        acc.x < m && acc.y < m && p.x < m && p.y < m,
        step_exists(m, acc, p),
    ensures
        first_slope(m, acc, p) == chord_slope(m, acc, p),
        inner_x(m, acc, p) == add_incomplete(m, acc, p).x,
        second_slope(m, acc, p) == chord_slope(m, acc, add_incomplete(m, acc, p)),
        stepped(m, acc, p) == add_incomplete(m, acc, add_incomplete(m, acc, p)),
{
    let l1 = first_slope(m, acc, p);
    let (dx, dy) = (fsub(m, acc.x, p.x), fsub(m, acc.y, p.y));
    let (ex, ey) = (fsub(m, p.x, acc.x), fsub(m, p.y, acc.y));
    lemma_eqm_ops(m, acc.x, p.x);
    lemma_eqm_ops(m, acc.y, p.y);
    lemma_eqm_ops(m, p.x, acc.x);
    lemma_eqm_ops(m, p.y, acc.y);
    lemma_fsub_zero(m, acc.x, p.x);
    lemma_fsub_zero(m, p.x, acc.x);
    lemma_eqm_ops(m, dy, finv(m, dx));
    // (x_p - x_a) lambda1 = -((x_a - x_p) lambda1) = y_p - y_a
    lemma_div_mul(m, dy, dx);
    lemma_eqm_ops(m, dx, l1);
    lemma_eqm_ops(m, ex, l1);
    lemma_eqm_ring(m, 0, 0, dx as int, acc.x - p.x);
    lemma_eqm_ring(m, 0, 0, dy as int, acc.y - p.y);
    lemma_eqm_ring(m, ex as int, -(dx as int), l1 as int, l1 as int);
    lemma_eqm_ring(m, 0, 0, (dx * l1) as int, dy as int);
    assert(-(dx as int) * (l1 as int) == 0 - (dx * l1)) by (nonlinear_arith);
    assert(eqm(m, ey as int, 0 - dy));
    lemma_eqm_reduced(m, fmul(m, ex, l1), ey);
    lemma_quotient_forced(m, ex, l1, ey);
    // the sum of the accumulator and the generator
    let inner = add_incomplete(m, acc, p);
    let xr = inner.x;
    lemma_eqm_ops(m, fsub(m, fmul(m, l1, l1), acc.x), p.x);
    lemma_eqm_ops(m, fmul(m, l1, fsub(m, acc.x, xr)), acc.y);
    let d = fsub(m, acc.x, xr);
    let e = fsub(m, xr, acc.x);
    let i = finv(m, d);
    lemma_eqm_ops(m, acc.x, xr);
    lemma_eqm_ops(m, xr, acc.x);
    lemma_fsub_zero(m, acc.x, xr);
    lemma_fsub_zero(m, xr, acc.x);
    let l2 = second_slope(m, acc, p);
    let twice = fmul(m, 2nat % m, acc.y);
    let quotient = fmul(m, twice, i);
    lemma_small_mod(2, m);
    lemma_small_mod(1, m);
    lemma_eqm_ops(m, 2, acc.y);
    lemma_eqm_ops(m, twice, i);
    lemma_eqm_ops(m, quotient, l1);
    lemma_eqm_ops(m, d, i);
    lemma_eqm_ops(m, e, l2);
    lemma_eqm_ops(m, l1, d);
    lemma_eqm_ops(m, inner.y, acc.y);
    let (di, ii, li, ya) = (d as int, i as int, l1 as int, acc.y as int);
    // (x_r - x_a) lambda2 = -d (2 y_a i - lambda1) = d lambda1 - 2 y_a
    lemma_eqm_ring(m, twice as int, 2 * ya, ii, ii);
    lemma_eqm_ring(m, quotient as int, 2 * ya * ii, li, li);
    lemma_eqm_ring(m, 0, 0, di, acc.x - xr);
    lemma_eqm_ring(m, e as int, -di, l2 as int, 2 * ya * ii - li);
    assert(-di * (2 * ya * ii - li) == li * di - (2 * ya) * (di * ii)) by (nonlinear_arith);
    lemma_eqm_ring(m, 2 * ya, 2 * ya, di * ii, 1);
    lemma_eqm_ring(m, li * di, li * di, (2 * ya) * (di * ii), (2 * ya) * 1);
    // y_r - y_a = (lambda1 d - y_a) - y_a
    lemma_eqm_ring(m, fmul(m, l1, d) as int, li * di, ya, ya);
    lemma_eqm_ring(m, inner.y as int, li * di - ya, ya, ya);
    assert(li * di - (2 * ya) * 1 == li * di - ya - ya);
    lemma_eqm_reduced(m, fmul(m, e, l2), fsub(m, inner.y, acc.y));
    lemma_quotient_forced(m, e, l2, fsub(m, inner.y, acc.y));
}

/// Over a field, the slopes of a step give back the ordinate of the
/// accumulator, which the row does not hold.
pub proof fn lemma_accumulator_y(m: nat, acc: Pt, p: Pt)
    requires
        is_field(m),
        acc.x < m && acc.y < m && p.x < m && p.y < m,
        step_exists(m, acc, p),
    ensures
        accumulator_y(m, first_slope(m, acc, p), second_slope(m, acc, p), acc.x, p.x) == acc.y,
{
    let l1 = first_slope(m, acc, p);
    let l2 = second_slope(m, acc, p);
    let xr = inner_x(m, acc, p);
    let d = fsub(m, acc.x, xr);
    let i = finv(m, d);
    let half = finv(m, 2nat % m);
    let twice = fmul(m, 2nat % m, acc.y);
    let quotient = fmul(m, twice, i);
    let sum = fadd(m, l1, l2);
    lemma_small_mod(2, m);
    lemma_small_mod(1, m);
    lemma_eqm_ops(m, fsub(m, acc.y, p.y), finv(m, fsub(m, acc.x, p.x)));
    lemma_eqm_ops(m, fsub(m, fmul(m, l1, l1), acc.x), p.x);
    lemma_eqm_ops(m, acc.x, xr);
    lemma_fsub_zero(m, acc.x, xr);
    lemma_eqm_ops(m, 2, acc.y);
    lemma_eqm_ops(m, twice, i);
    lemma_eqm_ops(m, quotient, l1);
    lemma_eqm_ops(m, l1, l2);
    lemma_eqm_ops(m, sum, d);
    lemma_eqm_ops(m, fmul(m, sum, d), half);
    lemma_eqm_ops(m, d, i);
    lemma_eqm_ops(m, 2, half);
    let (di, ii, li, ya, hi) = (d as int, i as int, l1 as int, acc.y as int, half as int);
    // lambda1 + lambda2 = 2 y_a i
    lemma_eqm_ring(m, twice as int, 2 * ya, ii, ii);
    lemma_eqm_ring(m, quotient as int, 2 * ya * ii, li, li);
    lemma_eqm_ring(m, li, li, l2 as int, 2 * ya * ii - li);
    assert(li + (2 * ya * ii - li) == 2 * ya * ii);
    // ((lambda1 + lambda2) d) half = (ya (d i)) (2 half) = ya
    lemma_eqm_ring(m, sum as int, 2 * ya * ii, di, di);
    lemma_eqm_ring(m, fmul(m, sum, d) as int, 2 * ya * ii * di, hi, hi);
    assert(2 * ya * ii * di * hi == (ya * (di * ii)) * (2 * hi)) by (nonlinear_arith);
    lemma_eqm_ring(m, ya, ya, di * ii, 1);
    lemma_eqm_ring(m, ya * (di * ii), ya * 1, 2 * hi, 1);
    assert(ya * 1 * 1 == ya) by (nonlinear_arith);
    lemma_eqm_reduced(m, fmul(m, fmul(m, sum, d), half), acc.y);
}

/// Over a field, the values of a step make the expression of the first
/// polynomial vanish: `lambda2^2 - x_a' - lambda1^2 + x_p = 0`.
pub proof fn lemma_first_vanishes(m: nat, acc: Pt, p: Pt)
    requires
        m > 0,
        acc.x < m && p.x < m,
    ensures
        ({
            let (l1, l2) = (first_slope(m, acc, p), second_slope(m, acc, p));
            fadd(m, fsub(m, fsub(m, fmul(m, l2, l2), stepped(m, acc, p).x), fmul(m, l1, l1)), p.x)
        }) == 0,
{
    let (l1, l2) = (first_slope(m, acc, p), second_slope(m, acc, p));
    let xr = inner_x(m, acc, p);
    let next = stepped(m, acc, p);
    let (s1, s2) = (fmul(m, l1, l1), fmul(m, l2, l2));
    lemma_eqm_ops(m, s1, acc.x);
    lemma_eqm_ops(m, fsub(m, s1, acc.x), p.x);
    lemma_eqm_ops(m, s2, acc.x);
    lemma_eqm_ops(m, fsub(m, s2, acc.x), xr);
    lemma_eqm_ops(m, s2, next.x);
    lemma_eqm_ops(m, fsub(m, s2, next.x), s1);
    lemma_eqm_ops(m, fsub(m, fsub(m, s2, next.x), s1), p.x);
    let (a, b, xa, xp) = (s1 as int, s2 as int, acc.x as int, p.x as int);
    lemma_eqm_ring(m, fsub(m, s1, acc.x) as int, a - xa, xp, xp);
    lemma_eqm_ring(m, fsub(m, s2, acc.x) as int, b - xa, xr as int, a - xa - xp);
    lemma_eqm_ring(m, b, b, next.x as int, b - xa - (a - xa - xp));
    lemma_eqm_ring(m, fsub(m, s2, next.x) as int, b - (b - xa - (a - xa - xp)), a, a);
    lemma_eqm_ring(
        m,
        fsub(m, fsub(m, s2, next.x), s1) as int,
        b - (b - xa - (a - xa - xp)) - a,
        xp,
        xp,
    );
    lemma_small_mod(0, m);
    lemma_eqm_reduced(m, fadd(m, fsub(m, fsub(m, s2, next.x), s1), p.x), 0);
}

/// Over a field, the values of a step and of the step after it make the
/// expression of the second polynomial vanish:
/// `lambda2 (x_a - x_a') - y_a - y_a' = 0`, with both ordinates given by
/// the slopes of their rows.
pub proof fn lemma_second_vanishes(m: nat, acc: Pt, p: Pt, after: Pt)
    requires
        is_field(m),
        acc.x < m && acc.y < m && p.x < m && p.y < m && after.x < m && after.y < m,
        step_exists(m, acc, p),
        step_exists(m, stepped(m, acc, p), after),
    ensures
        ({
            let next = stepped(m, acc, p);
            let y_cur = accumulator_y(
                m,
                first_slope(m, acc, p),
                second_slope(m, acc, p),
                acc.x,
                p.x,
            );
            let y_next = accumulator_y(
                m,
                first_slope(m, next, after),
                second_slope(m, next, after),
                next.x,
                after.x,
            );
            fsub(m, fsub(m, fmul(m, second_slope(m, acc, p), fsub(m, acc.x, next.x)), y_cur), y_next)
        }) == 0,
{
    let next = stepped(m, acc, p);
    let l2 = second_slope(m, acc, p);
    let xr = inner_x(m, acc, p);
    lemma_eqm_ops(m, fsub(m, fmul(m, l2, l2), acc.x), xr);
    lemma_eqm_ops(m, fmul(m, l2, fsub(m, acc.x, next.x)), acc.y);
    lemma_accumulator_y(m, acc, p);
    lemma_accumulator_y(m, next, after);
    lemma_fsub_zero(m, fsub(m, fmul(m, l2, fsub(m, acc.x, next.x)), acc.y), next.y);
}

} // verus!

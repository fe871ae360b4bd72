//! A finite check of the group law: the multiples `[0] T, [1] T, ...` of a
//! point of small order, laid out in a table, are checked pair by pair.
//! Where the check passes, the multiples add as the group law says and are
//! faithful, so what is proved of the multiplications holds of the point.

use crate::ecc::add_complete::{add_complete_points, no_complete_sum};
use crate::ecc::curve::{add_complete, Affine, identity, negate, Pt};
use crate::ecc::decompose::bits_be;
use crate::ecc::fixed_base::points_of;
use crate::ecc::mul::{mul_defined, mul_var, negate_point};
use crate::ecc::multiples::{
    adds, distinguishes, is_faithful, is_multiples, lemma_mul_var_by_scalar, negates, reduced,
    separates, vanishes, wraps,
};
use crate::field::{BaseField, FieldElement};
use vstd::arithmetic::div_mod::{
    lemma_add_mod_noop, lemma_mod_bound, lemma_mod_multiples_vanish, lemma_small_mod,
};
use vstd::arithmetic::power2::pow2;
use vstd::prelude::*;

verus! {

/// The multiples that a table of points stands for: `[a] T` is the entry at
/// `a` modulo the length of the table.
pub open spec fn table_multiples(points: Seq<Pt>) -> spec_fn(int) -> Pt {
    |a: int| points[a % (points.len() as int)]
}

/// The place of `[-a] T` in a table of `n` multiples.
pub open spec fn opposite(n: int, a: int) -> int {
    if a == 0 {
        0
    } else {
        n - a
    }
}

/// The place of `[a + b] T` in a table of `n` multiples.
pub open spec fn wrapped(n: int, a: int, b: int) -> int {
    if a + b >= n {
        a + b - n
    } else {
        a + b
    }
}

/// Entry `a` is reduced, is the identity only in the first place, and its
/// inverse stands in the opposite place.
pub open spec fn entry_ok(m: nat, points: Seq<Pt>, a: int) -> bool {
    &&& points[a].x < m && points[a].y < m
    &&& (points[a].x == 0) == (a == 0)
    &&& negate(m, points[a]) == points[opposite(points.len() as int, a)]
}

/// Entries `a` and `b` have a complete sum, which stands in the place of
/// the sum of their scalars; they differ unless they are the same entry,
/// and share an abscissa only where they are the same or opposite.
pub open spec fn pair_ok(m: nat, points: Seq<Pt>, a: int, b: int) -> bool {
    let n = points.len() as int;
    &&& !no_complete_sum(m, points[a], points[b])
    &&& add_complete(m, points[a], points[b]) == points[wrapped(n, a, b)]
    &&& points[a] == points[b] ==> a == b
    &&& points[a].x == points[b].x ==> a == b || a == opposite(n, b)
}

/// The table holds the multiples of its second entry, a point of order
/// above two, and they add as the group law says.
pub open spec fn is_group_table(m: nat, points: Seq<Pt>) -> bool {
    &&& points.len() > 2
    &&& points[0] == identity()
    &&& forall|a: int| 0 <= a < points.len() ==> #[trigger] entry_ok(m, points, a)
    &&& forall|a: int, b: int|
        0 <= a < points.len() && 0 <= b < points.len() ==> #[trigger] pair_ok(m, points, a, b)
}

/// Modulo `n`, the negative of a scalar stands in the opposite place.
proof fn lemma_opposite(n: int, a: int)
    requires
        n > 0,
    ensures
        (-a) % n == opposite(n, a % n),
{
    let r = a % n;
    lemma_mod_bound(a, n);
    vstd::arithmetic::div_mod::lemma_fundamental_div_mod(a, n);
    if r == 0 {
        assert(-a == n * (-(a / n)) + 0) by (nonlinear_arith)
            requires
                a == n * (a / n) + r,
                r == 0,
        ;
        lemma_mod_multiples_vanish(-(a / n), 0, n);
        lemma_small_mod(0, n as nat);
    } else {
        assert(-a == n * (-(a / n) - 1) + (n - r)) by (nonlinear_arith)
            requires
                a == n * (a / n) + r,
        ;
        lemma_mod_multiples_vanish(-(a / n) - 1, n - r, n);
        lemma_small_mod((n - r) as nat, n as nat);
    }
}

/// Modulo `n`, the sum of two scalars stands in the place of their sum.
proof fn lemma_wrapped(n: int, a: int, b: int)
    requires
        n > 0,
    ensures
        (a + b) % n == wrapped(n, a % n, b % n),
{
    lemma_mod_bound(a, n);
    lemma_mod_bound(b, n);
    lemma_add_mod_noop(a, b, n);
    let s = a % n + b % n;
    if s >= n {
        lemma_mod_multiples_vanish(1, s - n, n);
        assert(n * 1 + (s - n) == s);
        lemma_small_mod((s - n) as nat, n as nat);
    } else {
        lemma_small_mod(s as nat, n as nat);
    }
}

/// The multiples of a table that passes the check add as the group law
/// says, and are faithful.
pub proof fn lemma_group_table(m: nat, points: Seq<Pt>)
    requires
        is_group_table(m, points),
    ensures
        is_multiples(m, points[1], points.len(), table_multiples(points)),
        is_faithful(m, points.len(), table_multiples(points)),
{
    let n = points.len() as int;
    let mult = table_multiples(points);
    lemma_small_mod(0, n as nat);
    lemma_small_mod(1, n as nat);
    assert forall|a: int| #[trigger] vanishes(n as nat, mult, a) by {
        lemma_mod_bound(a, n);
        assert(entry_ok(m, points, a % n));
    }
    assert forall|a: int| #[trigger] reduced(m, mult, a) by {
        lemma_mod_bound(a, n);
        assert(entry_ok(m, points, a % n));
    }
    assert forall|a: int| #[trigger] negates(m, mult, a) by {
        lemma_mod_bound(a, n);
        assert(entry_ok(m, points, a % n));
        lemma_opposite(n, a);
    }
    assert forall|a: int, b: int| #[trigger] wraps(n as nat, mult, a, b) by {}
    assert forall|a: int, b: int| #[trigger] adds(m, mult, a, b) by {
        lemma_mod_bound(a, n);
        lemma_mod_bound(b, n);
        assert(pair_ok(m, points, a % n, b % n));
        lemma_wrapped(n, a, b);
    }
    assert forall|a: int, b: int| #[trigger] distinguishes(n as nat, mult, a, b) by {
        lemma_mod_bound(a, n);
        lemma_mod_bound(b, n);
        assert(pair_ok(m, points, a % n, b % n));
    }
    assert forall|a: int, b: int| #[trigger] separates(n as nat, mult, a, b) by {
        lemma_mod_bound(a, n);
        lemma_mod_bound(b, n);
        assert(pair_ok(m, points, a % n, b % n));
        lemma_opposite(n, b);
    }
}

/// For a table that passes the check, of `2^(n-1)` entries and an offset
/// between two and `2^(n-1)` more, the ladder over the `n` bits of a scalar
/// and the offset has every row to witness, and gives the entry of the
/// scalar.
pub proof fn lemma_table_ladder(m: nat, points: Seq<Pt>, k: nat, n: nat, offset: nat)
    requires
        is_group_table(m, points),
        n > 0,
        points.len() == pow2((n - 1) as nat) + offset,
        2 <= offset <= pow2((n - 1) as nat),
    ensures
        mul_defined(m, points[1], bits_be((k + offset) % points.len(), n)),
        mul_var(m, points[1], bits_be((k + offset) % points.len(), n)) == points[(k % points.len())
            as int],
{
    lemma_group_table(m, points);
    lemma_mul_var_by_scalar(m, points[1], points.len(), table_multiples(points), k, n, offset);
}

/// Whether two points have the same coordinates.
fn same_point<F: BaseField>(p: &Affine<F>, q: &Affine<F>) -> (r: bool)
    ensures
        r == (p@ == q@),
{
    p.x.equals(&q.x) && p.y.equals(&q.y)
}

/// Checks one entry of the table.
fn check_entry<F: BaseField>(points: &Vec<Affine<F>>, a: usize) -> (r: bool)
    requires
        a < points.len(),
    ensures
        r == entry_ok(F::modulus(), points_of(points@), a as int),
{
    proof {
        F::lemma_modulus();
        lemma_small_mod(0, F::modulus());
        points[a as int].x.lemma_value();
        points[a as int].y.lemma_value();
    }
    let n: usize = points.len();
    let zero = F::from_u64(0);
    let back: usize = if a == 0 {
        0
    } else {
        n - a
    };
    points[a].x.equals(&zero) == (a == 0) && same_point(&negate_point(&points[a]), &points[back])
}

/// Checks one pair of entries of the table.
fn check_pair<F: BaseField>(points: &Vec<Affine<F>>, a: usize, b: usize) -> (r: bool)
    requires
        a < points.len(),
        b < points.len(),
    ensures
        r == pair_ok(F::modulus(), points_of(points@), a as int, b as int),
{
    let n: usize = points.len();
    let place: usize = if b >= n - a {
        b - (n - a)
    } else {
        a + b
    };
    let back: usize = if b == 0 {
        0
    } else {
        n - b
    };
    let sum = match add_complete_points(&points[a], &points[b]) {
        None => {
            return false;
        },
        Some(row) => row.sum,
    };
    if !same_point(&sum, &points[place]) {
        return false;
    }
    if same_point(&points[a], &points[b]) && a != b {
        return false;
    }
    if points[a].x.equals(&points[b].x) && a != b && a != back {
        return false;
    }
    true
}

/// Checks that the table holds the multiples of its second entry, a point
/// of order above two, and that they add as the group law says: every
/// entry and every pair of entries is looked at.
pub fn is_group<F: BaseField>(points: &Vec<Affine<F>>) -> (r: bool)
    ensures
        r == is_group_table(F::modulus(), points_of(points@)),
{
    let ghost m = F::modulus();
    let ghost pts = points_of(points@);
    let n: usize = points.len();
    proof {
        F::lemma_modulus();
        lemma_small_mod(0, m);
    }
    if n <= 2 {
        return false;
    }
    let zero = Affine { x: F::from_u64(0), y: F::from_u64(0) };
    if !same_point(&points[0], &zero) {
        return false;
    }
    let mut a: usize = 0;
    while a < n
        invariant
            a <= n,
            n == points.len(),
            m == F::modulus(),
            pts == points_of(points@),
            forall|i: int| 0 <= i < a ==> #[trigger] entry_ok(m, pts, i),
            forall|i: int, j: int| 0 <= i < a && 0 <= j < n ==> #[trigger] pair_ok(m, pts, i, j),
        decreases n - a,
    {
        if !check_entry(points, a) {
            return false;
        }
        let mut b: usize = 0;
        while b < n
            invariant
                a < n,
                b <= n,
                n == points.len(),
                m == F::modulus(),
                pts == points_of(points@),
                forall|j: int| 0 <= j < b ==> #[trigger] pair_ok(m, pts, a as int, j),
            decreases n - b,
        {
            if !check_pair(points, a, b) {
                return false;
            }
            b = b + 1;
        }
        a = a + 1;
    }
    true
}

} // verus!

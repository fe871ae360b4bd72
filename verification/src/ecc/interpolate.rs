//! Interpolation through the points `0, 1, 2, ...`: the polynomial of least
//! degree that takes given values there, built one point at a time.

use crate::ecc::poly::{eval, poly_eval, values};
use crate::field::{
    BaseField, eqm, fadd, FieldElement, finv, fmul, fsub, lemma_eqm_ops, lemma_eqm_reduced,
    lemma_eqm_ring, lemma_finv,
};
use vstd::arithmetic::div_mod::lemma_small_mod;
use vstd::prelude::*;

verus! {

/// Coefficient `i` of `s`, or zero beyond its end.
pub open spec fn coefficient(s: Seq<nat>, i: int) -> nat {
    if 0 <= i < s.len() {
        s[i]
    } else {
        0
    }
}

/// The coefficients of `p + c * n`, as many as `n` has.
pub open spec fn add_scaled(m: nat, p: Seq<nat>, c: nat, n: Seq<nat>) -> Seq<nat> {
    Seq::new(n.len(), |i: int| fadd(m, coefficient(p, i), fmul(m, c, n[i])))
}

/// The coefficients of `n * (X - a)`, one more than `n` has.
pub open spec fn times_linear(m: nat, n: Seq<nat>, a: nat) -> Seq<nat> {
    Seq::new(
        n.len() + 1,
        |i: int| fsub(m, coefficient(n, i - 1), fmul(m, a, coefficient(n, i))),
    )
}

/// The coefficients of `(X - 0)(X - 1)...(X - (j - 1))`.
pub open spec fn node_poly(m: nat, j: nat) -> Seq<nat>
    decreases j,
{
    if j == 0 {
        seq![1nat % m]
    } else {
        times_linear(m, node_poly(m, (j - 1) as nat), ((j - 1) as nat) % m)
    }
}

/// The value of the node polynomial of `j` at `j`, by which an
/// interpolation step divides.
pub open spec fn node_value(m: nat, j: nat) -> nat {
    poly_eval(m, node_poly(m, j), j % m)
}

/// The interpolating coefficients through the first `j` of the values `ys`:
/// those through the first `j - 1`, corrected at the point `j - 1` by a
/// multiple of the node polynomial that vanishes at the points before it.
pub open spec fn newton(m: nat, ys: Seq<nat>, j: nat) -> Seq<nat>
    decreases j,
{
    if j == 0 {
        Seq::empty()
    } else {
        let i = (j - 1) as nat;
        let p = newton(m, ys, i);
        let c = fmul(m, fsub(m, ys[i as int], poly_eval(m, p, i % m)), finv(m, node_value(m, i)));
        add_scaled(m, p, c, node_poly(m, i))
    }
}

/// No node value among the first `n` is zero, so that `n` values can be
/// interpolated.
pub open spec fn nodes_invertible(m: nat, n: nat) -> bool {
    forall|j: nat| j < n ==> node_value(m, j) != 0
}

/// The value of the polynomial with coefficients `c` at the integer `i`.
pub open spec fn value_at(m: nat, c: Seq<nat>, i: int) -> nat {
    poly_eval(m, c, (i as nat) % m)
}

/// The coefficients `c` take the values `ys` at `0, 1, 2, ...`.
pub open spec fn interpolates(m: nat, c: Seq<nat>, ys: Seq<nat>) -> bool {
    forall|i: int| 0 <= i < ys.len() ==> #[trigger] value_at(m, c, i) == ys[i]
}

/// A polynomial's value unfolds at its constant term.
proof fn lemma_eval_unfold(m: nat, c: Seq<nat>, x: nat)
    requires
        m > 0,
    ensures
        eqm(
            m,
            poly_eval(m, c, x) as int,
            (coefficient(c, 0) + x * poly_eval(
                m,
                if c.len() == 0 {
                    c
                } else {
                    c.drop_first()
                },
                x,
            )) as int,
        ),
        poly_eval(m, c, x) < m,
{
    if c.len() == 0 {
        assert(x * 0 == 0);
    } else {
        let rest = poly_eval(m, c.drop_first(), x);
        lemma_eqm_ops(m, x, rest);
        lemma_eqm_ops(m, c[0], fmul(m, x, rest));
        lemma_eqm_ring(m, c[0] as int, c[0] as int, fmul(m, x, rest) as int, (x * rest) as int);
    }
}

/// The value of `p + c * n` is the value of `p` plus `c` times that of `n`.
proof fn lemma_eval_add_scaled(m: nat, p: Seq<nat>, c: nat, n: Seq<nat>, x: nat)
    requires
        m > 0,
        p.len() <= n.len(),
    ensures
        poly_eval(m, add_scaled(m, p, c, n), x) == fadd(
            m,
            poly_eval(m, p, x),
            fmul(m, c, poly_eval(m, n, x)),
        ),
    decreases n.len(),
{
    let r = add_scaled(m, p, c, n);
    let ep = poly_eval(m, p, x);
    let en = poly_eval(m, n, x);
    lemma_eqm_ops(m, c, en);
    lemma_eqm_ops(m, ep, fmul(m, c, en));
    if n.len() == 0 {
        assert(c * 0 == 0);
        lemma_small_mod(0, m);
    } else {
        let p1 = if p.len() == 0 {
            p
        } else {
            p.drop_first()
        };
        let n1 = n.drop_first();
        assert(r.drop_first() =~= add_scaled(m, p1, c, n1));
        lemma_eval_add_scaled(m, p1, c, n1, x);
        let ep1n = poly_eval(m, p1, x);
        let en1n = poly_eval(m, n1, x);
        let (ep1, en1) = (ep1n as int, en1n as int);
        let er1 = poly_eval(m, r.drop_first(), x) as int;
        let p0 = coefficient(p, 0) as int;
        let n0 = n[0] as int;
        let (x, c, ep, en) = (x as int, c as int, ep as int, en as int);
        lemma_eval_unfold(m, r, x as nat);
        lemma_eval_unfold(m, p, x as nat);
        lemma_eval_unfold(m, n, x as nat);
        // r0 = p0 + c n0, er1 = ep1 + c en1
        lemma_eqm_ops(m, c as nat, n[0]);
        lemma_eqm_ops(m, coefficient(p, 0), fmul(m, c as nat, n[0]));
        lemma_eqm_ring(m, p0, p0, fmul(m, c as nat, n[0]) as int, c * n0);
        lemma_eqm_ops(m, c as nat, en1n);
        lemma_eqm_ops(m, ep1n, fmul(m, c as nat, en1n));
        lemma_eqm_ring(m, ep1, ep1, fmul(m, c as nat, en1n) as int, c * en1);
        lemma_eqm_ring(m, x, x, er1, ep1 + c * en1);
        lemma_eqm_ring(m, r[0] as int, p0 + c * n0, x * er1, x * (ep1 + c * en1));
        // the right-hand side
        lemma_eqm_ring(m, c, c, en, n0 + x * en1);
        lemma_eqm_ring(m, ep, p0 + x * ep1, fmul(m, c as nat, en as nat) as int, c * en);
        lemma_eqm_ring(m, ep, p0 + x * ep1, c * en, c * (n0 + x * en1));
        lemma_eqm_ring(m, ep, ep, fmul(m, c as nat, en as nat) as int, c * en);
        assert((p0 + c * n0) + x * (ep1 + c * en1) == (p0 + x * ep1) + c * (n0 + x * en1))
            by (nonlinear_arith);
        let (x, c, ep, en) = (x as nat, c as nat, ep as nat, en as nat);
        lemma_eqm_reduced(m, poly_eval(m, r, x), fadd(m, ep, fmul(m, c, en)));
    }
}

/// The value of `n * (X - a)` is the value of `n` times `x - a`.
proof fn lemma_eval_times_linear(m: nat, n: Seq<nat>, a: nat, x: nat)
    requires
        m > 0,
    ensures
        poly_eval(m, times_linear(m, n, a), x) == fmul(m, poly_eval(m, n, x), fsub(m, x, a)),
    decreases n.len(),
{
    let t = times_linear(m, n, a);
    let en_n = poly_eval(m, n, x);
    let d_n = fsub(m, x, a);
    lemma_eqm_ops(m, x, a);
    lemma_eqm_ops(m, en_n, d_n);
    lemma_eval_unfold(m, t, x);
    lemma_eval_unfold(m, n, x);
    let n0_n = coefficient(n, 0);
    let n1 = if n.len() == 0 {
        n
    } else {
        n.drop_first()
    };
    let en1_n = poly_eval(m, n1, x);
    let t1 = t.drop_first();
    let et1 = poly_eval(m, t1, x) as int;
    let (xi, ai, en, d, n0, en1) = (
        x as int,
        a as int,
        en_n as int,
        d_n as int,
        n0_n as int,
        en1_n as int,
    );
    // t0 = 0 - a n0
    lemma_eqm_ops(m, a, n0_n);
    lemma_eqm_ops(m, 0, fmul(m, a, n0_n));
    lemma_eqm_ring(m, 0, 0, fmul(m, a, n0_n) as int, ai * n0);
    if n.len() == 0 {
        assert(t1 =~= Seq::<nat>::empty());
        assert(ai * 0 == 0);
        assert(xi * 0 == 0);
        lemma_small_mod(0, m);
        assert(en == 0);
        assert(0 * d == 0);
        lemma_eqm_reduced(m, poly_eval(m, t, x), fmul(m, en_n, d_n));
    } else {
        let u = times_linear(m, n1, a);
        lemma_eval_times_linear(m, n1, a, x);
        lemma_eval_unfold(m, u, x);
        lemma_eval_unfold(m, t1, x);
        lemma_eqm_ops(m, en1_n, d_n);
        // t1 and u differ in the constant term alone, by n0
        assert(t1.drop_first() =~= u.drop_first());
        let n10_n = coefficient(n1, 0);
        let n10 = n10_n as int;
        lemma_eqm_ops(m, a, n10_n);
        lemma_eqm_ops(m, 0, fmul(m, a, n10_n));
        lemma_eqm_ops(m, n0_n, fmul(m, a, n10_n));
        lemma_eqm_ring(m, 0, 0, fmul(m, a, n10_n) as int, ai * n10);
        lemma_eqm_ring(m, n0, n0, fmul(m, a, n10_n) as int, ai * n10);
        assert(t1[0] == fsub(m, n0_n, fmul(m, a, n10_n)));
        assert(u[0] == fsub(m, 0, fmul(m, a, n10_n)));
        let tail = (x * poly_eval(m, u.drop_first(), x)) as int;
        lemma_eqm_ring(m, t1[0] as int, n0 - ai * n10, tail, tail);
        lemma_eqm_ring(m, u[0] as int, 0 - ai * n10, tail, tail);
        // et1 = n0 + eu, eu = en1 * d
        let eu = poly_eval(m, u, x) as int;
        lemma_eqm_ring(m, n0, n0, eu, (0 - ai * n10) + tail);
        assert(eqm(m, et1, n0 + eu));
        lemma_eqm_ring(m, en1, en1, d, xi - ai);
        lemma_eqm_ring(m, n0, n0, eu, en1 * (xi - ai));
        lemma_eqm_ring(m, xi, xi, et1, n0 + en1 * (xi - ai));
        lemma_eqm_ring(m, t[0] as int, 0 - ai * n0, xi * et1, xi * (n0 + en1 * (xi - ai)));
        lemma_eqm_ring(m, en, n0 + xi * en1, d, xi - ai);
        assert((0 - ai * n0) + xi * (n0 + en1 * (xi - ai)) == (n0 + xi * en1) * (xi - ai))
            by (nonlinear_arith);
        lemma_eqm_reduced(m, poly_eval(m, t, x), fmul(m, en_n, d_n));
    }
}

/// The coefficients of `p + c * n`.
fn add_scaled_exec<F: FieldElement>(p: &Vec<F>, c: &F, n: &Vec<F>) -> (r: Vec<F>)
    requires
        p.len() <= n.len(),
    ensures
        r.len() == n.len(),
        values(r@) == add_scaled(F::modulus(), values(p@), c.value(), values(n@)),
{
    proof {
        F::lemma_modulus();
        lemma_small_mod(0, F::modulus());
    }
    let zero = F::from_u64(0);
    let mut r: Vec<F> = Vec::new();
    let mut i: usize = 0;
    while i < n.len()
        invariant
            i <= n.len(),
            p.len() <= n.len(),
            zero.value() == 0,
            r.len() == i,
            forall|k: int|
                0 <= k < i ==> (#[trigger] r[k]).value() == add_scaled(
                    F::modulus(),
                    values(p@),
                    c.value(),
                    values(n@),
                )[k],
        decreases n.len() - i,
    {
        let pi = if i < p.len() {
            p[i]
        } else {
            zero
        };
        r.push(pi.plus(&c.times(&n[i])));
        i = i + 1;
    }
    proof {
        assert(values(r@) =~= add_scaled(F::modulus(), values(p@), c.value(), values(n@)));
    }
    r
}

/// The coefficients of `n * (X - a)`.
fn times_linear_exec<F: FieldElement>(n: &Vec<F>, a: &F) -> (r: Vec<F>)
    ensures
        r.len() == n.len() + 1,
        values(r@) == times_linear(F::modulus(), values(n@), a.value()),
{
    proof {
        F::lemma_modulus();
        lemma_small_mod(0, F::modulus());
    }
    let zero = F::from_u64(0);
    let mut r: Vec<F> = Vec::new();
    let mut i: usize = 0;
    while i < n.len()
        invariant
            i <= n.len(),
            zero.value() == 0,
            r.len() == i,
            forall|k: int|
                0 <= k < i ==> (#[trigger] r[k]).value() == times_linear(
                    F::modulus(),
                    values(n@),
                    a.value(),
                )[k],
        decreases n.len() - i,
    {
        let below = if i > 0 {
            n[i - 1]
        } else {
            zero
        };
        r.push(below.minus(&a.times(&n[i])));
        i = i + 1;
    }
    let top = if i > 0 {
        n[i - 1]
    } else {
        zero
    };
    r.push(top.minus(&a.times(&zero)));
    proof {
        assert(values(r@) =~= times_linear(F::modulus(), values(n@), a.value()));
    }
    r
}

/// The coefficients of the polynomial of degree below `ys.len()` that takes
/// the value `ys[i]` at `i`. It exists unless a node value is zero, which in
/// a prime field means that there are more points than field elements.
pub fn interpolate<F: BaseField>(ys: &Vec<F>) -> (r: Option<Vec<F>>)
    ensures
        r is Some <==> nodes_invertible(F::modulus(), ys.len() as nat),
        r matches Some(c) ==> c.len() == ys.len() && values(c@) == newton(
            F::modulus(),
            values(ys@),
            ys.len() as nat,
        ) && interpolates(F::modulus(), values(c@), values(ys@)),
{
    proof {
        F::lemma_modulus();
        lemma_small_mod(0, F::modulus());
        lemma_small_mod(1, F::modulus());
    }
    let ghost m = F::modulus();
    let mut p: Vec<F> = Vec::new();
    let mut n: Vec<F> = Vec::new();
    n.push(F::from_u64(1));
    proof {
        assert(values(n@) =~= node_poly(m, 0));
        assert(values(p@) =~= newton(m, values(ys@), 0));
    }
    let mut j: usize = 0;
    while j < ys.len()
        invariant
            m == F::modulus(),
            m > 2,
            j <= ys.len(),
            p.len() == j,
            n.len() == j + 1,
            values(n@) == node_poly(m, j as nat),
            values(p@) == newton(m, values(ys@), j as nat),
            forall|i: nat| i < j ==> node_value(m, i) != 0,
            forall|i: int| 0 <= i < j ==> #[trigger] value_at(m, values(p@), i) == ys[i].value(),
            forall|i: int| 0 <= i < j ==> #[trigger] value_at(m, values(n@), i) == 0,
        decreases ys.len() - j,
    {
        let at = F::from_u64(j as u64);
        let e = eval(&p, &at);
        let nj = eval(&n, &at);
        assert(nj.value() == node_value(m, j as nat));
        let inv = match nj.invert() {
            None => {
                return None;
            },
            Some(inv) => inv,
        };
        proof {
            lemma_finv(m, nj.value(), inv.value());
        }
        let c = ys[j].minus(&e).times(&inv);
        let p_next = add_scaled_exec(&p, &c, &n);
        let n_next = times_linear_exec(&n, &at);
        proof {
            let (pv, nv) = (values(p@), values(n@));
            let xj = (j as nat) % m;
            assert(at.value() == xj);
            lemma_small_mod(0, m);
            assert forall|i: int| 0 <= i <= j implies #[trigger] value_at(m, values(n_next@), i)
                == 0 by {
                let x = (i as nat) % m;
                assert(value_at(m, nv, i) == poly_eval(m, nv, x));
                lemma_eval_times_linear(m, nv, xj, x);
                let d = fsub(m, x, xj);
                if i < j {
                    assert(0 * d == 0);
                } else {
                    assert(d == 0);
                    assert(nj.value() * 0 == 0);
                }
            }
            assert forall|i: int| 0 <= i <= j implies #[trigger] value_at(m, values(p_next@), i)
                == ys[i].value() by {
                let x = (i as nat) % m;
                ys[i].lemma_value();
                assert(value_at(m, pv, i) == poly_eval(m, pv, x));
                assert(value_at(m, nv, i) == poly_eval(m, nv, x));
                lemma_eval_add_scaled(m, pv, c.value(), nv, x);
                if i < j {
                    assert(c.value() * 0 == 0);
                    lemma_small_mod(ys[i].value(), m);
                } else {
                    let yn = ys[j as int].value();
                    let (evn, njn, ivn) = (e.value(), nj.value(), inv.value());
                    let diffn = fsub(m, yn, evn);
                    let (y, ev, njv, iv, diff, cv) = (
                        yn as int,
                        evn as int,
                        njn as int,
                        ivn as int,
                        diffn as int,
                        c.value() as int,
                    );
                    lemma_eqm_ops(m, yn, evn);
                    lemma_eqm_ops(m, diffn, ivn);
                    lemma_eqm_ops(m, c.value(), njn);
                    lemma_eqm_ops(m, evn, fmul(m, c.value(), njn));
                    lemma_eqm_ops(m, njn, ivn);
                    // c nj = (y - e) (inv nj) = y - e
                    lemma_eqm_ring(m, cv, diff * iv, njv, njv);
                    assert((diff * iv) * njv == diff * (njv * iv)) by (nonlinear_arith);
                    lemma_small_mod(1, m);
                    lemma_eqm_ring(m, diff, y - ev, njv * iv, 1);
                    assert((y - ev) * 1 == y - ev);
                    lemma_eqm_ring(m, ev, ev, fmul(m, c.value(), njn) as int, y - ev);
                    lemma_eqm_reduced(m, fadd(m, evn, fmul(m, c.value(), njn)), yn);
                }
            }
            assert(j as nat + 1 == (j + 1) as nat);
            assert(values(ys@)[j as int] == ys[j as int].value());
        }
        p = p_next;
        n = n_next;
        j = j + 1;
    }
    proof {
        assert forall|i: int| 0 <= i < ys.len() implies #[trigger] value_at(m, values(p@), i)
            == values(ys@)[i] by {}
    }
    Some(p)
}

} // verus!

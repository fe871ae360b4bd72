//! Prime-field arithmetic as mathematics, and the interface that a field
//! element type offers to the gadgets.

use vstd::arithmetic::div_mod::{
    lemma_mul_mod_noop_general, lemma_small_mod,
};
use vstd::arithmetic::mul::{lemma_mul_is_associative, lemma_mul_is_commutative};
use vstd::arithmetic::power2::pow2;
use vstd::prelude::*;

verus! {

/// `a + b` in the integers modulo `m`.
pub open spec fn fadd(m: nat, a: nat, b: nat) -> nat {
    (a + b) % m
}

/// `a - b` in the integers modulo `m`.
pub open spec fn fsub(m: nat, a: nat, b: nat) -> nat {
    ((a as int - b as int) % (m as int)) as nat
}

/// `-a` in the integers modulo `m`.
pub open spec fn fneg(m: nat, a: nat) -> nat {
    fsub(m, 0, a)
}

/// `a * b` in the integers modulo `m`.
pub open spec fn fmul(m: nat, a: nat, b: nat) -> nat {
    (a * b) % m
}

/// `r` is the reduced multiplicative inverse of `a` modulo `m`.
pub open spec fn is_inverse(m: nat, a: nat, r: nat) -> bool {
    r < m && (a * r) % m == 1
}

/// The multiplicative inverse of `a` modulo `m`, where one exists.
pub open spec fn finv(m: nat, a: nat) -> nat {
    choose|r: nat| is_inverse(m, a, r)
}

/// `a / b` in the integers modulo `m`, where `b` has an inverse.
pub open spec fn fdiv(m: nat, a: nat, b: nat) -> nat {
    fmul(m, a, finv(m, b))
}

/// `r` is a reduced square root of `a` modulo `m`.
pub open spec fn is_root(m: nat, a: nat, r: nat) -> bool {
    r < m && (r * r) % m == a
}

/// `a` is a square modulo `m`.
pub open spec fn is_square(m: nat, a: nat) -> bool {
    exists|r: nat| is_root(m, a, r)
}

/// An element has at most one reduced inverse.
pub proof fn lemma_inverse_unique(m: nat, a: nat, r: nat, s: nat)
    requires
        is_inverse(m, a, r),
        is_inverse(m, a, s),
    ensures
        r == s,
{
    let mi = m as int;
    let (ai, ri, si) = (a as int, r as int, s as int);
    // r = r * (a * s) = (r * a) * s = s  (mod m)
    lemma_mul_mod_noop_general(ri, ai * si, mi);
    lemma_small_mod(r, m);
    lemma_small_mod(s, m);
    assert((ri * ((ai * si) % mi)) % mi == (ri * (ai * si)) % mi);
    assert(ri * 1 == ri);
    assert((ri * (ai * si)) % mi == ri);
    lemma_mul_is_associative(ri, ai, si);
    lemma_mul_is_commutative(ri, ai);
    assert(ri * (ai * si) == (ai * ri) * si);
    lemma_mul_mod_noop_general(ai * ri, si, mi);
    assert((((ai * ri) % mi) * (si % mi)) % mi == ((ai * ri) * si) % mi);
    assert(1 * si == si);
}

/// Any reduced inverse of `a` is the inverse that `finv` names.
pub proof fn lemma_finv(m: nat, a: nat, r: nat)
    requires
        is_inverse(m, a, r),
    ensures
        finv(m, a) == r,
{
    lemma_inverse_unique(m, a, r, finv(m, a));
}

/// Two reduced numbers differ by zero exactly when they are equal.
pub proof fn lemma_fsub_zero(m: nat, a: nat, b: nat)
    requires
        a < m,
        b < m,
    ensures
        fsub(m, a, b) == 0 <==> a == b,
        fsub(m, a, b) < m,
{
    let d = a as int - b as int;
    if d >= 0 {
        lemma_small_mod(d as nat, m);
    } else {
        lemma_small_mod((d + m) as nat, m);
        vstd::arithmetic::div_mod::lemma_mod_add_multiples_vanish(d, m as int);
    }
}

/// Two reduced numbers sum to zero exactly when one is the negation of the
/// other.
pub proof fn lemma_fadd_zero(m: nat, a: nat, b: nat)
    requires
        a < m,
        b < m,
    ensures
        fadd(m, a, b) == 0 <==> b == fneg(m, a),
        fneg(m, a) < m,
{
    lemma_fsub_zero(m, 0, a);
    if a == 0 {
        lemma_small_mod(b, m);
    } else {
        lemma_small_mod((m - a) as nat, m);
        vstd::arithmetic::div_mod::lemma_mod_add_multiples_vanish(-(a as int), m as int);
        assert(fneg(m, a) == m - a);
        if a + b < m {
            lemma_small_mod(a + b, m);
        } else {
            lemma_small_mod((a + b - m) as nat, m);
            vstd::arithmetic::div_mod::lemma_mod_add_multiples_vanish(a + b - m, m as int);
        }
    }
}

/// `a` and `b` are congruent modulo `m`.
pub open spec fn eqm(m: nat, a: int, b: int) -> bool {
    a % (m as int) == b % (m as int)
}

/// Congruence is kept by sums, differences and products.
pub proof fn lemma_eqm_ring(m: nat, a: int, b: int, c: int, d: int)
    requires
        m > 0,
        eqm(m, a, b),
        eqm(m, c, d),
    ensures
        eqm(m, a + c, b + d),
        eqm(m, a - c, b - d),
        eqm(m, a * c, b * d),
{
    let mi = m as int;
    vstd::arithmetic::div_mod::lemma_add_mod_noop(a, c, mi);
    vstd::arithmetic::div_mod::lemma_add_mod_noop(b, d, mi);
    vstd::arithmetic::div_mod::lemma_sub_mod_noop(a, c, mi);
    vstd::arithmetic::div_mod::lemma_sub_mod_noop(b, d, mi);
    lemma_mul_mod_noop_general(a, c, mi);
    lemma_mul_mod_noop_general(b, d, mi);
}

/// A remainder is congruent to what it is the remainder of; so the field
/// operations are congruent to the operations on integers.
pub proof fn lemma_eqm_ops(m: nat, a: nat, b: nat)
    requires
        m > 0,
    ensures
        eqm(m, (a % m) as int, a as int),
        eqm(m, fadd(m, a, b) as int, (a + b) as int),
        eqm(m, fsub(m, a, b) as int, a - b),
        eqm(m, fmul(m, a, b) as int, (a * b) as int),
        fadd(m, a, b) < m,
        fsub(m, a, b) < m,
        fmul(m, a, b) < m,
{
    let mi = m as int;
    vstd::arithmetic::div_mod::lemma_mod_twice(a as int, mi);
    vstd::arithmetic::div_mod::lemma_mod_twice((a + b) as int, mi);
    vstd::arithmetic::div_mod::lemma_mod_twice(a - b, mi);
    vstd::arithmetic::div_mod::lemma_mod_twice((a * b) as int, mi);
    vstd::arithmetic::div_mod::lemma_mod_bound((a + b) as int, mi);
    vstd::arithmetic::div_mod::lemma_mod_bound(a - b, mi);
    vstd::arithmetic::div_mod::lemma_mod_bound((a * b) as int, mi);
}

/// Two reduced numbers that are congruent are equal.
pub proof fn lemma_eqm_reduced(m: nat, a: nat, b: nat)
    requires
        a < m,
        b < m,
        eqm(m, a as int, b as int),
    ensures
        a == b,
{
    lemma_small_mod(a, m);
    lemma_small_mod(b, m);
}

/// Zero annihilates, one is neutral, and adding or taking away zero changes
/// nothing, for reduced numbers.
pub proof fn lemma_units(m: nat, a: nat)
    requires
        m > 1,
        a < m,
    ensures
        fmul(m, 0, a) == 0,
        fmul(m, a, 0) == 0,
        fmul(m, 1nat % m, a) == a,
        fmul(m, a, 1nat % m) == a,
        fadd(m, a, 0) == a,
        fadd(m, 0, a) == a,
        fsub(m, a, 0) == a,
        fsub(m, a, a) == 0,
        1nat % m == 1,
{
    lemma_small_mod(a, m);
    lemma_small_mod(0, m);
    lemma_small_mod(1, m);
    assert(0 * a == 0);
    assert(a * 0 == 0);
    assert(1 * a == a);
    assert(a * 1 == a);
}

/// A product with a factor that is zero is zero.
pub proof fn lemma_fmul_zero(m: nat, a: nat)
    requires
        m > 0,
    ensures
        fmul(m, 0, a) == 0,
        fmul(m, a, 0) == 0,
{
    lemma_small_mod(0, m);
    assert(0 * a == 0);
    assert(a * 0 == 0);
}

/// Dividing and multiplying by the same invertible number gives back the
/// number: `b (a / b) = a`.
pub proof fn lemma_div_mul(m: nat, a: nat, b: nat)
    requires
        m > 0,
        a < m,
        is_inverse(m, b, finv(m, b)),
    ensures
        fmul(m, b, fdiv(m, a, b)) == a,
        fmul(m, fdiv(m, a, b), b) == a,
{
    let i = finv(m, b);
    let (ai, bi, ii) = (a as int, b as int, i as int);
    let q = fdiv(m, a, b);
    lemma_eqm_ops(m, a, i);
    lemma_eqm_ops(m, b, q);
    lemma_eqm_ops(m, q, b);
    lemma_eqm_ops(m, b, i);
    lemma_small_mod(1, m);
    if m == 1 {
        lemma_eqm_reduced(m, fmul(m, b, q), a);
        lemma_eqm_reduced(m, fmul(m, q, b), a);
    } else {
        // b (a i) = a (b i) = a
        lemma_eqm_ring(m, bi, bi, q as int, ai * ii);
        assert(bi * (ai * ii) == ai * (bi * ii)) by (nonlinear_arith);
        lemma_eqm_ring(m, ai, ai, bi * ii, 1);
        assert(ai * 1 == ai);
        lemma_eqm_reduced(m, fmul(m, b, q), a);
        lemma_eqm_ring(m, q as int, ai * ii, bi, bi);
        assert((ai * ii) * bi == ai * (bi * ii)) by (nonlinear_arith);
        lemma_eqm_reduced(m, fmul(m, q, b), a);
    }
}

/// Adding what was taken away gives back the number.
pub proof fn lemma_sub_then_add(m: nat, a: nat, z: nat)
    requires
        m > 0,
        a < m,
    ensures
        fadd(m, fsub(m, a, z), z) == a,
{
    lemma_eqm_ops(m, a, z);
    lemma_eqm_ops(m, fsub(m, a, z), z);
    lemma_eqm_ring(m, fsub(m, a, z) as int, a - z, z as int, z as int);
    lemma_eqm_reduced(m, fadd(m, fsub(m, a, z), z), a);
}

/// An element of a prime field, seen as the natural number below the modulus
/// that represents it.
pub trait FieldElement: Copy {
    /// The field's characteristic.
    spec fn modulus() -> nat;

    /// The representative of this element, below the modulus.
    spec fn value(&self) -> nat;

    proof fn lemma_modulus()
        ensures
            Self::modulus() > 2,
    ;

    proof fn lemma_value(&self)
        ensures
            self.value() < Self::modulus(),
    ;

    /// A number of bits that holds every representative.
    fn bit_length() -> (r: u16)
        ensures
            Self::modulus() <= pow2(r as nat),
    ;

    fn from_u64(v: u64) -> (r: Self)
        ensures
            r.value() == (v as nat) % Self::modulus(),
    ;

    fn plus(&self, rhs: &Self) -> (r: Self)
        ensures
            r.value() == fadd(Self::modulus(), self.value(), rhs.value()),
    ;

    fn minus(&self, rhs: &Self) -> (r: Self)
        ensures
            r.value() == fsub(Self::modulus(), self.value(), rhs.value()),
    ;

    fn times(&self, rhs: &Self) -> (r: Self)
        ensures
            r.value() == fmul(Self::modulus(), self.value(), rhs.value()),
    ;

    fn equals(&self, rhs: &Self) -> (r: bool)
        ensures
            r == (self.value() == rhs.value()),
    ;

    /// Bit `i` of the representative, counted from the least significant.
    fn bit(&self, i: usize) -> (r: bool)
        ensures
            r == ((self.value() / pow2(i as nat)) % 2 == 1),
    ;
}

/// A field element that can also be inverted and have its square root taken:
/// what the coordinates of curve points need.
pub trait BaseField: FieldElement {
    /// The root that `sqrt` picks for a square `a`.
    spec fn root_of(a: nat) -> nat;

    /// The inverse, which every element but zero has.
    fn invert(&self) -> (r: Option<Self>)
        ensures
            r is None <==> self.value() == 0,
            r matches Some(i) ==> is_inverse(Self::modulus(), self.value(), i.value()),
    ;

    /// A square root, which exactly the squares have.
    fn sqrt(&self) -> (r: Option<Self>)
        ensures
            r is Some <==> is_square(Self::modulus(), self.value()),
            r matches Some(s) ==> s.value() == Self::root_of(self.value()) && is_root(
                Self::modulus(),
                self.value(),
                s.value(),
            ),
    ;
}

} // verus!

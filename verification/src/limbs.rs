//! 256-bit unsigned integers held as four 64-bit limbs, least significant
//! first: their value, their order and their bits.

use vstd::arithmetic::div_mod::{
    lemma_basic_div, lemma_div_denominator, lemma_fundamental_div_mod,
    lemma_fundamental_div_mod_converse,
};
use vstd::arithmetic::power2::{
    lemma2_to64, lemma2_to64_rest, lemma_pow2_adds, lemma_pow2_pos, lemma_pow2_strictly_increases,
    pow2,
};
use vstd::bits::lemma_u64_shr_is_div;
use vstd::prelude::*;

verus! {

/// The number that four limbs stand for.
pub open spec fn limbs_value(l: [u64; 4]) -> nat {
    (l[0] as nat) + (l[1] as nat) * 0x1_0000_0000_0000_0000 + (l[2] as nat)
        * 0x1_0000_0000_0000_0000_0000_0000_0000_0000 + (l[3] as nat)
        * 0x1_0000_0000_0000_0000_0000_0000_0000_0000_0000_0000_0000_0000
}

/// The powers of two at the limb boundaries.
pub proof fn lemma_limb_powers()
    ensures
        pow2(0) == 1,
        pow2(64) == 0x1_0000_0000_0000_0000,
        pow2(128) == 0x1_0000_0000_0000_0000_0000_0000_0000_0000,
        pow2(192) == 0x1_0000_0000_0000_0000_0000_0000_0000_0000_0000_0000_0000_0000,
        pow2(256)
            == 0x1_0000_0000_0000_0000_0000_0000_0000_0000_0000_0000_0000_0000_0000_0000_0000_0000,
{
    lemma2_to64();
    lemma2_to64_rest();
    lemma_pow2_adds(64, 64);
    lemma_pow2_adds(128, 64);
    lemma_pow2_adds(192, 64);
}

/// Four limbs stand for a number below `2^256`.
pub proof fn lemma_limbs_bound(l: [u64; 4])
    ensures
        limbs_value(l) < pow2(256),
{
    lemma_limb_powers();
}

/// Adding a multiple of `2^64` above a limb leaves each of the limb's bits
/// as it was.
proof fn lemma_shift_bit(lo: nat, hi: nat, s: nat)
    requires
        lo < 0x1_0000_0000_0000_0000,
        s < 64,
    ensures
        ((lo + 0x1_0000_0000_0000_0000 * hi) / pow2(s)) % 2 == (lo / pow2(s)) % 2,
{
    let t = pow2(s) as int;
    let u = pow2((63 - s) as nat) as int;
    lemma_pow2_pos(s);
    lemma_pow2_adds(s, (63 - s) as nat);
    lemma_pow2_adds(63, 1);
    lemma2_to64();
    lemma2_to64_rest();
    assert(t * u * 2 == 0x1_0000_0000_0000_0000) by (nonlinear_arith)
        requires
            t * u == pow2(63),
            pow2(63) * 2 == 0x1_0000_0000_0000_0000,
    ;
    let q = lo as int / t;
    let r = lo as int % t;
    lemma_fundamental_div_mod(lo as int, t);
    let w = lo as int + 0x1_0000_0000_0000_0000 * hi as int;
    let k = u * hi as int;
    assert(w == t * (q + 2 * k) + r) by (nonlinear_arith)
        requires
            w == lo as int + 0x1_0000_0000_0000_0000 * hi as int,
            lo as int == t * q + r,
            t * u * 2 == 0x1_0000_0000_0000_0000,
            k == u * hi as int,
    ;
    lemma_fundamental_div_mod_converse(w, t, q + 2 * k, r);
    assert((q + 2 * k) % 2 == q % 2);
}

/// Bit `i` of the number is bit `i % 64` of limb `i / 64`.
pub proof fn lemma_limbs_bit(l: [u64; 4], i: nat)
    requires
        i < 256,
    ensures
        (limbs_value(l) / pow2(i)) % 2 == ((l[(i / 64) as int] as nat) / pow2(i % 64)) % 2,
{
    let v = limbs_value(l) as int;
    let j = i / 64;
    let s = i % 64;
    let b = 0x1_0000_0000_0000_0000int;
    lemma_limb_powers();
    lemma_pow2_pos(s);
    lemma_pow2_pos(64 * j);
    lemma_pow2_adds(64 * j, s);
    lemma_div_denominator(v, pow2(64 * j) as int, pow2(s) as int);
    let (l0, l1, l2, l3) = (l[0] as int, l[1] as int, l[2] as int, l[3] as int);
    if j == 0 {
        lemma_shift_bit(l[0] as nat, (l1 + b * l2 + b * b * l3) as nat, s);
        assert(v == l0 + b * (l1 + b * l2 + b * b * l3)) by (nonlinear_arith)
            requires
                v == l0 + l1 * b + l2 * (b * b) + l3 * (b * b * b),
        ;
    } else if j == 1 {
        let w = l1 + b * (l2 + b * l3);
        assert(v == b * w + l0) by (nonlinear_arith)
            requires
                v == l0 + l1 * b + l2 * (b * b) + l3 * (b * b * b),
                w == l1 + b * (l2 + b * l3),
        ;
        lemma_fundamental_div_mod_converse(v, b, w, l0);
        lemma_shift_bit(l[1] as nat, (l2 + b * l3) as nat, s);
    } else if j == 2 {
        let w = l2 + b * l3;
        let r = l0 + l1 * b;
        assert(v == (b * b) * w + r) by (nonlinear_arith)
            requires
                v == l0 + l1 * b + l2 * (b * b) + l3 * (b * b * b),
                w == l2 + b * l3,
                r == l0 + l1 * b,
        ;
        lemma_fundamental_div_mod_converse(v, b * b, w, r);
        lemma_shift_bit(l[2] as nat, l[3] as nat, s);
    } else {
        let r = l0 + l1 * b + l2 * (b * b);
        assert(v == (b * b * b) * l3 + r) by (nonlinear_arith)
            requires
                v == l0 + l1 * b + l2 * (b * b) + l3 * (b * b * b),
                r == l0 + l1 * b + l2 * (b * b),
        ;
        lemma_fundamental_div_mod_converse(v, b * b * b, l3, r);
        lemma_shift_bit(l[3] as nat, 0, s);
    }
}

/// Bit `i` of the number, counted from the least significant; bits from 256
/// on are zero.
pub fn limbs_bit(l: &[u64; 4], i: usize) -> (r: bool)
    ensures
        r == ((limbs_value(*l) / pow2(i as nat)) % 2 == 1),
{
    if i >= 256 {
        proof {
            lemma_limbs_bound(*l);
            if i > 256 {
                lemma_pow2_strictly_increases(256, i as nat);
            }
            lemma_basic_div(limbs_value(*l) as int, pow2(i as nat) as int);
        }
        false
    } else {
        let limb = l[i / 64];
        let s = (i % 64) as u64;
        let shifted = limb >> s;
        let low = shifted & 1;
        proof {
            lemma_limbs_bit(*l, i as nat);
            lemma_u64_shr_is_div(limb, s);
            assert(shifted & 1 == shifted % 2) by (bit_vector);
        }
        low == 1
    }
}

/// Whether the first number is below the second.
pub fn limbs_lt(a: &[u64; 4], b: &[u64; 4]) -> (r: bool)
    ensures
        r == (limbs_value(*a) < limbs_value(*b)),
{
    if a[3] != b[3] {
        a[3] < b[3]
    } else if a[2] != b[2] {
        a[2] < b[2]
    } else if a[1] != b[1] {
        a[1] < b[1]
    } else {
        a[0] < b[0]
    }
}

/// Two sets of limbs that stand for one number are the same limbs.
pub proof fn lemma_limbs_injective(a: [u64; 4], b: [u64; 4])
    requires
        limbs_value(a) == limbs_value(b),
    ensures
        a == b,
{
    assert(a[0] == b[0] && a[1] == b[1] && a[2] == b[2] && a[3] == b[3]);
    assert(a =~= b);
}

} // verus!

//! Scalars as digits: little-endian windows of a fixed width for fixed-base
//! multiplication, big-endian bits for variable-base multiplication, and
//! the sums that bring the scalar back.

use crate::ecc::error::Error;
use crate::field::FieldElement;
use vstd::arithmetic::div_mod::{
    lemma_basic_div, lemma_div_denominator, lemma_fundamental_div_mod,
    lemma_fundamental_div_mod_converse,
};
use vstd::arithmetic::power2::{
    lemma2_to64, lemma_pow2_adds, lemma_pow2_pos, lemma_pow2_strictly_increases, lemma_pow2_unfold,
    pow2,
};
use vstd::prelude::*;

verus! {

/// Window `i` of `k`, for windows of `w` bits counted from the least
/// significant.
pub open spec fn window(k: nat, w: nat, i: nat) -> nat {
    (k / pow2(w * i)) % pow2(w)
}

/// The first `n` windows of `k`, least significant first.
pub open spec fn windows(k: nat, w: nat, n: nat) -> Seq<nat> {
    Seq::new(n, |i: int| window(k, w, i as nat))
}

/// The number that little-endian digits of `w` bits stand for.
pub open spec fn recompose(digits: Seq<nat>, w: nat) -> nat
    decreases digits.len(),
{
    if digits.len() == 0 {
        0
    } else {
        digits[0] + pow2(w) * recompose(digits.drop_first(), w)
    }
}

/// The number of windows of `w` bits that cover `num_bits` bits.
pub open spec fn window_count(num_bits: nat, w: nat) -> nat {
    ((num_bits + w - 1) / (w as int)) as nat
}

/// The low `n` bits of `k`, most significant first.
pub open spec fn bits_be(k: nat, n: nat) -> Seq<bool> {
    Seq::new(n, |i: int| window(k, 1, (n - 1 - i) as nat) == 1)
}

/// The number that big-endian bits stand for.
pub open spec fn recompose_be(bits: Seq<bool>) -> nat
    decreases bits.len(),
{
    if bits.len() == 0 {
        0
    } else {
        2 * recompose_be(bits.drop_last()) + if bits.last() {
            1nat
        } else {
            0nat
        }
    }
}

/// Every digit is below `2^w`.
pub open spec fn in_range(digits: Seq<nat>, w: nat) -> bool {
    forall|i: int| 0 <= i < digits.len() ==> digits[i] < pow2(w)
}

/// The digits that a vector of machine words holds.
pub open spec fn as_digits(v: Seq<u64>) -> Seq<nat> {
    v.map_values(|d: u64| d as nat)
}

/// Dividing by two powers of two in turn divides by their product.
proof fn lemma_div_pow2(k: nat, a: nat, b: nat)
    ensures
        (k / pow2(a)) / pow2(b) == k / pow2(a + b),
{
    lemma_pow2_pos(a);
    lemma_pow2_pos(b);
    lemma_pow2_adds(a, b);
    lemma_div_denominator(k as int, pow2(a) as int, pow2(b) as int);
}

/// A number below `2^(a+b)` has a quotient by `2^a` that is below `2^b`.
proof fn lemma_div_pow2_bound(k: nat, a: nat, b: nat)
    requires
        k < pow2(a + b),
    ensures
        k / pow2(a) < pow2(b),
{
    lemma_pow2_pos(a);
    lemma_pow2_pos(b);
    lemma_pow2_adds(a, b);
    let q = k as int / pow2(a) as int;
    lemma_fundamental_div_mod(k as int, pow2(a) as int);
    if q >= pow2(b) {
        assert(pow2(a) * q >= pow2(a) * pow2(b)) by (nonlinear_arith)
            requires
                q >= pow2(b),
                pow2(a) > 0,
        ;
    }
}

/// The windows of `k` above the first are the windows of `k / 2^w`.
proof fn lemma_windows_shift(k: nat, w: nat, n: nat)
    requires
        n > 0,
    ensures
        windows(k, w, n).drop_first() =~= windows(k / pow2(w), w, (n - 1) as nat),
        windows(k, w, n)[0] == k % pow2(w),
{
    lemma2_to64();
    assert(w * 0 == 0);
    let all = windows(k, w, n);
    lemma_pow2_pos(w);
    let half: nat = k / pow2(w);
    let rest = windows(half, w, (n - 1) as nat);
    assert(all.drop_first().len() == rest.len());
    assert forall|i: int| 0 <= i < n - 1 implies all.drop_first()[i] == rest[i] by {
        lemma_div_pow2(k, w, w * (i as nat));
        assert(w + w * (i as nat) == w * ((i + 1) as nat)) by (nonlinear_arith)
            requires
                i >= 0,
        ;
        assert(all.drop_first()[i] == all[i + 1]);
        assert(all[i + 1] == window(k, w, (i + 1) as nat));
        assert(rest[i] == window(half, w, i as nat));
    }
}

/// Round trip: the windows of a number that they cover sum to the number.
pub proof fn lemma_recompose_windows(k: nat, w: nat, n: nat)
    requires
        k < pow2(w * n),
    ensures
        recompose(windows(k, w, n), w) == k,
        in_range(windows(k, w, n), w),
    decreases n,
{
    lemma_pow2_pos(w);
    assert forall|i: int| 0 <= i < n implies (#[trigger] windows(k, w, n)[i]) < pow2(w) by {
        vstd::arithmetic::div_mod::lemma_mod_bound((k / pow2(w * (i as nat))) as int, pow2(w) as int);
    }
    if n == 0 {
        assert(w * 0 == 0);
        lemma2_to64();
    } else {
        lemma_windows_shift(k, w, n);
        assert(w + w * ((n - 1) as nat) == w * n) by (nonlinear_arith)
            requires
                n > 0,
        ;
        lemma_div_pow2_bound(k, w, w * ((n - 1) as nat));
        lemma_recompose_windows(k / pow2(w), w, (n - 1) as nat);
        lemma_fundamental_div_mod(k as int, pow2(w) as int);
    }
}

/// Dividing by `2^(j+1)` is dividing by `2^j` and halving.
proof fn lemma_bit_shift(k: nat, j: nat)
    ensures
        (k / 2) / pow2(j) == k / pow2(j + 1),
        window(k / 2, 1, j) == window(k, 1, j + 1),
{
    lemma2_to64();
    lemma_div_pow2(k, 1, j);
    assert(1 * j == j && 1 * (j + 1) == j + 1);
}

/// Round trip: the low `n` bits of a number below `2^n` sum to the number.
pub proof fn lemma_recompose_bits(k: nat, n: nat)
    requires
        k < pow2(n),
    ensures
        recompose_be(bits_be(k, n)) == k,
    decreases n,
{
    lemma2_to64();
    if n > 0 {
        let bits = bits_be(k, n);
        lemma_pow2_unfold(n);
        assert(bits.drop_last() =~= bits_be(k / 2, (n - 1) as nat)) by {
            assert forall|i: int| 0 <= i < n - 1 implies bits.drop_last()[i] == bits_be(
                k / 2,
                (n - 1) as nat,
            )[i] by {
                lemma_bit_shift(k, (n - 2 - i) as nat);
            }
        }
        lemma_recompose_bits(k / 2, (n - 1) as nat);
        assert(1 * 0 == 0);
        assert(window(k, 1, 0) == k % 2);
    }
}

/// A number with bit `i` set is at least `2^i`.
proof fn lemma_bit_set(k: nat, i: nat)
    requires
        window(k, 1, i) == 1,
    ensures
        k >= pow2(i),
{
    lemma_pow2_pos(i);
    lemma2_to64();
    assert(1 * i == i);
    if k < pow2(i) {
        lemma_basic_div(k as int, pow2(i) as int);
    }
}

/// A number below `2^l` whose bits from `a` up are clear is below `2^a`.
proof fn lemma_high_bits_clear(k: nat, a: nat, l: nat)
    requires
        a <= l,
        k < pow2(l),
        forall|i: nat| a <= i < l ==> window(k, 1, i) == 0,
    ensures
        k < pow2(a),
    decreases l - a,
{
    if a < l {
        let t = (l - 1) as nat;
        lemma_pow2_unfold(l);
        lemma_pow2_pos(t);
        lemma2_to64();
        assert(1 * t == t);
        assert(window(k, 1, t) == 0);
        lemma_pow2_adds(t, 1);
        lemma_div_pow2_bound(k, t, 1);
        let q = k / pow2(t);
        assert(q == 0);
        lemma_fundamental_div_mod(k as int, pow2(t) as int);
        assert(pow2(t) * 0 == 0);
        lemma_high_bits_clear(k, a, t);
    }
}

/// The low `t + 1` bits of `x` are its lowest bit and the low `t` bits of
/// its half.
proof fn lemma_low_bits_step(x: nat, t: nat)
    ensures
        x % pow2(t + 1) == 2 * ((x / 2) % pow2(t)) + x % 2,
{
    lemma_pow2_pos(t);
    lemma_pow2_unfold(t + 1);
    let h = x as int / 2;
    let q = h / pow2(t) as int;
    let r = h % pow2(t) as int;
    lemma_fundamental_div_mod(h, pow2(t) as int);
    assert(x as int == q * pow2(t + 1) + (2 * r + x as int % 2)) by (nonlinear_arith)
        requires
            h == pow2(t) * q + r,
            x as int == 2 * h + x as int % 2,
            pow2(t + 1) == 2 * pow2(t),
    ;
    lemma_fundamental_div_mod_converse(x as int, pow2(t + 1) as int, q, 2 * r + x as int % 2);
}

/// Whether the representative of `k` fits in `num_bits` bits.
pub fn fits<S: FieldElement>(k: &S, num_bits: u16) -> (r: bool)
    ensures
        r == (k.value() < pow2(num_bits as nat)),
{
    let top = S::bit_length();
    proof {
        k.lemma_value();
    }
    if num_bits >= top {
        proof {
            if num_bits > top {
                lemma_pow2_strictly_increases(top as nat, num_bits as nat);
            }
        }
        return true;
    }
    let mut i: u16 = num_bits;
    while i < top
        invariant
            num_bits <= i <= top,
            k.value() < pow2(top as nat),
            forall|j: nat| num_bits <= j < i ==> window(k.value(), 1, j) == 0,
        decreases top - i,
    {
        if k.bit(i as usize) {
            proof {
                lemma2_to64();
                assert(1 * (i as nat) == i as nat);
                lemma_bit_set(k.value(), i as nat);
                if i > num_bits {
                    lemma_pow2_strictly_increases(num_bits as nat, i as nat);
                }
            }
            return false;
        }
        proof {
            lemma2_to64();
            assert(1 * (i as nat) == i as nat);
        }
        i = i + 1;
    }
    proof {
        lemma_high_bits_clear(k.value(), num_bits as nat, top as nat);
    }
    true
}

/// Window `i` of the representative of `k`, read bit by bit.
pub fn window_of<S: FieldElement>(k: &S, width: u8, i: u16) -> (r: u64)
    requires
        0 < width < 64,
    ensures
        r as nat == window(k.value(), width as nat, i as nat),
{
    assert((width as nat) * (i as nat) <= 63 * 65535) by (nonlinear_arith)
        requires
            width < 64,
            i <= 65535,
    ;
    let start: usize = (width as usize) * (i as usize);
    let mut acc: u64 = 0;
    let mut j: u8 = width;
    proof {
        lemma2_to64();
        lemma_pow2_pos(start as nat + width as nat);
        assert(width as nat * i as nat == start as nat) by (nonlinear_arith)
            requires
                start as nat == (width as nat) * (i as nat),
        ;
    }
    while j > 0
        invariant
            0 <= j <= width < 64,
            start as nat == (width as nat) * (i as nat),
            start <= 63 * 65535,
            acc as nat == (k.value() / pow2(start as nat + j as nat)) % pow2((width - j) as nat),
            acc < pow2((width - j) as nat),
        decreases j,
    {
        j = j - 1;
        let b = k.bit(start + j as usize);
        proof {
            let x = k.value() / pow2(start as nat + j as nat);
            let t = (width - j - 1) as nat;
            lemma_low_bits_step(x, t);
            lemma_div_pow2(k.value(), start as nat + j as nat, 1);
            lemma_pow2_unfold(t + 1);
            lemma_pow2_strictly_increases(t + 1, 64);
            lemma2_to64();
            vstd::arithmetic::power2::lemma2_to64_rest();
            if t + 1 < 63 {
                lemma_pow2_strictly_increases(t + 1, 63);
            }
        }
        acc = 2 * acc + if b {
            1
        } else {
            0
        };
    }
    acc
}

/// The windows of `k`, least significant first, for a scalar of `num_bits`
/// bits in windows of `width` bits. A scalar that does not fit in `num_bits`
/// bits is refused.
pub fn decompose_windows<S: FieldElement>(k: &S, num_bits: u16, width: u8) -> (r: Result<
    Vec<u64>,
    Error,
>)
    requires
        0 < width < 64,
    ensures
        r is Ok <==> k.value() < pow2(num_bits as nat),
        r matches Ok(v) ==> as_digits(v@) == windows(
            k.value(),
            width as nat,
            window_count(num_bits as nat, width as nat),
        ),
        r matches Err(e) ==> e == Error::TableLookup,
{
    if !fits(k, num_bits) {
        return Err(Error::TableLookup);
    }
    proof {
        let total = num_bits as int + width as int - 1;
        let q = total / (width as int);
        lemma_fundamental_div_mod(total, width as int);
        assert(q <= num_bits) by (nonlinear_arith)
            requires
                total == (width as int) * q + total % (width as int),
                0 <= total % (width as int),
                total == num_bits as int + width as int - 1,
                width >= 1,
                num_bits >= 0,
        ;
    }
    let count: u16 = ((num_bits as u32 + width as u32 - 1) / (width as u32)) as u16;
    let mut digits: Vec<u64> = Vec::new();
    let mut i: u16 = 0;
    while i < count
        invariant
            0 < width < 64,
            i <= count,
            count as nat == window_count(num_bits as nat, width as nat),
            digits.len() == i,
            forall|j: int| 0 <= j < i ==> digits[j] as nat == window(k.value(), width as nat, j as nat),
        decreases count - i,
    {
        let d = window_of(k, width, i);
        digits.push(d);
        i = i + 1;
    }
    proof {
        assert(as_digits(digits@) =~= windows(k.value(), width as nat, count as nat));
    }
    Ok(digits)
}

/// The low `num_bits` bits of `k`, most significant first. A scalar that
/// does not fit in `num_bits` bits is refused.
pub fn decompose_bits<S: FieldElement>(k: &S, num_bits: u16) -> (r: Result<Vec<bool>, Error>)
    ensures
        r is Ok <==> k.value() < pow2(num_bits as nat),
        r matches Ok(v) ==> v@ == bits_be(k.value(), num_bits as nat),
        r matches Err(e) ==> e == Error::TableLookup,
{
    if !fits(k, num_bits) {
        return Err(Error::TableLookup);
    }
    let mut bits: Vec<bool> = Vec::new();
    let mut i: u16 = 0;
    while i < num_bits
        invariant
            i <= num_bits,
            bits.len() == i,
            forall|j: int| 0 <= j < i ==> bits[j] == (window(
                k.value(),
                1,
                (num_bits - 1 - j) as nat,
            ) == 1),
        decreases num_bits - i,
    {
        let pos: u16 = num_bits - 1 - i;
        let b = k.bit(pos as usize);
        proof {
            lemma2_to64();
            assert(1 * (pos as nat) == pos as nat);
        }
        bits.push(b);
        i = i + 1;
    }
    proof {
        assert(bits@ =~= bits_be(k.value(), num_bits as nat));
    }
    Ok(bits)
}

/// Whether every digit lies in the range of a window of `width` bits; a
/// digit outside it fails the lookup.
pub fn check_windows(digits: &Vec<u64>, width: u8) -> (r: Result<(), Error>)
    requires
        0 < width < 64,
    ensures
        r is Ok <==> in_range(as_digits(digits@), width as nat),
        r matches Err(e) ==> e == Error::TableLookup,
{
    proof {
        vstd::bits::lemma_u64_pow2_no_overflow(width as nat);
        vstd::bits::lemma_u64_shl_is_mul(1, width as u64);
    }
    let limit: u64 = 1u64 << (width as u64);
    let mut i: usize = 0;
    while i < digits.len()
        invariant
            i <= digits.len(),
            limit as nat == pow2(width as nat),
            forall|j: int| 0 <= j < i ==> (#[trigger] digits[j]) < limit,
        decreases digits.len() - i,
    {
        if digits[i] >= limit {
            proof {
                assert(as_digits(digits@)[i as int] == digits[i as int] as nat);
            }
            return Err(Error::TableLookup);
        }
        i = i + 1;
    }
    proof {
        assert forall|j: int| 0 <= j < digits.len() implies (#[trigger] as_digits(digits@)[j])
            < pow2(width as nat) by {
            assert(as_digits(digits@)[j] == digits[j] as nat);
        }
    }
    Ok(())
}

} // verus!

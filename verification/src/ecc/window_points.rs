//! The points that the windows of a fixed base select among: for every
//! window but the last the multiples `[(k + 1) h^w] B`, and for the last
//! `[k h^w - (1 + h + ... + h^(w-1))] B`, where `h` is the number of digits.
//! The points of the digits of a scalar then sum to its multiple of `B`.

use crate::ecc::curve::{Affine, Curve, Pt};
use crate::ecc::fixed_base::{points_of, windows_of};
use crate::field::{fadd, fmul, fsub, FieldElement};
use vstd::arithmetic::div_mod::lemma_small_mod;
use vstd::arithmetic::power2::pow2;
use vstd::prelude::*;

verus! {

/// `h^w` in the scalar field.
pub open spec fn power(q: nat, h: nat, w: nat) -> nat
    decreases w,
{
    if w == 0 {
        1nat % q
    } else {
        fmul(q, power(q, h, (w - 1) as nat), h)
    }
}

/// `1 + h + ... + h^(w-1)` in the scalar field.
pub open spec fn power_sum(q: nat, h: nat, w: nat) -> nat
    decreases w,
{
    if w == 0 {
        0
    } else {
        fadd(q, power_sum(q, h, (w - 1) as nat), power(q, h, (w - 1) as nat))
    }
}

/// The scalar whose multiple of the base is the point of digit `k` in window
/// `w`, for `n` windows of `width` bits.
pub open spec fn window_scalar(q: nat, width: nat, n: nat, w: nat, k: nat) -> nat {
    let h = pow2(width) % q;
    if w + 1 < n {
        fmul(q, (k + 1) % q, power(q, h, w))
    } else {
        fsub(q, fmul(q, k % q, power(q, h, w)), power_sum(q, h, w))
    }
}

/// The points of all digits of all windows.
pub open spec fn window_points_spec<C: Curve>(base: Pt, width: nat, n: nat) -> Seq<Seq<Pt>> {
    Seq::new(
        n,
        |w: int|
            Seq::new(
                pow2(width),
                |k: int|
                    C::multiple(
                        base,
                        window_scalar(C::Scalar::modulus(), width, n, w as nat, k as nat),
                    ),
            ),
    )
}

/// The row holds the points of all digits of window `w`.
pub open spec fn is_window<C: Curve>(
    row: Seq<Affine<C::Base>>,
    base: Pt,
    width: nat,
    n: nat,
    w: nat,
) -> bool {
    &&& row.len() == pow2(width)
    &&& forall|k: int|
        0 <= k < row.len() ==> (#[trigger] row[k])@ == C::multiple(
            base,
            window_scalar(C::Scalar::modulus(), width, n, w, k as nat),
        )
}

/// The points of one window, given `h^w` and the sum of the powers below it.
fn one_window<C: Curve>(
    base: &Affine<C::Base>,
    width: u8,
    last: bool,
    hw: &C::Scalar,
    sum: &C::Scalar,
    Ghost(n): Ghost<nat>,
    Ghost(w): Ghost<nat>,
) -> (r: Vec<Affine<C::Base>>)
    requires
        0 < width < 64,
        w < n,
        last == (w + 1 == n),
        hw.value() == power(C::Scalar::modulus(), pow2(width as nat) % C::Scalar::modulus(), w),
        sum.value() == power_sum(
            C::Scalar::modulus(),
            pow2(width as nat) % C::Scalar::modulus(),
            w,
        ),
    ensures
        is_window::<C>(r@, base@, width as nat, n, w),
{
    proof {
        vstd::bits::lemma_u64_pow2_no_overflow(width as nat);
        vstd::bits::lemma_u64_shl_is_mul(1, width as u64);
    }
    let size: u64 = 1u64 << (width as u64);
    let mut row: Vec<Affine<C::Base>> = Vec::new();
    let mut k: u64 = 0;
    while k < size
        invariant
            k <= size,
            size == pow2(width as nat),
            size < u64::MAX,
            row.len() == k,
            w < n,
            last == (w + 1 == n),
            hw.value() == power(
                C::Scalar::modulus(),
                pow2(width as nat) % C::Scalar::modulus(),
                w,
            ),
            sum.value() == power_sum(
                C::Scalar::modulus(),
                pow2(width as nat) % C::Scalar::modulus(),
                w,
            ),
            forall|i: int|
                0 <= i < k ==> (#[trigger] row[i])@ == C::multiple(
                    base@,
                    window_scalar(C::Scalar::modulus(), width as nat, n, w, i as nat),
                ),
        decreases size - k,
    {
        let scalar = if last {
            C::Scalar::from_u64(k).times(hw).minus(sum)
        } else {
            C::Scalar::from_u64(k + 1).times(hw)
        };
        row.push(C::scalar_mul(base, &scalar));
        k = k + 1;
    }
    row
}

/// The points of every digit of every window of the base, for `n` windows
/// of `width` bits. There are none for no windows, or for a width that is
/// not between 1 and 63.
pub fn window_points<C: Curve>(base: &Affine<C::Base>, width: u8, n: usize) -> (r: Option<
    Vec<Vec<Affine<C::Base>>>,
>)
    ensures
        r is Some <==> 0 < width < 64 && n > 0,
        r matches Some(v) ==> windows_of(v@) == window_points_spec::<C>(
            base@,
            width as nat,
            n as nat,
        ),
{
    if width == 0 || width >= 64 || n == 0 {
        return None;
    }
    proof {
        C::Scalar::lemma_modulus();
        lemma_small_mod(0, C::Scalar::modulus());
        lemma_small_mod(1, C::Scalar::modulus());
        vstd::bits::lemma_u64_pow2_no_overflow(width as nat);
        vstd::bits::lemma_u64_shl_is_mul(1, width as u64);
    }
    let h = C::Scalar::from_u64(1u64 << (width as u64));
    let mut hw = C::Scalar::from_u64(1);
    let mut sum = C::Scalar::from_u64(0);
    let mut windows: Vec<Vec<Affine<C::Base>>> = Vec::new();
    let mut w: usize = 0;
    while w < n
        invariant
            0 < width < 64,
            w <= n,
            windows.len() == w,
            h.value() == pow2(width as nat) % C::Scalar::modulus(),
            hw.value() == power(C::Scalar::modulus(), h.value(), w as nat),
            sum.value() == power_sum(C::Scalar::modulus(), h.value(), w as nat),
            forall|i: int|
                0 <= i < w ==> is_window::<C>(
                    (#[trigger] windows[i])@,
                    base@,
                    width as nat,
                    n as nat,
                    i as nat,
                ),
        decreases n - w,
    {
        let row = one_window::<C>(base, width, w + 1 == n, &hw, &sum, Ghost(n as nat), Ghost(w as nat));
        windows.push(row);
        sum = sum.plus(&hw);
        hw = hw.times(&h);
        w = w + 1;
    }
    proof {
        let spec = window_points_spec::<C>(base@, width as nat, n as nat);
        let got = windows_of(windows@);
        assert(got.len() == spec.len());
        assert forall|i: int| 0 <= i < n implies got[i] =~= spec[i] by {
            assert(is_window::<C>(windows[i]@, base@, width as nat, n as nat, i as nat));
            assert(got[i] == points_of(windows[i]@));
        }
        assert(got =~= spec);
    }
    Some(windows)
}

} // verus!

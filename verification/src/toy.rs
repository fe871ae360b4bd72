//! A curve small enough to enumerate, for trying the gadgets without the
//! curve library: `y^2 = x^3 + 2` over the field of 211 elements, a group
//! of the prime order 199. Its arithmetic is plain machine arithmetic.

use crate::ecc::add_complete::{add_complete_points, no_complete_sum};
use crate::ecc::chip::{EccFixedPoints, FixedBases};
use crate::ecc::config::Sizes;
use crate::ecc::curve::{add_complete, Affine, Curve, identity, Pt};
use crate::ecc::forced::is_field;
use crate::field::{BaseField, FieldElement, finv, is_inverse, is_root};
use vstd::arithmetic::div_mod::lemma_mod_add_multiples_vanish;
use vstd::arithmetic::power2::{lemma2_to64, lemma2_to64_rest, lemma_pow2_strictly_increases, pow2};
use vstd::bits::lemma_u64_shr_is_div;
use vstd::prelude::*;

verus! {

/// The number of elements of the base field.
pub const TOY_P: u64 = 211;

/// The order of the curve, which is the number of elements of the scalar
/// field.
pub const TOY_Q: u64 = 199;

/// An element of the base field.
#[derive(Clone, Copy, Debug)]
pub struct ToyBase {
    v: u64,
}

/// An element of the scalar field.
#[derive(Clone, Copy, Debug)]
pub struct ToyScalar {
    v: u64,
}

/// Every element of the base field but zero has an inverse.
pub proof fn lemma_toy_inverse(a: nat)
    requires
        0 < a < 211,
    ensures
        exists|r: nat| is_inverse(211, a, r),
{
    if a == 1 {
        assert(is_inverse(211, 1, 1));
    }
    if a == 2 {
        assert(is_inverse(211, 2, 106));
    }
    if a == 3 {
        assert(is_inverse(211, 3, 141));
    }
    if a == 4 {
        assert(is_inverse(211, 4, 53));
    }
    if a == 5 {
        assert(is_inverse(211, 5, 169));
    }
    if a == 6 {
        assert(is_inverse(211, 6, 176));
    }
    if a == 7 {
        assert(is_inverse(211, 7, 181));
    }
    if a == 8 {
        assert(is_inverse(211, 8, 132));
    }
    if a == 9 {
        assert(is_inverse(211, 9, 47));
    }
    if a == 10 {
        assert(is_inverse(211, 10, 190));
    }
    if a == 11 {
        assert(is_inverse(211, 11, 96));
    }
    if a == 12 {
        assert(is_inverse(211, 12, 88));
    }
    if a == 13 {
        assert(is_inverse(211, 13, 65));
    }
    if a == 14 {
        assert(is_inverse(211, 14, 196));
    }
    if a == 15 {
        assert(is_inverse(211, 15, 197));
    }
    if a == 16 {
        assert(is_inverse(211, 16, 66));
    }
    if a == 17 {
        assert(is_inverse(211, 17, 149));
    }
    if a == 18 {
        assert(is_inverse(211, 18, 129));
    }
    if a == 19 {
        assert(is_inverse(211, 19, 100));
    }
    if a == 20 {
        assert(is_inverse(211, 20, 95));
    }
    if a == 21 {
        assert(is_inverse(211, 21, 201));
    }
    if a == 22 {
        assert(is_inverse(211, 22, 48));
    }
    if a == 23 {
        assert(is_inverse(211, 23, 156));
    }
    if a == 24 {
        assert(is_inverse(211, 24, 44));
    }
    if a == 25 {
        assert(is_inverse(211, 25, 76));
    }
    if a == 26 {
        assert(is_inverse(211, 26, 138));
    }
    if a == 27 {
        assert(is_inverse(211, 27, 86));
    }
    if a == 28 {
        assert(is_inverse(211, 28, 98));
    }
    if a == 29 {
        assert(is_inverse(211, 29, 131));
    }
    if a == 30 {
        assert(is_inverse(211, 30, 204));
    }
    if a == 31 {
        assert(is_inverse(211, 31, 177));
    }
    if a == 32 {
        assert(is_inverse(211, 32, 33));
    }
    if a == 33 {
        assert(is_inverse(211, 33, 32));
    }
    if a == 34 {
        assert(is_inverse(211, 34, 180));
    }
    if a == 35 {
        assert(is_inverse(211, 35, 205));
    }
    if a == 36 {
        assert(is_inverse(211, 36, 170));
    }
    if a == 37 {
        assert(is_inverse(211, 37, 154));
    }
    if a == 38 {
        assert(is_inverse(211, 38, 50));
    }
    if a == 39 {
        assert(is_inverse(211, 39, 92));
    }
    if a == 40 {
        assert(is_inverse(211, 40, 153));
    }
    if a == 41 {
        assert(is_inverse(211, 41, 175));
    }
    if a == 42 {
        assert(is_inverse(211, 42, 206));
    }
    if a == 43 {
        assert(is_inverse(211, 43, 54));
    }
    if a == 44 {
        assert(is_inverse(211, 44, 24));
    }
    if a == 45 {
        assert(is_inverse(211, 45, 136));
    }
    if a == 46 {
        assert(is_inverse(211, 46, 78));
    }
    if a == 47 {
        assert(is_inverse(211, 47, 9));
    }
    if a == 48 {
        assert(is_inverse(211, 48, 22));
    }
    if a == 49 {
        assert(is_inverse(211, 49, 56));
    }
    if a == 50 {
        assert(is_inverse(211, 50, 38));
    }
    if a == 51 {
        assert(is_inverse(211, 51, 120));
    }
    if a == 52 {
        assert(is_inverse(211, 52, 69));
    }
    if a == 53 {
        assert(is_inverse(211, 53, 4));
    }
    if a == 54 {
        assert(is_inverse(211, 54, 43));
    }
    if a == 55 {
        assert(is_inverse(211, 55, 188));
    }
    if a == 56 {
        assert(is_inverse(211, 56, 49));
    }
    if a == 57 {
        assert(is_inverse(211, 57, 174));
    }
    if a == 58 {
        assert(is_inverse(211, 58, 171));
    }
    if a == 59 {
        assert(is_inverse(211, 59, 93));
    }
    if a == 60 {
        assert(is_inverse(211, 60, 102));
    }
    if a == 61 {
        assert(is_inverse(211, 61, 128));
    }
    if a == 62 {
        assert(is_inverse(211, 62, 194));
    }
    if a == 63 {
        assert(is_inverse(211, 63, 67));
    }
    if a == 64 {
        assert(is_inverse(211, 64, 122));
    }
    if a == 65 {
        assert(is_inverse(211, 65, 13));
    }
    if a == 66 {
        assert(is_inverse(211, 66, 16));
    }
    if a == 67 {
        assert(is_inverse(211, 67, 63));
    }
    if a == 68 {
        assert(is_inverse(211, 68, 90));
    }
    if a == 69 {
        assert(is_inverse(211, 69, 52));
    }
    if a == 70 {
        assert(is_inverse(211, 70, 208));
    }
    if a == 71 {
        assert(is_inverse(211, 71, 107));
    }
    if a == 72 {
        assert(is_inverse(211, 72, 85));
    }
    if a == 73 {
        assert(is_inverse(211, 73, 185));
    }
    if a == 74 {
        assert(is_inverse(211, 74, 77));
    }
    if a == 75 {
        assert(is_inverse(211, 75, 166));
    }
    if a == 76 {
        assert(is_inverse(211, 76, 25));
    }
    if a == 77 {
        assert(is_inverse(211, 77, 74));
    }
    if a == 78 {
        assert(is_inverse(211, 78, 46));
    }
    if a == 79 {
        assert(is_inverse(211, 79, 203));
    }
    if a == 80 {
        assert(is_inverse(211, 80, 182));
    }
    if a == 81 {
        assert(is_inverse(211, 81, 99));
    }
    if a == 82 {
        assert(is_inverse(211, 82, 193));
    }
    if a == 83 {
        assert(is_inverse(211, 83, 150));
    }
    if a == 84 {
        assert(is_inverse(211, 84, 103));
    }
    if a == 85 {
        assert(is_inverse(211, 85, 72));
    }
    if a == 86 {
        assert(is_inverse(211, 86, 27));
    }
    if a == 87 {
        assert(is_inverse(211, 87, 114));
    }
    if a == 88 {
        assert(is_inverse(211, 88, 12));
    }
    if a == 89 {
        assert(is_inverse(211, 89, 147));
    }
    if a == 90 {
        assert(is_inverse(211, 90, 68));
    }
    if a == 91 {
        assert(is_inverse(211, 91, 160));
    }
    if a == 92 {
        assert(is_inverse(211, 92, 39));
    }
    if a == 93 {
        assert(is_inverse(211, 93, 59));
    }
    if a == 94 {
        assert(is_inverse(211, 94, 110));
    }
    if a == 95 {
        assert(is_inverse(211, 95, 20));
    }
    if a == 96 {
        assert(is_inverse(211, 96, 11));
    }
    if a == 97 {
        assert(is_inverse(211, 97, 124));
    }
    if a == 98 {
        assert(is_inverse(211, 98, 28));
    }
    if a == 99 {
        assert(is_inverse(211, 99, 81));
    }
    if a == 100 {
        assert(is_inverse(211, 100, 19));
    }
    if a == 101 {
        assert(is_inverse(211, 101, 117));
    }
    if a == 102 {
        assert(is_inverse(211, 102, 60));
    }
    if a == 103 {
        assert(is_inverse(211, 103, 84));
    }
    if a == 104 {
        assert(is_inverse(211, 104, 140));
    }
    if a == 105 {
        assert(is_inverse(211, 105, 209));
    }
    if a == 106 {
        assert(is_inverse(211, 106, 2));
    }
    if a == 107 {
        assert(is_inverse(211, 107, 71));
    }
    if a == 108 {
        assert(is_inverse(211, 108, 127));
    }
    if a == 109 {
        assert(is_inverse(211, 109, 151));
    }
    if a == 110 {
        assert(is_inverse(211, 110, 94));
    }
    if a == 111 {
        assert(is_inverse(211, 111, 192));
    }
    if a == 112 {
        assert(is_inverse(211, 112, 130));
    }
    if a == 113 {
        assert(is_inverse(211, 113, 183));
    }
    if a == 114 {
        assert(is_inverse(211, 114, 87));
    }
    if a == 115 {
        assert(is_inverse(211, 115, 200));
    }
    if a == 116 {
        assert(is_inverse(211, 116, 191));
    }
    if a == 117 {
        assert(is_inverse(211, 117, 101));
    }
    if a == 118 {
        assert(is_inverse(211, 118, 152));
    }
    if a == 119 {
        assert(is_inverse(211, 119, 172));
    }
    if a == 120 {
        assert(is_inverse(211, 120, 51));
    }
    if a == 121 {
        assert(is_inverse(211, 121, 143));
    }
    if a == 122 {
        assert(is_inverse(211, 122, 64));
    }
    if a == 123 {
        assert(is_inverse(211, 123, 199));
    }
    if a == 124 {
        assert(is_inverse(211, 124, 97));
    }
    if a == 125 {
        assert(is_inverse(211, 125, 184));
    }
    if a == 126 {
        assert(is_inverse(211, 126, 139));
    }
    if a == 127 {
        assert(is_inverse(211, 127, 108));
    }
    if a == 128 {
        assert(is_inverse(211, 128, 61));
    }
    if a == 129 {
        assert(is_inverse(211, 129, 18));
    }
    if a == 130 {
        assert(is_inverse(211, 130, 112));
    }
    if a == 131 {
        assert(is_inverse(211, 131, 29));
    }
    if a == 132 {
        assert(is_inverse(211, 132, 8));
    }
    if a == 133 {
        assert(is_inverse(211, 133, 165));
    }
    if a == 134 {
        assert(is_inverse(211, 134, 137));
    }
    if a == 135 {
        assert(is_inverse(211, 135, 186));
    }
    if a == 136 {
        assert(is_inverse(211, 136, 45));
    }
    if a == 137 {
        assert(is_inverse(211, 137, 134));
    }
    if a == 138 {
        assert(is_inverse(211, 138, 26));
    }
    if a == 139 {
        assert(is_inverse(211, 139, 126));
    }
    if a == 140 {
        assert(is_inverse(211, 140, 104));
    }
    if a == 141 {
        assert(is_inverse(211, 141, 3));
    }
    if a == 142 {
        assert(is_inverse(211, 142, 159));
    }
    if a == 143 {
        assert(is_inverse(211, 143, 121));
    }
    if a == 144 {
        assert(is_inverse(211, 144, 148));
    }
    if a == 145 {
        assert(is_inverse(211, 145, 195));
    }
    if a == 146 {
        assert(is_inverse(211, 146, 198));
    }
    if a == 147 {
        assert(is_inverse(211, 147, 89));
    }
    if a == 148 {
        assert(is_inverse(211, 148, 144));
    }
    if a == 149 {
        assert(is_inverse(211, 149, 17));
    }
    if a == 150 {
        assert(is_inverse(211, 150, 83));
    }
    if a == 151 {
        assert(is_inverse(211, 151, 109));
    }
    if a == 152 {
        assert(is_inverse(211, 152, 118));
    }
    if a == 153 {
        assert(is_inverse(211, 153, 40));
    }
    if a == 154 {
        assert(is_inverse(211, 154, 37));
    }
    if a == 155 {
        assert(is_inverse(211, 155, 162));
    }
    if a == 156 {
        assert(is_inverse(211, 156, 23));
    }
    if a == 157 {
        assert(is_inverse(211, 157, 168));
    }
    if a == 158 {
        assert(is_inverse(211, 158, 207));
    }
    if a == 159 {
        assert(is_inverse(211, 159, 142));
    }
    if a == 160 {
        assert(is_inverse(211, 160, 91));
    }
    if a == 161 {
        assert(is_inverse(211, 161, 173));
    }
    if a == 162 {
        assert(is_inverse(211, 162, 155));
    }
    if a == 163 {
        assert(is_inverse(211, 163, 189));
    }
    if a == 164 {
        assert(is_inverse(211, 164, 202));
    }
    if a == 165 {
        assert(is_inverse(211, 165, 133));
    }
    if a == 166 {
        assert(is_inverse(211, 166, 75));
    }
    if a == 167 {
        assert(is_inverse(211, 167, 187));
    }
    if a == 168 {
        assert(is_inverse(211, 168, 157));
    }
    if a == 169 {
        assert(is_inverse(211, 169, 5));
    }
    if a == 170 {
        assert(is_inverse(211, 170, 36));
    }
    if a == 171 {
        assert(is_inverse(211, 171, 58));
    }
    if a == 172 {
        assert(is_inverse(211, 172, 119));
    }
    if a == 173 {
        assert(is_inverse(211, 173, 161));
    }
    if a == 174 {
        assert(is_inverse(211, 174, 57));
    }
    if a == 175 {
        assert(is_inverse(211, 175, 41));
    }
    if a == 176 {
        assert(is_inverse(211, 176, 6));
    }
    if a == 177 {
        assert(is_inverse(211, 177, 31));
    }
    if a == 178 {
        assert(is_inverse(211, 178, 179));
    }
    if a == 179 {
        assert(is_inverse(211, 179, 178));
    }
    if a == 180 {
        assert(is_inverse(211, 180, 34));
    }
    if a == 181 {
        assert(is_inverse(211, 181, 7));
    }
    if a == 182 {
        assert(is_inverse(211, 182, 80));
    }
    if a == 183 {
        assert(is_inverse(211, 183, 113));
    }
    if a == 184 {
        assert(is_inverse(211, 184, 125));
    }
    if a == 185 {
        assert(is_inverse(211, 185, 73));
    }
    if a == 186 {
        assert(is_inverse(211, 186, 135));
    }
    if a == 187 {
        assert(is_inverse(211, 187, 167));
    }
    if a == 188 {
        assert(is_inverse(211, 188, 55));
    }
    if a == 189 {
        assert(is_inverse(211, 189, 163));
    }
    if a == 190 {
        assert(is_inverse(211, 190, 10));
    }
    if a == 191 {
        assert(is_inverse(211, 191, 116));
    }
    if a == 192 {
        assert(is_inverse(211, 192, 111));
    }
    if a == 193 {
        assert(is_inverse(211, 193, 82));
    }
    if a == 194 {
        assert(is_inverse(211, 194, 62));
    }
    if a == 195 {
        assert(is_inverse(211, 195, 145));
    }
    if a == 196 {
        assert(is_inverse(211, 196, 14));
    }
    if a == 197 {
        assert(is_inverse(211, 197, 15));
    }
    if a == 198 {
        assert(is_inverse(211, 198, 146));
    }
    if a == 199 {
        assert(is_inverse(211, 199, 123));
    }
    if a == 200 {
        assert(is_inverse(211, 200, 115));
    }
    if a == 201 {
        assert(is_inverse(211, 201, 21));
    }
    if a == 202 {
        assert(is_inverse(211, 202, 164));
    }
    if a == 203 {
        assert(is_inverse(211, 203, 79));
    }
    if a == 204 {
        assert(is_inverse(211, 204, 30));
    }
    if a == 205 {
        assert(is_inverse(211, 205, 35));
    }
    if a == 206 {
        assert(is_inverse(211, 206, 42));
    }
    if a == 207 {
        assert(is_inverse(211, 207, 158));
    }
    if a == 208 {
        assert(is_inverse(211, 208, 70));
    }
    if a == 209 {
        assert(is_inverse(211, 209, 105));
    }
    if a == 210 {
        assert(is_inverse(211, 210, 210));
    }
}

/// The base field is a field.
pub proof fn lemma_toy_field()
    ensures
        is_field(211),
{
    assert forall|v: nat| 0 < v < 211 implies is_inverse(211, v, #[trigger] finv(211, v)) by {
        lemma_toy_inverse(v);
    }
}

/// The least root of a square of the base field.
pub open spec fn least_root(a: nat) -> nat {
    choose|r: nat| is_root(211, a, r) && forall|s: nat| s < r ==> !is_root(211, a, s)
}

/// Bit `i` of a machine word.
fn word_bit(v: u64, i: usize) -> (r: bool)
    ensures
        r == (((v as nat) / pow2(i as nat)) % 2 == 1),
{
    if i >= 64 {
        proof {
            lemma2_to64();
            lemma2_to64_rest();
            if i > 64 {
                lemma_pow2_strictly_increases(64, i as nat);
            }
            vstd::arithmetic::div_mod::lemma_basic_div(v as int, pow2(i as nat) as int);
        }
        false
    } else {
        let shifted = v >> (i as u64);
        proof {
            lemma_u64_shr_is_div(v, i as u64);
            assert(shifted & 1 == shifted % 2) by (bit_vector);
        }
        shifted & 1 == 1
    }
}

impl ToyBase {
    #[verifier::type_invariant]
    spec fn reduced(self) -> bool {
        self.v < 211
    }

    /// The representative, below 211.
    pub fn to_u64(&self) -> (r: u64)
        ensures
            r == self.value(),
    {
        proof {
            use_type_invariant(self);
        }
        self.v
    }
}

impl FieldElement for ToyBase {
    open spec fn modulus() -> nat {
        211
    }

    closed spec fn value(&self) -> nat {
        (self.v as nat) % 211
    }

    proof fn lemma_modulus() {
    }

    proof fn lemma_value(&self) {
    }

    fn bit_length() -> (r: u16) {
        proof {
            lemma2_to64();
        }
        8
    }

    fn from_u64(v: u64) -> (r: Self) {
        proof {
            vstd::arithmetic::div_mod::lemma_mod_twice(v as int, 211);
        }
        ToyBase { v: v % 211 }
    }

    fn plus(&self, rhs: &Self) -> (r: Self) {
        proof {
            use_type_invariant(self);
            use_type_invariant(rhs);
            vstd::arithmetic::div_mod::lemma_mod_twice((self.v + rhs.v) as int, 211);
        }
        ToyBase { v: (self.v + rhs.v) % 211 }
    }

    fn minus(&self, rhs: &Self) -> (r: Self) {
        proof {
            use_type_invariant(self);
            use_type_invariant(rhs);
            lemma_mod_add_multiples_vanish(self.v - rhs.v, 211);
            vstd::arithmetic::div_mod::lemma_mod_twice((self.v + 211 - rhs.v) as int, 211);
        }
        ToyBase { v: (self.v + 211 - rhs.v) % 211 }
    }

    fn times(&self, rhs: &Self) -> (r: Self) {
        proof {
            use_type_invariant(self);
            use_type_invariant(rhs);
            assert(self.v * rhs.v <= 210 * 210) by (nonlinear_arith)
                requires
                    self.v <= 210,
                    rhs.v <= 210,
            ;
            vstd::arithmetic::div_mod::lemma_mod_twice((self.v * rhs.v) as int, 211);
        }
        ToyBase { v: (self.v * rhs.v) % 211 }
    }

    fn equals(&self, rhs: &Self) -> (r: bool) {
        proof {
            use_type_invariant(self);
            use_type_invariant(rhs);
        }
        self.v == rhs.v
    }

    fn bit(&self, i: usize) -> (r: bool) {
        proof {
            use_type_invariant(self);
        }
        word_bit(self.v, i)
    }
}

impl BaseField for ToyBase {
    open spec fn root_of(a: nat) -> nat {
        least_root(a)
    }

    fn invert(&self) -> (r: Option<Self>) {
        proof {
            use_type_invariant(self);
        }
        if self.v == 0 {
            return None;
        }
        let mut r: u64 = 1;
        while r < 211
            invariant
                1 <= r <= 211,
                0 < self.v < 211,
                forall|s: nat| 1 <= s < r ==> !is_inverse(211, self.v as nat, s),
            decreases 211 - r,
        {
            assert(self.v * r <= 210 * 210) by (nonlinear_arith)
                requires
                    self.v <= 210,
                    r <= 210,
            ;
            if (self.v * r) % 211 == 1 {
                return Some(ToyBase { v: r });
            }
            r = r + 1;
        }
        proof {
            lemma_toy_inverse(self.v as nat);
            let w = choose|w: nat| is_inverse(211, self.v as nat, w);
            assert((self.v as nat) * 0 == 0);
            assert(w >= 1);
        }
        None
    }

    fn sqrt(&self) -> (r: Option<Self>) {
        proof {
            use_type_invariant(self);
        }
        let mut r: u64 = 0;
        while r < 211
            invariant
                r <= 211,
                self.v < 211,
                forall|s: nat| s < r ==> !is_root(211, self.v as nat, s),
            decreases 211 - r,
        {
            assert(r * r <= 210 * 210) by (nonlinear_arith)
                requires
                    r <= 210,
            ;
            if (r * r) % 211 == self.v {
                proof {
                    let found = r as nat;
                    assert(is_root(211, self.v as nat, found));
                    let least = least_root(self.v as nat);
                    assert(least == found);
                }
                return Some(ToyBase { v: r });
            }
            r = r + 1;
        }
        None
    }
}

impl ToyScalar {
    #[verifier::type_invariant]
    spec fn reduced(self) -> bool {
        self.v < 199
    }

    /// The representative, below 199.
    pub fn to_u64(&self) -> (r: u64)
        ensures
            r == self.value(),
    {
        proof {
            use_type_invariant(self);
        }
        self.v
    }
}

impl FieldElement for ToyScalar {
    open spec fn modulus() -> nat {
        199
    }

    closed spec fn value(&self) -> nat {
        (self.v as nat) % 199
    }

    proof fn lemma_modulus() {
    }

    proof fn lemma_value(&self) {
    }

    fn bit_length() -> (r: u16) {
        proof {
            lemma2_to64();
        }
        8
    }

    fn from_u64(v: u64) -> (r: Self) {
        proof {
            vstd::arithmetic::div_mod::lemma_mod_twice(v as int, 199);
        }
        ToyScalar { v: v % 199 }
    }

    fn plus(&self, rhs: &Self) -> (r: Self) {
        proof {
            use_type_invariant(self);
            use_type_invariant(rhs);
            vstd::arithmetic::div_mod::lemma_mod_twice((self.v + rhs.v) as int, 199);
        }
        ToyScalar { v: (self.v + rhs.v) % 199 }
    }

    fn minus(&self, rhs: &Self) -> (r: Self) {
        proof {
            use_type_invariant(self);
            use_type_invariant(rhs);
            lemma_mod_add_multiples_vanish(self.v - rhs.v, 199);
            vstd::arithmetic::div_mod::lemma_mod_twice((self.v + 199 - rhs.v) as int, 199);
        }
        ToyScalar { v: (self.v + 199 - rhs.v) % 199 }
    }

    fn times(&self, rhs: &Self) -> (r: Self) {
        proof {
            use_type_invariant(self);
            use_type_invariant(rhs);
            assert(self.v * rhs.v <= 198 * 198) by (nonlinear_arith)
                requires
                    self.v <= 198,
                    rhs.v <= 198,
            ;
            vstd::arithmetic::div_mod::lemma_mod_twice((self.v * rhs.v) as int, 199);
        }
        ToyScalar { v: (self.v * rhs.v) % 199 }
    }

    fn equals(&self, rhs: &Self) -> (r: bool) {
        proof {
            use_type_invariant(self);
            use_type_invariant(rhs);
        }
        self.v == rhs.v
    }

    fn bit(&self, i: usize) -> (r: bool) {
        proof {
            use_type_invariant(self);
        }
        word_bit(self.v, i)
    }
}

/// The sum of two points, or the identity where complete addition has no
/// row for them, which happens for no two points of the curve.
pub open spec fn total_sum(p: Pt, q: Pt) -> Pt {
    if no_complete_sum(211, p, q) {
        identity()
    } else {
        add_complete(211, p, q)
    }
}

/// The multiple `[k] P` by doubling and adding, from the most significant
/// bit of `k` down.
pub open spec fn toy_multiple(p: Pt, k: nat) -> Pt
    decreases k,
{
    if k == 0 {
        identity()
    } else {
        let twice = total_sum(toy_multiple(p, k / 2), toy_multiple(p, k / 2));
        if k % 2 == 1 {
            total_sum(twice, p)
        } else {
            twice
        }
    }
}

/// The sum of two points, or the identity where there is none.
fn sum_or_identity(p: &Affine<ToyBase>, q: &Affine<ToyBase>) -> (r: Affine<ToyBase>)
    ensures
        r@ == total_sum(p@, q@),
{
    match add_complete_points(p, q) {
        Some(row) => row.sum,
        None => Affine { x: ToyBase::from_u64(0), y: ToyBase::from_u64(0) },
    }
}

/// The toy curve.
pub struct Toy;

impl Curve for Toy {
    type Base = ToyBase;

    type Scalar = ToyScalar;

    open spec fn b() -> nat {
        2
    }

    open spec fn multiple(p: Pt, k: nat) -> Pt {
        toy_multiple(p, k)
    }

    open spec fn offset() -> nat {
        71
    }

    fn scalar_offset() -> (r: ToyScalar) {
        ToyScalar { v: 71 }
    }

    fn constant_b() -> (r: ToyBase) {
        ToyBase { v: 2 }
    }

    fn scalar_mul(p: &Affine<ToyBase>, k: &ToyScalar) -> (r: Affine<ToyBase>) {
        proof {
            use_type_invariant(k);
        }
        let v = k.v;
        let mut acc = Affine { x: ToyBase::from_u64(0), y: ToyBase::from_u64(0) };
        let mut i: u64 = 8;
        proof {
            assert(v >> 8u64 == 0) by (bit_vector)
                requires
                    v < 199,
            ;
        }
        while i > 0
            invariant
                i <= 8,
                v < 199,
                acc@ == toy_multiple(p@, (v >> i) as nat),
            decreases i,
        {
            i = i - 1;
            let twice = sum_or_identity(&acc, &acc);
            let bit = (v >> i) & 1 == 1;
            proof {
                let x = v >> i;
                assert((x / 2) == v >> ((i + 1) as u64)) by (bit_vector)
                    requires
                        x == v >> i,
                        i < 8,
                ;
                assert((x & 1 == 1) == (x % 2 == 1)) by (bit_vector);
                assert(x == 0 ==> v >> ((i + 1) as u64) == 0) by (bit_vector)
                    requires
                        x == v >> i,
                        i < 8,
                ;
                if x == 0 {
                    assert(toy_multiple(p@, 0) == identity());
                    assert(total_sum(identity(), identity()) == identity());
                }
            }
            acc = if bit {
                sum_or_identity(&twice, p)
            } else {
                twice
            };
        }
        proof {
            assert(v >> 0u64 == v) by (bit_vector);
        }
        acc
    }
}

impl FixedBases for Toy {
    open spec fn sizes() -> Sizes {
        Sizes { window_width: 1, scalar_bits: 8, short_bits: 4 }
    }

    open spec fn generator(id: EccFixedPoints) -> Pt {
        match id {
            EccFixedPoints::CommitIvkR => Pt { x: 4, y: 53 },
            EccFixedPoints::NoteCommitR => Pt { x: 4, y: 158 },
            EccFixedPoints::NullifierK => Pt { x: 7, y: 61 },
            EccFixedPoints::ValueCommitR => Pt { x: 7, y: 150 },
            EccFixedPoints::ValueCommitV => Pt { x: 15, y: 1 },
        }
    }

    open spec fn offsets(id: EccFixedPoints, short: bool) -> Seq<u64> {
        match (id, short) {
            (EccFixedPoints::CommitIvkR, false) => seq![6u64, 15u64, 0u64, 2u64, 23u64, 48u64, 5u64, 0u64],
            (EccFixedPoints::CommitIvkR, true) => seq![6u64, 15u64, 0u64, 0u64],
            (EccFixedPoints::NoteCommitR, false) => seq![36u64, 8u64, 5u64, 15u64, 17u64, 33u64, 13u64, 22u64],
            (EccFixedPoints::NoteCommitR, true) => seq![36u64, 8u64, 5u64, 38u64],
            (EccFixedPoints::NullifierK, false) => seq![5u64, 0u64, 0u64, 4u64, 9u64, 1u64, 32u64, 3u64],
            (EccFixedPoints::NullifierK, true) => seq![5u64, 0u64, 0u64, 17u64],
            (EccFixedPoints::ValueCommitR, false) => seq![13u64, 3u64, 23u64, 1u64, 0u64, 0u64, 8u64, 0u64],
            (EccFixedPoints::ValueCommitR, true) => seq![13u64, 3u64, 23u64, 0u64],
            (EccFixedPoints::ValueCommitV, false) => seq![0u64, 0u64, 6u64, 15u64, 0u64, 2u64, 23u64, 3u64],
            (EccFixedPoints::ValueCommitV, true) => seq![0u64, 0u64, 6u64, 3u64],
        }
    }

    fn protocol_sizes() -> (r: Sizes) {
        Sizes { window_width: 1, scalar_bits: 8, short_bits: 4 }
    }

    fn fixed_base(id: EccFixedPoints) -> (r: Affine<ToyBase>) {
        let (x, y): (u64, u64) = match id {
            EccFixedPoints::CommitIvkR => (4, 53),
            EccFixedPoints::NoteCommitR => (4, 158),
            EccFixedPoints::NullifierK => (7, 61),
            EccFixedPoints::ValueCommitR => (7, 150),
            EccFixedPoints::ValueCommitV => (15, 1),
        };
        Affine { x: ToyBase { v: x }, y: ToyBase { v: y } }
    }

    fn fixed_offsets(id: EccFixedPoints, short: bool) -> (r: Vec<u64>) {
        match (id, short) {
            (EccFixedPoints::CommitIvkR, false) => vec![6u64, 15u64, 0u64, 2u64, 23u64, 48u64, 5u64, 0u64],
            (EccFixedPoints::CommitIvkR, true) => vec![6u64, 15u64, 0u64, 0u64],
            (EccFixedPoints::NoteCommitR, false) => vec![36u64, 8u64, 5u64, 15u64, 17u64, 33u64, 13u64, 22u64],
            (EccFixedPoints::NoteCommitR, true) => vec![36u64, 8u64, 5u64, 38u64],
            (EccFixedPoints::NullifierK, false) => vec![5u64, 0u64, 0u64, 4u64, 9u64, 1u64, 32u64, 3u64],
            (EccFixedPoints::NullifierK, true) => vec![5u64, 0u64, 0u64, 17u64],
            (EccFixedPoints::ValueCommitR, false) => vec![13u64, 3u64, 23u64, 1u64, 0u64, 0u64, 8u64, 0u64],
            (EccFixedPoints::ValueCommitR, true) => vec![13u64, 3u64, 23u64, 0u64],
            (EccFixedPoints::ValueCommitV, false) => vec![0u64, 0u64, 6u64, 15u64, 0u64, 2u64, 23u64, 3u64],
            (EccFixedPoints::ValueCommitV, true) => vec![0u64, 0u64, 6u64, 3u64],
        }
    }
}

} // verus!

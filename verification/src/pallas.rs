//! The two fields of the Pallas curve: its base field, in which point
//! coordinates live, and its scalar field. Elements are held as reduced
//! 256-bit integers; the arithmetic is that of `pasta_curves`.

use crate::ecc::curve::{Affine, Curve, identity, Pt};
use crate::field::{BaseField, FieldElement, is_inverse, is_root, is_square};
use crate::limbs::{lemma_limb_powers, lemma_limbs_injective, limbs_bit, limbs_lt, limbs_value};
use ff::{Field, PrimeFieldBits};
use pasta_curves::{EpAffine, Fp, Fq};
use pasta_curves::arithmetic::{Coordinates, CurveAffine};
use vstd::arithmetic::div_mod::lemma_small_mod;
use vstd::arithmetic::power2::{lemma_pow2_strictly_increases, lemma_pow2_unfold};
use vstd::prelude::*;

verus! {

/// The characteristic of the base field.
pub open spec fn base_modulus() -> nat {
    0x40000000000000000000000000000000224698fc094cf91b992d30ed00000001nat
}

/// The characteristic of the scalar field, which is the order of the curve.
pub open spec fn scalar_modulus() -> nat {
    0x40000000000000000000000000000000224698fc0994a8dd8c46eb2100000001nat
}

/// The root of a square of the base field that `pasta_curves` returns.
pub uninterp spec fn base_sqrt_root(a: nat) -> nat;

/// `Fp`'s `+` in `pasta_curves`, on two numbers that `Fp::from_raw` reduces
/// into the field: the reduced sum, read back through `to_le_bits`.
#[verifier::external_body]
fn base_add(a: &[u64; 4], b: &[u64; 4]) -> (r: [u64; 4])
    ensures
        limbs_value(r) == (limbs_value(*a) + limbs_value(*b)) % base_modulus(),
{
    (Fp::from_raw(*a) + Fp::from_raw(*b)).to_le_bits().into_inner()
}

/// `Fp`'s `-` in `pasta_curves`: the reduced difference.
#[verifier::external_body]
fn base_sub(a: &[u64; 4], b: &[u64; 4]) -> (r: [u64; 4])
    ensures
        limbs_value(r) == (limbs_value(*a) as int - limbs_value(*b) as int) % (
        base_modulus() as int),
{
    (Fp::from_raw(*a) - Fp::from_raw(*b)).to_le_bits().into_inner()
}

/// `Fp`'s `*` in `pasta_curves`: the reduced product.
#[verifier::external_body]
fn base_mul(a: &[u64; 4], b: &[u64; 4]) -> (r: [u64; 4])
    ensures
        limbs_value(r) == (limbs_value(*a) * limbs_value(*b)) % base_modulus(),
{
    (Fp::from_raw(*a) * Fp::from_raw(*b)).to_le_bits().into_inner()
}

/// `Fp::invert` of `ff::Field` in `pasta_curves`: it fails on zero alone, and
/// otherwise gives the reduced number whose product with the argument is one.
#[verifier::external_body]
fn base_invert(a: &[u64; 4]) -> (r: Option<[u64; 4]>)
    ensures
        r is None <==> limbs_value(*a) % base_modulus() == 0,
        r matches Some(i) ==> is_inverse(
            base_modulus(),
            limbs_value(*a) % base_modulus(),
            limbs_value(i),
        ),
{
    match Option::<Fp>::from(Fp::from_raw(*a).invert()) {
        Some(x) => Some(x.to_le_bits().into_inner()),
        None => None,
    }
}

/// `Fp::sqrt` of `ff::Field` in `pasta_curves`: it succeeds on the squares
/// alone, and then gives a reduced root, the same one for the same argument.
#[verifier::external_body]
fn base_sqrt(a: &[u64; 4]) -> (r: Option<[u64; 4]>)
    ensures
        r is Some <==> is_square(base_modulus(), limbs_value(*a) % base_modulus()),
        r matches Some(s) ==> limbs_value(s) == base_sqrt_root(limbs_value(*a) % base_modulus())
            && is_root(base_modulus(), limbs_value(*a) % base_modulus(), limbs_value(s)),
{
    match Option::<Fp>::from(Fp::from_raw(*a).sqrt()) {
        Some(x) => Some(x.to_le_bits().into_inner()),
        None => None,
    }
}

/// `Fq`'s `+` in `pasta_curves`: the reduced sum.
#[verifier::external_body]
fn scalar_add(a: &[u64; 4], b: &[u64; 4]) -> (r: [u64; 4])
    ensures
        limbs_value(r) == (limbs_value(*a) + limbs_value(*b)) % scalar_modulus(),
{
    (Fq::from_raw(*a) + Fq::from_raw(*b)).to_le_bits().into_inner()
}

/// `Fq`'s `-` in `pasta_curves`: the reduced difference.
#[verifier::external_body]
fn scalar_sub(a: &[u64; 4], b: &[u64; 4]) -> (r: [u64; 4])
    ensures
        limbs_value(r) == (limbs_value(*a) as int - limbs_value(*b) as int) % (
        scalar_modulus() as int),
{
    (Fq::from_raw(*a) - Fq::from_raw(*b)).to_le_bits().into_inner()
}

/// `Fq`'s `*` in `pasta_curves`: the reduced product.
#[verifier::external_body]
fn scalar_mul(a: &[u64; 4], b: &[u64; 4]) -> (r: [u64; 4])
    ensures
        limbs_value(r) == (limbs_value(*a) * limbs_value(*b)) % scalar_modulus(),
{
    (Fq::from_raw(*a) * Fq::from_raw(*b)).to_le_bits().into_inner()
}

/// The affine coordinates of the multiple `[k] (x, y)` that `pasta_curves`
/// computes on Pallas; none where `(x, y)` is no point of the curve or the
/// multiple is the identity.
pub uninterp spec fn pallas_multiple(x: nat, y: nat, k: nat) -> Option<(nat, nat)>;

/// `EpAffine::from_xy`, `*` by an `Fq` and `to_affine` in `pasta_curves`: the
/// reduced coordinates of the multiple of the point with the given
/// coordinates, or nothing where `from_xy` refuses the coordinates or
/// `coordinates` finds the identity.
#[verifier::external_body]
fn curve_mul(x: &[u64; 4], y: &[u64; 4], k: &[u64; 4]) -> (r: Option<([u64; 4], [u64; 4])>)
    ensures
        r is Some <==> pallas_multiple(
            limbs_value(*x) % base_modulus(),
            limbs_value(*y) % base_modulus(),
            limbs_value(*k) % scalar_modulus(),
        ) is Some,
        r matches Some((u, v)) ==> pallas_multiple(
            limbs_value(*x) % base_modulus(),
            limbs_value(*y) % base_modulus(),
            limbs_value(*k) % scalar_modulus(),
        ) == Some((limbs_value(u), limbs_value(v))) && limbs_value(u) < base_modulus()
            && limbs_value(v) < base_modulus(),
{
    let p = Option::<EpAffine>::from(EpAffine::from_xy(Fp::from_raw(*x), Fp::from_raw(*y)))?;
    let product = group::Curve::to_affine(&(p * Fq::from_raw(*k)));
    match Option::<Coordinates<EpAffine>>::from(product.coordinates()) {
        Some(c) => Some((c.x().to_le_bits().into_inner(), c.y().to_le_bits().into_inner())),
        None => None,
    }
}

/// An element of the base field of Pallas.
#[derive(Clone, Copy, Debug)]
pub struct Base {
    limbs: [u64; 4],
}

/// An element of the scalar field of Pallas.
#[derive(Clone, Copy, Debug)]
pub struct Scalar {
    limbs: [u64; 4],
}

impl Base {
    #[verifier::type_invariant]
    spec fn reduced(self) -> bool {
        limbs_value(self.limbs) < base_modulus()
    }

    /// The element that the limbs stand for, if they are below the modulus.
    pub fn from_limbs(limbs: [u64; 4]) -> (r: Option<Base>)
        ensures
            r is Some <==> limbs_value(limbs) < base_modulus(),
            r matches Some(b) ==> b.value() == limbs_value(limbs),
    {
        let p: [u64; 4] = [0x992d30ed00000001, 0x224698fc094cf91b, 0, 0x4000000000000000];
        if limbs_lt(&limbs, &p) {
            proof {
                lemma_small_mod(limbs_value(limbs), base_modulus());
            }
            Some(Base { limbs })
        } else {
            None
        }
    }

    /// The limbs of the representative, least significant first.
    pub fn to_limbs(&self) -> (r: [u64; 4])
        ensures
            limbs_value(r) == self.value(),
    {
        proof {
            use_type_invariant(self);
            lemma_small_mod(limbs_value(self.limbs), base_modulus());
        }
        self.limbs
    }
}

impl FieldElement for Base {
    open spec fn modulus() -> nat {
        base_modulus()
    }

    closed spec fn value(&self) -> nat {
        limbs_value(self.limbs) % base_modulus()
    }

    proof fn lemma_modulus() {
    }

    proof fn lemma_value(&self) {
    }

    fn bit_length() -> (r: u16) {
        proof {
            lemma_limb_powers();
            lemma_pow2_strictly_increases(255, 256);
            lemma_pow2_unfold(256);
        }
        255
    }

    fn from_u64(v: u64) -> (r: Self) {
        let limbs: [u64; 4] = [v, 0, 0, 0];
        proof {
            lemma_small_mod(v as nat, base_modulus());
        }
        Base { limbs }
    }

    fn plus(&self, rhs: &Self) -> (r: Self) {
        proof {
            use_type_invariant(self);
            use_type_invariant(rhs);
            lemma_small_mod(limbs_value(self.limbs), base_modulus());
            lemma_small_mod(limbs_value(rhs.limbs), base_modulus());
        }
        let limbs = base_add(&self.limbs, &rhs.limbs);
        proof {
            lemma_small_mod(limbs_value(limbs), base_modulus());
        }
        Base { limbs }
    }

    fn minus(&self, rhs: &Self) -> (r: Self) {
        proof {
            use_type_invariant(self);
            use_type_invariant(rhs);
            lemma_small_mod(limbs_value(self.limbs), base_modulus());
            lemma_small_mod(limbs_value(rhs.limbs), base_modulus());
        }
        let limbs = base_sub(&self.limbs, &rhs.limbs);
        proof {
            lemma_small_mod(limbs_value(limbs), base_modulus());
        }
        Base { limbs }
    }

    fn times(&self, rhs: &Self) -> (r: Self) {
        proof {
            use_type_invariant(self);
            use_type_invariant(rhs);
            lemma_small_mod(limbs_value(self.limbs), base_modulus());
            lemma_small_mod(limbs_value(rhs.limbs), base_modulus());
        }
        let limbs = base_mul(&self.limbs, &rhs.limbs);
        proof {
            lemma_small_mod(limbs_value(limbs), base_modulus());
        }
        Base { limbs }
    }

    fn equals(&self, rhs: &Self) -> (r: bool) {
        proof {
            use_type_invariant(self);
            use_type_invariant(rhs);
            lemma_small_mod(limbs_value(self.limbs), base_modulus());
            lemma_small_mod(limbs_value(rhs.limbs), base_modulus());
            if limbs_value(self.limbs) == limbs_value(rhs.limbs) {
                lemma_limbs_injective(self.limbs, rhs.limbs);
            }
        }
        self.limbs[0] == rhs.limbs[0] && self.limbs[1] == rhs.limbs[1] && self.limbs[2]
            == rhs.limbs[2] && self.limbs[3] == rhs.limbs[3]
    }

    fn bit(&self, i: usize) -> (r: bool) {
        proof {
            use_type_invariant(self);
            lemma_small_mod(limbs_value(self.limbs), base_modulus());
        }
        limbs_bit(&self.limbs, i)
    }
}

impl BaseField for Base {
    open spec fn root_of(a: nat) -> nat {
        base_sqrt_root(a)
    }

    fn invert(&self) -> (r: Option<Self>) {
        proof {
            use_type_invariant(self);
            lemma_small_mod(limbs_value(self.limbs), base_modulus());
        }
        match base_invert(&self.limbs) {
            Some(limbs) => {
                proof {
                    lemma_small_mod(limbs_value(limbs), base_modulus());
                }
                Some(Base { limbs })
            },
            None => None,
        }
    }

    fn sqrt(&self) -> (r: Option<Self>) {
        proof {
            use_type_invariant(self);
            lemma_small_mod(limbs_value(self.limbs), base_modulus());
        }
        match base_sqrt(&self.limbs) {
            Some(limbs) => {
                proof {
                    lemma_small_mod(limbs_value(limbs), base_modulus());
                }
                Some(Base { limbs })
            },
            None => None,
        }
    }
}

impl Scalar {
    #[verifier::type_invariant]
    spec fn reduced(self) -> bool {
        limbs_value(self.limbs) < scalar_modulus()
    }

    /// The element that the limbs stand for, if they are below the modulus.
    pub fn from_limbs(limbs: [u64; 4]) -> (r: Option<Scalar>)
        ensures
            r is Some <==> limbs_value(limbs) < scalar_modulus(),
            r matches Some(b) ==> b.value() == limbs_value(limbs),
    {
        let q: [u64; 4] = [0x8c46eb2100000001, 0x224698fc0994a8dd, 0, 0x4000000000000000];
        if limbs_lt(&limbs, &q) {
            proof {
                lemma_small_mod(limbs_value(limbs), scalar_modulus());
            }
            Some(Scalar { limbs })
        } else {
            None
        }
    }

    /// The limbs of the representative, least significant first.
    pub fn to_limbs(&self) -> (r: [u64; 4])
        ensures
            limbs_value(r) == self.value(),
    {
        proof {
            use_type_invariant(self);
            lemma_small_mod(limbs_value(self.limbs), scalar_modulus());
        }
        self.limbs
    }
}

impl FieldElement for Scalar {
    open spec fn modulus() -> nat {
        scalar_modulus()
    }

    closed spec fn value(&self) -> nat {
        limbs_value(self.limbs) % scalar_modulus()
    }

    proof fn lemma_modulus() {
    }

    proof fn lemma_value(&self) {
    }

    fn bit_length() -> (r: u16) {
        proof {
            lemma_limb_powers();
            lemma_pow2_strictly_increases(255, 256);
            lemma_pow2_unfold(256);
        }
        255
    }

    fn from_u64(v: u64) -> (r: Self) {
        let limbs: [u64; 4] = [v, 0, 0, 0];
        proof {
            lemma_small_mod(v as nat, scalar_modulus());
        }
        Scalar { limbs }
    }

    fn plus(&self, rhs: &Self) -> (r: Self) {
        proof {
            use_type_invariant(self);
            use_type_invariant(rhs);
            lemma_small_mod(limbs_value(self.limbs), scalar_modulus());
            lemma_small_mod(limbs_value(rhs.limbs), scalar_modulus());
        }
        let limbs = scalar_add(&self.limbs, &rhs.limbs);
        proof {
            lemma_small_mod(limbs_value(limbs), scalar_modulus());
        }
        Scalar { limbs }
    }

    fn minus(&self, rhs: &Self) -> (r: Self) {
        proof {
            use_type_invariant(self);
            use_type_invariant(rhs);
            lemma_small_mod(limbs_value(self.limbs), scalar_modulus());
            lemma_small_mod(limbs_value(rhs.limbs), scalar_modulus());
        }
        let limbs = scalar_sub(&self.limbs, &rhs.limbs);
        proof {
            lemma_small_mod(limbs_value(limbs), scalar_modulus());
        }
        Scalar { limbs }
    }

    fn times(&self, rhs: &Self) -> (r: Self) {
        proof {
            use_type_invariant(self);
            use_type_invariant(rhs);
            lemma_small_mod(limbs_value(self.limbs), scalar_modulus());
            lemma_small_mod(limbs_value(rhs.limbs), scalar_modulus());
        }
        let limbs = scalar_mul(&self.limbs, &rhs.limbs);
        proof {
            lemma_small_mod(limbs_value(limbs), scalar_modulus());
        }
        Scalar { limbs }
    }

    fn equals(&self, rhs: &Self) -> (r: bool) {
        proof {
            use_type_invariant(self);
            use_type_invariant(rhs);
            lemma_small_mod(limbs_value(self.limbs), scalar_modulus());
            lemma_small_mod(limbs_value(rhs.limbs), scalar_modulus());
            if limbs_value(self.limbs) == limbs_value(rhs.limbs) {
                lemma_limbs_injective(self.limbs, rhs.limbs);
            }
        }
        self.limbs[0] == rhs.limbs[0] && self.limbs[1] == rhs.limbs[1] && self.limbs[2]
            == rhs.limbs[2] && self.limbs[3] == rhs.limbs[3]
    }

    fn bit(&self, i: usize) -> (r: bool) {
        proof {
            use_type_invariant(self);
            lemma_small_mod(limbs_value(self.limbs), scalar_modulus());
        }
        limbs_bit(&self.limbs, i)
    }
}

/// The Pallas curve `y^2 = x^3 + 5`.
pub struct Pallas;

impl Curve for Pallas {
    type Base = Base;

    type Scalar = Scalar;

    open spec fn b() -> nat {
        5
    }

    open spec fn multiple(p: Pt, k: nat) -> Pt {
        match pallas_multiple(p.x, p.y, k) {
            Some((x, y)) => Pt { x, y },
            None => identity(),
        }
    }

    open spec fn offset() -> nat {
        0x224698fc0994a8dd8c46eb2100000001
    }

    fn scalar_offset() -> (r: Scalar) {
        let limbs: [u64; 4] = [0x8c46eb2100000001, 0x224698fc0994a8dd, 0, 0];
        proof {
            lemma_small_mod(limbs_value(limbs), scalar_modulus());
        }
        Scalar { limbs }
    }

    fn constant_b() -> (r: Base) {
        Base::from_u64(5)
    }

    fn scalar_mul(p: &Affine<Base>, k: &Scalar) -> (r: Affine<Base>) {
        proof {
            use_type_invariant(&p.x);
            use_type_invariant(&p.y);
            use_type_invariant(k);
            lemma_small_mod(0, base_modulus());
        }
        match curve_mul(&p.x.limbs, &p.y.limbs, &k.limbs) {
            Some((x, y)) => {
                proof {
                    lemma_small_mod(limbs_value(x), base_modulus());
                    lemma_small_mod(limbs_value(y), base_modulus());
                }
                Affine { x: Base { limbs: x }, y: Base { limbs: y } }
            },
            None => Affine { x: Base::from_u64(0), y: Base::from_u64(0) },
        }
    }
}

} // verus!

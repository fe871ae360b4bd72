use ff::PrimeFieldBits;
use group::Curve as _;
use orchard::ecc::curve::{Affine, Curve};
use orchard::ecc::decompose::decompose_bits;
use orchard::ecc::error::Error;
use orchard::ecc::mul::mul_points;
use orchard::field::FieldElement;
use orchard::pallas::{Base, Pallas, Scalar};
use pasta_curves::arithmetic::{CurveAffine, CurveExt};
use pasta_curves::{pallas, Fp, Fq};

fn base(v: Fp) -> Base {
    Base::from_limbs(v.to_le_bits().into_inner()).unwrap()
}

fn scalar(v: Fq) -> Scalar {
    Scalar::from_limbs(v.to_le_bits().into_inner()).unwrap()
}

fn point(p: pallas::Affine) -> Affine<Base> {
    match Option::<pasta_curves::arithmetic::Coordinates<pallas::Affine>>::from(p.coordinates()) {
        Some(c) => Affine { x: base(*c.x()), y: base(*c.y()) },
        None => Affine { x: Base::from_u64(0), y: Base::from_u64(0) },
    }
}

fn limbs(p: &Affine<Base>) -> ([u64; 4], [u64; 4]) {
    (p.x.to_limbs(), p.y.to_limbs())
}

fn ladder(k: Fq, t: pallas::Point) -> Result<Affine<Base>, Error> {
    let shifted = scalar(k).plus(&Pallas::scalar_offset());
    let bits = decompose_bits(&shifted, 255).unwrap();
    mul_points(&bits, &point(t.to_affine()))
}

#[test]
fn the_offset_completes_the_order() {
    // 2^254 + t_q is the order of the curve
    let t_q = Pallas::scalar_offset().to_limbs();
    assert_eq!(t_q, [0x8c46eb2100000001, 0x224698fc0994a8dd, 0, 0]);
    let top = Fq::from_raw([0, 0, 0, 1 << 62]);
    assert_eq!(top + Fq::from_raw(t_q), Fq::from(0u64));
}

#[test]
fn variable_base_multiplication_by_one() {
    let t = pallas::Point::hash_to_curve("orchard:tests")(b"t");
    assert_eq!(limbs(&ladder(Fq::from(1u64), t).unwrap()), limbs(&point(t.to_affine())));
}

#[test]
fn variable_base_multiplication_by_the_order_less_one() {
    let t = pallas::Point::hash_to_curve("orchard:tests")(b"t");
    let k = -Fq::from(1u64);
    assert_eq!(limbs(&ladder(k, t).unwrap()), limbs(&point((-t).to_affine())));
}

#[test]
fn variable_base_multiplication_by_samples() {
    let t = pallas::Point::hash_to_curve("orchard:tests")(b"t");
    for seed in 1..6u64 {
        let k = Fq::from_raw([
            seed,
            rand::random::<u64>(),
            rand::random::<u64>(),
            rand::random::<u64>() >> 3,
        ]);
        assert_eq!(limbs(&ladder(k, t).unwrap()), limbs(&point((t * k).to_affine())));
    }
    for k in [2u64, 3, 5, 0xffff_ffff_ffff_ffff] {
        let k = Fq::from(k);
        assert_eq!(limbs(&ladder(k, t).unwrap()), limbs(&point((t * k).to_affine())));
    }
}

#[test]
fn variable_base_multiplication_by_zero() {
    // the last step of the ladder meets the identity
    let t = pallas::Point::hash_to_curve("orchard:tests")(b"t");
    let zero = ([0u64; 4], [0u64; 4]);
    assert_eq!(limbs(&ladder(Fq::from(0u64), t).unwrap()), zero);
    assert_eq!(limbs(&point((t * Fq::from(0u64)).to_affine())), zero);
}

#[test]
fn a_base_without_a_tangent_has_no_multiples() {
    let flat = Affine { x: Base::from_u64(3), y: Base::from_u64(0) };
    let got = mul_points(&vec![true, true], &flat);
    assert_eq!(got.map(|p| limbs(&p)), Err(Error::Synthesis));
}

#[test]
fn variable_base_multiplication_needs_bits() {
    let t = point(pallas::Point::hash_to_curve("orchard:tests")(b"t").to_affine());
    assert_eq!(mul_points(&vec![], &t).map(|p| limbs(&p)), Err(Error::Synthesis));
}

#[test]
fn a_short_ladder_by_hand() {
    // three bits 1, 0, 1: the ladder gives [2^2 + 5] T = [9] T
    let t = pallas::Point::hash_to_curve("orchard:tests")(b"t");
    let got = mul_points(&vec![true, false, true], &point(t.to_affine())).unwrap();
    assert_eq!(limbs(&got), limbs(&point((t * Fq::from(9u64)).to_affine())));
    // three bits 1, 1, 0: [2^2 + 6] T = [10] T
    let got = mul_points(&vec![true, true, false], &point(t.to_affine())).unwrap();
    assert_eq!(limbs(&got), limbs(&point((t * Fq::from(10u64)).to_affine())));
}

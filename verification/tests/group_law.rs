use ff::{Field, PrimeFieldBits};
use group::Curve as _;
use orchard::ecc::add::add_points;
use orchard::ecc::add_complete::add_complete_points;
use orchard::ecc::curve::{is_on_curve, Affine};
use orchard::ecc::double::double_point;
use orchard::ecc::mul::negate_point;
use orchard::field::{BaseField, FieldElement};
use orchard::pallas::{Base, Pallas};
use pasta_curves::arithmetic::{CurveAffine, CurveExt};
use pasta_curves::{pallas, Fp, Fq};

fn base(v: Fp) -> Base {
    Base::from_limbs(v.to_le_bits().into_inner()).unwrap()
}

fn point(p: pallas::Affine) -> Affine<Base> {
    match Option::<pasta_curves::arithmetic::Coordinates<pallas::Affine>>::from(p.coordinates()) {
        Some(c) => Affine { x: base(*c.x()), y: base(*c.y()) },
        None => Affine { x: Base::from_u64(0), y: Base::from_u64(0) },
    }
}

fn limbs(p: &Affine<Base>) -> ([u64; 4], [u64; 4]) {
    (p.x.to_limbs(), p.y.to_limbs())
}

fn sample(tag: &[u8]) -> pallas::Point {
    pallas::Point::hash_to_curve("orchard:tests")(tag)
}

#[test]
fn field_arithmetic_matches_reference() {
    let a = Fp::from_raw([5, 6, 7, 8]);
    let b = Fp::from_raw([0xffff_ffff_ffff_fff1, 3, 2, 1]);
    assert_eq!(base(a).plus(&base(b)).to_limbs(), base(a + b).to_limbs());
    assert_eq!(base(a).minus(&base(b)).to_limbs(), base(a - b).to_limbs());
    assert_eq!(base(a).times(&base(b)).to_limbs(), base(a * b).to_limbs());
    assert_eq!(base(a).invert().unwrap().to_limbs(), base(a.invert().unwrap()).to_limbs());
    let sq = a * a;
    let root = base(sq).sqrt().unwrap();
    assert_eq!(root.times(&root).to_limbs(), base(sq).to_limbs());
    assert!(Base::from_u64(0).invert().is_none());
    assert!(base(a).equals(&base(a)));
    assert!(!base(a).equals(&base(b)));
    assert_eq!(Base::from_u64(7).to_limbs(), [7, 0, 0, 0]);
}

#[test]
fn modulus_is_rejected_by_from_limbs() {
    let p = [0x992d30ed00000001, 0x224698fc094cf91b, 0, 0x4000000000000000];
    assert!(Base::from_limbs(p).is_none());
    let below = [0x992d30ed00000000, 0x224698fc094cf91b, 0, 0x4000000000000000];
    assert!(Base::from_limbs(below).is_some());
}

#[test]
fn incomplete_addition_matches_group_law() {
    let p = sample(b"p");
    let q = sample(b"q");
    let sum = add_points(&point(p.to_affine()), &point(q.to_affine())).unwrap();
    assert_eq!(limbs(&sum), limbs(&point((p + q).to_affine())));
    assert!(is_on_curve::<Pallas>(&sum));
}

#[test]
fn incomplete_addition_refuses_equal_abscissas() {
    let p = point(sample(b"p").to_affine());
    assert!(add_points(&p, &p).is_none());
    assert!(add_points(&p, &negate_point(&p)).is_none());
}

#[test]
fn doubling_matches_group_law() {
    let p = sample(b"p");
    let twice = double_point(&point(p.to_affine())).unwrap();
    assert_eq!(limbs(&twice), limbs(&point((p + p).to_affine())));
}

#[test]
fn complete_addition_covers_every_case() {
    let p = sample(b"p");
    let q = sample(b"q");
    let pa = point(p.to_affine());
    let qa = point(q.to_affine());
    let zero = Affine { x: Base::from_u64(0), y: Base::from_u64(0) };
    let generic = add_complete_points(&pa, &qa).unwrap();
    assert_eq!(limbs(&generic.sum), limbs(&point((p + q).to_affine())));
    assert!(!generic.same_x && !generic.p_identity && !generic.q_identity && !generic.opposite_y);
    let same = add_complete_points(&pa, &pa).unwrap();
    assert_eq!(limbs(&same.sum), limbs(&double_point(&pa).unwrap()));
    assert!(same.same_x && !same.opposite_y);
    let opposite = add_complete_points(&pa, &negate_point(&pa)).unwrap();
    assert_eq!(limbs(&opposite.sum), limbs(&zero));
    assert!(opposite.same_x && opposite.opposite_y);
    let right = add_complete_points(&pa, &zero).unwrap();
    assert_eq!(limbs(&right.sum), limbs(&pa));
    assert!(right.q_identity);
    let left = add_complete_points(&zero, &pa).unwrap();
    assert_eq!(limbs(&left.sum), limbs(&pa));
    assert!(left.p_identity);
    let both = add_complete_points(&zero, &zero).unwrap();
    assert_eq!(limbs(&both.sum), limbs(&zero));
}

#[test]
fn complete_addition_ties_indicators_to_inverses() {
    let pa = point(sample(b"p").to_affine());
    let qa = point(sample(b"q").to_affine());
    let row = add_complete_points(&pa, &qa).unwrap();
    let one = Base::from_u64(1).to_limbs();
    assert_eq!(row.alpha.times(&qa.x.minus(&pa.x)).to_limbs(), one);
    assert_eq!(row.beta.times(&pa.x).to_limbs(), one);
    assert_eq!(row.gamma.times(&qa.x).to_limbs(), one);
    assert_eq!(row.delta.times(&pa.y.plus(&qa.y)).to_limbs(), one);
    let same = add_complete_points(&pa, &pa).unwrap();
    assert_eq!(same.alpha.to_limbs(), [0, 0, 0, 0]);
}

#[test]
fn witnessed_points_lie_on_the_curve() {
    let p = point(sample(b"p").to_affine());
    assert!(is_on_curve::<Pallas>(&p));
    let off = Affine { x: p.x, y: p.y.plus(&Base::from_u64(1)) };
    assert!(!is_on_curve::<Pallas>(&off));
    let _ = Fq::ONE;
}

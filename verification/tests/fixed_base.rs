use ff::PrimeFieldBits;
use group::Curve as _;
use orchard::ecc::chip::{EccFixedPoints, FixedBases};
use orchard::ecc::curve::Affine;
use orchard::ecc::decompose::decompose_windows;
use orchard::ecc::error::Error;
use orchard::ecc::fixed_base::{find_offset, WindowRow, WindowTable};
use orchard::ecc::interpolate::interpolate;
use orchard::ecc::mul_fixed::mul_fixed_points;
use orchard::ecc::mul_fixed_short::mul_fixed_short_points;
use orchard::ecc::poly::eval;
use orchard::ecc::window_points::window_points;
use orchard::field::{BaseField, FieldElement};
use orchard::pallas::{Base, Pallas, Scalar};
use pasta_curves::arithmetic::{CurveAffine, CurveExt};
use pasta_curves::{pallas, Fp, Fq};

fn base(v: Fp) -> Base {
    Base::from_limbs(v.to_le_bits().into_inner()).unwrap()
}

fn scalar(v: Fq) -> Scalar {
    Scalar::from_limbs(v.to_le_bits().into_inner()).unwrap()
}

fn point(p: pallas::Affine) -> Affine<Base> {
    match Option::<pasta_curves::arithmetic::Coordinates<pallas::Affine>>::from(p.coordinates()) {
        Some(c) => Affine { x: base(*c.x()), y: base(*c.y()) },
        None => Affine { x: Base::from_u64(0), y: Base::from_u64(0) },
    }
}

fn reference(p: &Affine<Base>) -> pallas::Affine {
    pallas::Affine::from_xy(Fp::from_raw(p.x.to_limbs()), Fp::from_raw(p.y.to_limbs())).unwrap()
}

fn limbs(p: &Affine<Base>) -> ([u64; 4], [u64; 4]) {
    (p.x.to_limbs(), p.y.to_limbs())
}

fn table(id: EccFixedPoints, width: u8, bits: usize) -> WindowTable<Base> {
    let n = (bits + width as usize - 1) / width as usize;
    let points = window_points::<Pallas>(&Pallas::fixed_base(id), width, n).unwrap();
    WindowTable::build(&points, width, 1 << 20).unwrap()
}

fn product(table: &WindowTable<Base>, k: Fq, bits: u16) -> Affine<Base> {
    let digits = decompose_windows(&scalar(k), bits, table.width()).unwrap();
    mul_fixed_points(table, &digits).unwrap()
}

#[test]
fn generators_are_hashed_to_the_curve() {
    let names: [(EccFixedPoints, &str, &[u8]); 5] = [
        (EccFixedPoints::CommitIvkR, "z.cash:Orchard-CommitIvk-r", b""),
        (EccFixedPoints::NoteCommitR, "z.cash:Orchard-NoteCommit-r", b""),
        (EccFixedPoints::NullifierK, "z.cash:Orchard", b"K"),
        (EccFixedPoints::ValueCommitR, "z.cash:Orchard-cv", b"r"),
        (EccFixedPoints::ValueCommitV, "z.cash:Orchard-cv", b"v"),
    ];
    for (id, domain, msg) in names {
        let g = point(pallas::Point::hash_to_curve(domain)(msg).to_affine());
        assert_eq!(limbs(&Pallas::fixed_base(id)), limbs(&g));
    }
}

#[test]
fn interpolation_takes_the_given_values() {
    let ys: Vec<Base> = (0..8u64).map(|i| Base::from_u64(i * i * i + 17)).collect();
    let coeffs = interpolate(&ys).unwrap();
    assert_eq!(coeffs.len(), 8);
    for (i, y) in ys.iter().enumerate() {
        assert_eq!(eval(&coeffs, &Base::from_u64(i as u64)).to_limbs(), y.to_limbs());
    }
    // the values of x^3 + 17 are interpolated by x^3 + 17
    assert_eq!(coeffs[0].to_limbs(), [17, 0, 0, 0]);
    assert_eq!(coeffs[3].to_limbs(), [1, 0, 0, 0]);
    assert_eq!(coeffs[7].to_limbs(), [0, 0, 0, 0]);
}

#[test]
fn evaluation_by_horner() {
    // 2 + 3 x + 5 x^2 at 7 is 268
    let c = vec![Base::from_u64(2), Base::from_u64(3), Base::from_u64(5)];
    assert_eq!(eval(&c, &Base::from_u64(7)).to_limbs(), [268, 0, 0, 0]);
    assert_eq!(eval(&Vec::<Base>::new(), &Base::from_u64(7)).to_limbs(), [0, 0, 0, 0]);
}

#[test]
fn the_offset_resolves_the_sign() {
    let g = Pallas::fixed_base(EccFixedPoints::NullifierK);
    let points = window_points::<Pallas>(&g, 2, 3).unwrap();
    let ys: Vec<Base> = points[0].iter().map(|p| p.y).collect();
    let (z, us) = find_offset(&ys, 1 << 20).unwrap();
    let zf = Base::from_u64(z);
    for (y, u) in ys.iter().zip(us.iter()) {
        assert_eq!(u.times(u).to_limbs(), y.plus(&zf).to_limbs());
        assert!(zf.minus(y).sqrt().is_none());
    }
    // no smaller offset does
    for smaller in 0..z {
        let s = Base::from_u64(smaller);
        assert!(ys.iter().any(|y| s.minus(y).sqrt().is_some() || y.plus(&s).sqrt().is_none()));
    }
    assert!(find_offset(&ys, z).is_none());
}

#[test]
fn a_row_gives_back_its_points() {
    let g = Pallas::fixed_base(EccFixedPoints::CommitIvkR);
    let points = window_points::<Pallas>(&g, 2, 2).unwrap();
    let row = WindowRow::build(&points[1], 1 << 22).unwrap();
    assert_eq!(row.size(), 4);
    for k in 0..4u64 {
        assert_eq!(limbs(&row.point(k).unwrap()), limbs(&points[1][k as usize]));
    }
    assert!(row.point(4).is_none());
    assert!(WindowRow::build(&points[1], 0).is_none());
}

#[test]
fn window_points_are_multiples_of_the_base() {
    let g = Pallas::fixed_base(EccFixedPoints::ValueCommitV);
    let b = reference(&g);
    let points = window_points::<Pallas>(&g, 3, 3).unwrap();
    assert_eq!(points.len(), 3);
    for k in 0..8u64 {
        assert_eq!(limbs(&points[0][k as usize]), limbs(&point((b * Fq::from(k + 1)).to_affine())));
        assert_eq!(
            limbs(&points[1][k as usize]),
            limbs(&point((b * Fq::from(8 * (k + 1))).to_affine()))
        );
        let last = Fq::from(64 * k) - Fq::from(9u64);
        assert_eq!(limbs(&points[2][k as usize]), limbs(&point((b * last).to_affine())));
    }
    assert!(window_points::<Pallas>(&g, 0, 3).is_none());
    assert!(window_points::<Pallas>(&g, 3, 0).is_none());
    assert!(window_points::<Pallas>(&g, 64, 3).is_none());
}

#[test]
fn fixed_base_multiplication_matches_the_group() {
    for id in [
        EccFixedPoints::CommitIvkR,
        EccFixedPoints::NoteCommitR,
        EccFixedPoints::NullifierK,
        EccFixedPoints::ValueCommitR,
    ] {
        let t = table(id, 1, 255);
        let b = reference(&Pallas::fixed_base(id));
        let samples = [
            Fq::from(0u64),
            Fq::from(1u64),
            -Fq::from(1u64),
            Fq::from_raw([rand::random(), rand::random(), rand::random(), rand::random()]),
            Fq::from_raw([u64::MAX, u64::MAX, u64::MAX, (1 << 62) - 1]),
        ];
        for k in samples {
            assert_eq!(limbs(&product(&t, k, 255)), limbs(&point((b * k).to_affine())));
        }
    }
}

#[test]
fn fixed_base_multiplication_at_window_boundaries() {
    let id = EccFixedPoints::NullifierK;
    let t = table(id, 2, 12);
    let b = reference(&Pallas::fixed_base(id));
    // every digit at its maximum, window by window
    for w in 0..6u32 {
        let k = 3u64 << (2 * w);
        assert_eq!(limbs(&product(&t, Fq::from(k), 12)), limbs(&point((b * Fq::from(k)).to_affine())));
    }
    assert_eq!(
        limbs(&product(&t, Fq::from(4095u64), 12)),
        limbs(&point((b * Fq::from(4095u64)).to_affine()))
    );
}

#[test]
fn five_times_the_value_commitment_randomness_base() {
    let t = table(EccFixedPoints::ValueCommitR, 1, 255);
    let got = product(&t, Fq::from(5u64), 255);
    assert_eq!(
        got.x.to_limbs(),
        [0x56eb37cb8fd8d88e, 0x605321b9d5dd0662, 0xba08c1d972247bf9, 0x312b6de37e33fdd5]
    );
    assert_eq!(
        got.y.to_limbs(),
        [0x977beb42e6aa8ca3, 0x0f72bf10f2532bfd, 0x93e1d758966fc1f9, 0x3110e77be6e89934]
    );
}

#[test]
fn short_multiplication_carries_the_sign() {
    let id = EccFixedPoints::ValueCommitV;
    let t = table(id, 1, 64);
    let b = reference(&Pallas::fixed_base(id));
    for m in [0u64, 1, 12345, u64::MAX] {
        let digits = decompose_windows(&Scalar::from_u64(m), 64, 1).unwrap();
        let plus = mul_fixed_short_points(&t, &digits, false).unwrap();
        let minus = mul_fixed_short_points(&t, &digits, true).unwrap();
        assert_eq!(limbs(&plus), limbs(&point((b * Fq::from(m)).to_affine())));
        assert_eq!(limbs(&minus), limbs(&point((-(b * Fq::from(m))).to_affine())));
        assert_eq!(plus.x.to_limbs(), minus.x.to_limbs());
        assert_eq!(plus.y.plus(&minus.y).to_limbs(), [0, 0, 0, 0]);
    }
}

#[test]
fn tables_are_built_the_same_twice() {
    let g = Pallas::fixed_base(EccFixedPoints::NoteCommitR);
    let points = window_points::<Pallas>(&g, 2, 4).unwrap();
    let one = WindowTable::build(&points, 2, 1 << 20).unwrap();
    let two = WindowTable::build(&points, 2, 1 << 20).unwrap();
    assert_eq!(one.num_windows(), 4);
    for w in 0..4 {
        let (a, b) = (one.row(w).unwrap(), two.row(w).unwrap());
        assert_eq!(a.offset(), b.offset());
        for k in 0..4 {
            assert_eq!(a.coefficient(k).unwrap().to_limbs(), b.coefficient(k).unwrap().to_limbs());
            assert_eq!(a.root(k).unwrap().to_limbs(), b.root(k).unwrap().to_limbs());
        }
        let again = WindowRow::with_offset(&points[w], a.offset()).unwrap();
        assert_eq!(again.root(3).unwrap().to_limbs(), a.root(3).unwrap().to_limbs());
    }
}

#[test]
fn fixed_base_multiplication_refuses_wrong_scalars() {
    let t = table(EccFixedPoints::NullifierK, 2, 8);
    assert_eq!(mul_fixed_points(&t, &vec![0, 1, 2]).map(|p| limbs(&p)), Err(Error::Synthesis));
    assert_eq!(mul_fixed_points(&t, &vec![0, 1, 2, 4]).map(|p| limbs(&p)), Err(Error::TableLookup));
    assert!(mul_fixed_points(&t, &vec![0, 1, 2, 3]).is_ok());
}

#[test]
fn tables_need_a_point_for_each_digit() {
    let g = Pallas::fixed_base(EccFixedPoints::NullifierK);
    let points = window_points::<Pallas>(&g, 2, 2).unwrap();
    assert!(WindowTable::build(&points, 3, 1 << 20).is_none());
    assert!(WindowTable::build(&points, 0, 1 << 20).is_none());
    assert!(WindowTable::<Base>::build(&Vec::new(), 2, 1 << 20).is_none());
    assert!(WindowTable::build(&points, 2, 0).is_none());
    assert!(WindowTable::with_offsets(&points, 2, &vec![0]).is_none());
}

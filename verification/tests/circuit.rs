use ff::{PrimeField, PrimeFieldBits};
use group::Curve as _;
use orchard::circuit::{verify, Cell, Column, ColumnKind, ConstraintSystem, Expression, Op, Region};
use orchard::ecc::chip::{EccChip, EccFixedPoints, EccLoaded, FixedBases};
use orchard::ecc::config::EccConfig;
use orchard::ecc::curve::Affine;
use orchard::ecc::error::Error;
use orchard::ecc::layout::{lay_add_complete, lay_point};
use orchard::field::FieldElement;
use orchard::pallas::{Base, Pallas, Scalar};
use pasta_curves::arithmetic::{CurveAffine, CurveExt};
use pasta_curves::{pallas, Fp, Fq};

fn base(v: Fp) -> Base {
    Base::from_limbs(v.to_le_bits().into_inner()).unwrap()
}

fn scalar(v: Fq) -> Scalar {
    Scalar::from_limbs(v.to_le_bits().into_inner()).unwrap()
}

fn point(p: pallas::Affine) -> Affine<Base> {
    match Option::<pasta_curves::arithmetic::Coordinates<pallas::Affine>>::from(p.coordinates()) {
        Some(c) => Affine { x: base(*c.x()), y: base(*c.y()) },
        None => Affine { x: Base::from_u64(0), y: Base::from_u64(0) },
    }
}

fn reference(p: &Affine<Base>) -> pallas::Affine {
    pallas::Affine::from_xy(Fp::from_raw(p.x.to_limbs()), Fp::from_raw(p.y.to_limbs())).unwrap()
}

fn limbs(p: &Affine<Base>) -> ([u64; 4], [u64; 4]) {
    (p.x.to_limbs(), p.y.to_limbs())
}

fn configure() -> (ConstraintSystem<Base>, EccConfig) {
    let mut meta = ConstraintSystem::new();
    let bits = meta.advice_column();
    let u = meta.advice_column();
    let a = (meta.advice_column(), meta.advice_column());
    let p = (meta.advice_column(), meta.advice_column());
    let lambda = (meta.advice_column(), meta.advice_column());
    let add_complete_inv = [
        meta.advice_column(),
        meta.advice_column(),
        meta.advice_column(),
        meta.advice_column(),
    ];
    let add_complete_bool = [
        meta.advice_column(),
        meta.advice_column(),
        meta.advice_column(),
        meta.advice_column(),
    ];
    let config = EccChip::<Pallas>::configure(
        &mut meta,
        Pallas::protocol_sizes(),
        bits,
        u,
        a,
        p,
        lambda,
        add_complete_bool,
        add_complete_inv,
    );
    (meta, config)
}

fn chip(k: u32, loaded: EccLoaded<Base>) -> (ConstraintSystem<Base>, EccChip<Pallas>) {
    let (meta, config) = configure();
    (meta, EccChip::<Pallas>::new(config, loaded, k, true).unwrap())
}

#[test]
fn ecc() {
    let k = 11;
    let (meta, mut chip) = chip(k, EccLoaded::load::<Pallas>().unwrap());

    // a random point P
    let point_val = pallas::Point::hash_to_curve("orchard:tests")(&rand::random::<u64>().to_le_bytes());
    let p = chip.witness_point(Some(point(point_val.to_affine()))).unwrap();

    // [2] P
    let doubled = chip.double(&p).unwrap();
    let real_doubled = point_val * Fq::from(2u64);
    assert_eq!(limbs(&doubled.point().unwrap()), limbs(&point(real_doubled.to_affine())));

    // [3] P by incomplete and by complete addition
    let real_added = point_val * Fq::from(3u64);
    let added = chip.add(&p, &doubled).unwrap();
    assert_eq!(limbs(&added.point().unwrap()), limbs(&point(real_added.to_affine())));
    let added_complete = chip.add_complete(&p, &doubled).unwrap();
    assert_eq!(limbs(&added_complete.point().unwrap()), limbs(&point(real_added.to_affine())));

    // fixed-base multiplication by a full-width scalar
    let k_fixed = Fq::from_raw([rand::random(), rand::random(), rand::random(), rand::random()]);
    let nullifier_k = reference(&Pallas::fixed_base(EccFixedPoints::NullifierK));
    let witnessed = chip.witness_scalar_fixed(Some(scalar(k_fixed))).unwrap();
    let mul_fixed = chip.mul_fixed(&witnessed, EccFixedPoints::NullifierK).unwrap();
    assert_eq!(
        limbs(&mul_fixed.point().unwrap()),
        limbs(&point((nullifier_k * k_fixed).to_affine()))
    );

    // fixed-base multiplication by a short signed scalar
    let magnitude = rand::random::<u64>();
    let value_commit_v = reference(&Pallas::fixed_base(EccFixedPoints::ValueCommitV));
    let short = chip.witness_scalar_fixed_short(Some(Scalar::from_u64(magnitude)), Some(true)).unwrap();
    let mul_short = chip.mul_fixed_short(&short, EccFixedPoints::ValueCommitV).unwrap();
    assert_eq!(
        limbs(&mul_short.point().unwrap()),
        limbs(&point((-(value_commit_v * Fq::from(magnitude))).to_affine()))
    );

    // variable-base multiplication
    let k_var = Fq::from_raw([rand::random(), rand::random(), rand::random(), rand::random()]);
    let scalar_var = chip.witness_scalar_var(Some(scalar(k_var))).unwrap();
    let computed = scalar_var.bits.as_ref().unwrap().iter().fold(Fq::from(0u64), |acc, bit| {
        acc * Fq::from(2u64) + Fq::from(*bit as u64)
    });
    let t_q = 45560315531506369815346746415080538113u128;
    assert_eq!(k_var + Fq::from_u128(t_q), computed);
    let mul = chip.mul(&scalar_var, &p).unwrap();
    assert_eq!(limbs(&mul.point().unwrap()), limbs(&point((point_val * k_var).to_affine())));

    assert_eq!(verify(&meta, &chip.region), Ok(()));
}

#[test]
fn five_times_the_base_over_the_windows_of_the_protocol() {
    let table = EccLoaded::table_for::<Pallas>(EccFixedPoints::ValueCommitR).unwrap();
    assert_eq!(table.full.width(), 3);
    assert_eq!(table.full.num_windows(), 85);
    assert_eq!(table.short.num_windows(), 22);
    let (meta, mut chip) = chip(8, EccLoaded::with_tables(vec![table]));
    let five = chip.witness_scalar_fixed(Some(Scalar::from_u64(5))).unwrap();
    assert_eq!(five.digits.as_ref().unwrap().len(), 85);
    assert_eq!(five.digits.as_ref().unwrap()[..2], [5, 0]);
    let product = chip.mul_fixed(&five, EccFixedPoints::ValueCommitR).unwrap().point().unwrap();
    assert_eq!(
        limbs(&product),
        (
            [0x56eb37cb8fd8d88e, 0x605321b9d5dd0662, 0xba08c1d972247bf9, 0x312b6de37e33fdd5],
            [0x977beb42e6aa8ca3, 0x0f72bf10f2532bfd, 0x93e1d758966fc1f9, 0x3110e77be6e89934]
        )
    );
    assert_eq!(chip.next_row, 85 + 86);
    assert_eq!(verify(&meta, &chip.region), Ok(()));
}

#[test]
fn the_circuit_has_its_columns_and_gates() {
    let (meta, config) = configure();
    assert_eq!(meta.num_advice, 16);
    assert_eq!(meta.num_fixed, 9);
    assert_eq!(meta.num_selectors, 10);
    assert_eq!(meta.gates.len(), 41);
    assert_eq!(meta.lookups.len(), 1);
    let digits: Vec<[u64; 4]> = meta.lookups[0].table.iter().map(|d| d.to_limbs()).collect();
    assert_eq!(digits, (0..8u64).map(|d| [d, 0, 0, 0]).collect::<Vec<_>>());
    assert_eq!(meta.permutations.len(), 2);
    assert_eq!(config.lagrange_coeffs.len(), 8);
    assert_eq!(config.fixed_z, Column { kind: ColumnKind::Fixed, index: 8 });
    assert_eq!(config.q_add.index, 0);
    assert_eq!(config.q_scalar_fixed_short.index, 9);
}

#[test]
fn a_point_off_the_curve_is_refused() {
    let (_, mut chip) = chip(4, EccLoaded::with_tables(Vec::new()));
    let off = Affine { x: Base::from_u64(1), y: Base::from_u64(1) };
    assert_eq!(chip.witness_point(Some(off)).map(|p| p.x.cell), Err(Error::InvalidPoint));
    assert_eq!(chip.next_row, 0);
    assert_eq!(chip.region.num_assigned(), 0);
}

#[test]
fn a_tampered_row_leaves_the_circuit_unsatisfied() {
    let (meta, mut chip) = chip(4, EccLoaded::with_tables(Vec::new()));
    let p = point(pallas::Point::hash_to_curve("orchard:tests")(b"p").to_affine());
    let witnessed = chip.witness_point(Some(p)).unwrap();
    let mut wrong = chip.double(&witnessed).unwrap();
    assert_eq!(verify(&meta, &chip.region), Ok(()));
    // an addition whose first operand claims a value that its cell does not hold
    wrong.x.value = Some(Base::from_u64(5));
    let _ = chip.add(&wrong, &witnessed).unwrap();
    assert_eq!(verify(&meta, &chip.region), Err(Error::ConstraintUnsatisfied));
}

#[test]
fn a_wrong_sum_fails_its_gate() {
    let (meta, config) = configure();
    let mut region = Region::<Base>::new(4, true).unwrap();
    let p = point(pallas::Point::hash_to_curve("orchard:tests")(b"p").to_affine());
    let q = point(pallas::Point::hash_to_curve("orchard:tests")(b"q").to_affine());
    let ops = vec![
        Op::Enable(config.q_add, 0),
        Op::Assign(config.p.0, 0, Some(p.x)),
        Op::Assign(config.p.1, 0, Some(p.y)),
        Op::Assign(config.a.0, 0, Some(q.x)),
        Op::Assign(config.a.1, 0, Some(q.y)),
        Op::Assign(config.a.0, 1, Some(p.x)),
        Op::Assign(config.a.1, 1, Some(p.y)),
    ];
    assert_eq!(region.run(&ops), Ok(()));
    assert_eq!(verify(&meta, &region), Err(Error::ConstraintUnsatisfied));
}

#[test]
fn a_digit_out_of_range_fails_its_lookup() {
    let (meta, config) = configure();
    let mut region = Region::<Base>::new(4, true).unwrap();
    let ops = vec![
        Op::Enable(config.q_scalar_fixed, 0),
        Op::Assign(config.bits, 0, Some(Base::from_u64(7))),
    ];
    assert_eq!(region.run(&ops), Ok(()));
    assert_eq!(verify(&meta, &region), Ok(()));
    let more = vec![
        Op::Enable(config.q_scalar_fixed, 1),
        Op::Assign(config.bits, 1, Some(Base::from_u64(8))),
    ];
    assert_eq!(region.run(&more), Ok(()));
    assert_eq!(verify(&meta, &region), Err(Error::TableLookup));
}

#[test]
fn a_number_outside_the_table_is_not_looked_up() {
    let mut meta = ConstraintSystem::<Base>::new();
    let column = meta.advice_column();
    let selector = meta.selector();
    let table = vec![Base::from_u64(0), Base::from_u64(3), Base::from_u64(9)];
    meta.lookup("squares of three", Expression::enabled(selector).times(Expression::cur(column)), table);
    // x (x - 3) must vanish as well
    let x = Expression::cur(column);
    let poly = x.duplicate().times(x.duplicate().minus(Expression::number(3)));
    meta.create_gate("roots", Expression::enabled(selector).times(poly));
    assert_eq!(meta.gates.len(), 1);
    assert_eq!(meta.gates[0].name, "roots");
    let mut region = Region::<Base>::new(2, true).unwrap();
    region.enable(selector, 0).unwrap();
    region.assign(column, 0, Some(Base::from_u64(3))).unwrap();
    assert_eq!(verify(&meta, &region), Ok(()));
    // a row without a selector is not looked at
    region.assign(column, 1, Some(Base::from_u64(4))).unwrap();
    assert_eq!(verify(&meta, &region), Ok(()));
    // nine is in the table and no root of the polynomial
    region.enable(selector, 2).unwrap();
    region.assign(column, 2, Some(Base::from_u64(9))).unwrap();
    assert_eq!(verify(&meta, &region), Err(Error::ConstraintUnsatisfied));
}

#[test]
fn cells_are_assigned_once() {
    let mut region = Region::<Base>::new(2, true).unwrap();
    let column = Column { kind: ColumnKind::Advice, index: 0 };
    assert_eq!(region.assign(column, 0, Some(Base::from_u64(7))), Ok(Cell { column, row: 0 }));
    assert_eq!(region.assign(column, 0, Some(Base::from_u64(8))), Err(Error::Synthesis));
    assert_eq!(region.assign(column, 4, Some(Base::from_u64(8))), Err(Error::Synthesis));
    assert_eq!(region.assign(column, 3, None), Err(Error::Synthesis));
    assert_eq!(region.num_assigned(), 1);
    assert_eq!(region.find(Cell { column, row: 0 }).unwrap().value.unwrap().to_limbs(), [7, 0, 0, 0]);
    assert!(region.find(Cell { column, row: 1 }).is_none());
    let mut shape = Region::<Base>::new(2, false).unwrap();
    assert_eq!(shape.assign(column, 3, None), Ok(Cell { column, row: 3 }));
    assert!(Region::<Base>::new(64, true).is_none());
}

#[test]
fn polynomials_are_evaluated_on_rows() {
    let mut region = Region::<Base>::new(2, true).unwrap();
    let column = Column { kind: ColumnKind::Advice, index: 0 };
    region.assign(column, 0, Some(Base::from_u64(3))).unwrap();
    region.assign(column, 1, Some(Base::from_u64(5))).unwrap();
    // x (x' - 2) with x on the row and x' on the next
    let poly = Expression::cur(column).times(Expression::next(column).minus(Expression::number(2)));
    assert_eq!(poly.evaluate(&region, 0).to_limbs(), [9, 0, 0, 0]);
    // the row after the last holds nothing
    assert_eq!(poly.evaluate(&region, 1).to_limbs(), Base::from_u64(0).minus(&Base::from_u64(10)).to_limbs());
    assert_eq!(poly.duplicate().evaluate(&region, 0).to_limbs(), [9, 0, 0, 0]);
}

#[test]
fn the_shape_is_laid_out_without_values() {
    let (meta, config) = configure();
    let mut chip = EccChip::<Pallas>::new(config, EccLoaded::with_tables(Vec::new()), 10, false).unwrap();
    let p = chip.witness_point(None).unwrap();
    let q = chip.witness_point(None).unwrap();
    let sum = chip.add_complete(&p, &q).unwrap();
    assert!(sum.point().is_none());
    let k = chip.witness_scalar_var(None).unwrap();
    assert_eq!(k.k_bits.len(), 255);
    let product = chip.mul(&k, &sum).unwrap();
    assert!(product.x.value.is_none());
    assert_eq!(chip.next_row, 1 + 1 + 2 + 255 + 258);
    assert_eq!(product.x.cell.row, chip.next_row - 1);
    let _ = meta;
}

#[test]
fn a_proving_region_needs_values() {
    let (_, mut chip) = chip(4, EccLoaded::with_tables(Vec::new()));
    assert_eq!(chip.witness_point(None).map(|p| p.x.cell), Err(Error::Synthesis));
}

#[test]
fn the_region_runs_out_of_rows() {
    let (_, mut chip) = chip(1, EccLoaded::with_tables(Vec::new()));
    let p = point(pallas::Point::hash_to_curve("orchard:tests")(b"p").to_affine());
    let a = chip.witness_point(Some(p)).unwrap();
    let b = chip.double(&a).unwrap();
    assert_eq!(chip.add(&a, &b).map(|p| p.x.cell), Err(Error::Synthesis));
}

#[test]
fn a_base_that_is_not_loaded_cannot_be_multiplied() {
    let (_, mut chip) = chip(8, EccLoaded::with_tables(Vec::new()));
    let k = chip.witness_scalar_fixed(Some(Scalar::from_u64(5))).unwrap();
    assert_eq!(k.digits.as_ref().unwrap()[0], 5);
    assert_eq!(chip.mul_fixed(&k, EccFixedPoints::NullifierK).map(|p| p.x.cell), Err(Error::Synthesis));
    assert!(chip.get_fixed(EccFixedPoints::NullifierK).is_err());
    assert_eq!(EccFixedPoints::NullifierK.name(), "NullifierK");
    assert!(EccFixedPoints::CommitIvkR < EccFixedPoints::NoteCommitR);
}

#[test]
fn the_bases_are_ordered_as_their_names_are() {
    let all = [
        EccFixedPoints::CommitIvkR,
        EccFixedPoints::NoteCommitR,
        EccFixedPoints::NullifierK,
        EccFixedPoints::ValueCommitR,
        EccFixedPoints::ValueCommitV,
    ];
    let names = ["CommitIvkR", "NoteCommitR", "NullifierK", "ValueCommitR", "ValueCommitV"];
    for (i, a) in all.iter().enumerate() {
        assert_eq!(a.name(), names[i]);
        assert_eq!(a.index(), i);
        for b in all.iter() {
            assert_eq!(a.cmp(b), a.name().cmp(b.name()));
            assert_eq!(a.partial_cmp(b), Some(a.name().cmp(b.name())));
            assert_eq!(a == b, a.name() == b.name());
        }
    }
}

#[test]
fn every_cell_of_a_complete_addition_is_forced() {
    let p = point(pallas::Point::hash_to_curve("orchard:tests")(b"p").to_affine());
    let q = point(pallas::Point::hash_to_curve("orchard:tests")(b"q").to_affine());
    let mut tampered = 0;
    for i in 0..64 {
        let (meta, mut chip) = chip(4, EccLoaded::with_tables(Vec::new()));
        let a = chip.witness_point(Some(p)).unwrap();
        let b = chip.witness_point(Some(q)).unwrap();
        let mut ops = lay_add_complete(&chip.config, &a, &b, chip.next_row).unwrap().ops;
        if i == 0 {
            // as laid out, the rows are satisfied
            let mut region = Region::<Base>::new(4, true).unwrap();
            let first = lay_point::<Pallas>(&chip.config, Some(p), 0).unwrap().ops;
            let second = lay_point::<Pallas>(&chip.config, Some(q), 1).unwrap().ops;
            assert_eq!(region.run(&first), Ok(()));
            assert_eq!(region.run(&second), Ok(()));
            assert_eq!(region.run(&ops), Ok(()));
            assert_eq!(verify(&meta, &region), Ok(()));
        }
        if i >= ops.len() {
            break;
        }
        // one more in one cell, and the rows are satisfied no longer
        if let Op::Assign(column, row, Some(v)) = ops[i] {
            ops[i] = Op::Assign(column, row, Some(v.plus(&Base::from_u64(1))));
            assert_eq!(chip.region.run(&ops), Ok(()));
            assert_eq!(verify(&meta, &chip.region), Err(Error::ConstraintUnsatisfied));
            tampered += 1;
        }
    }
    // the two operands, four indicators, four inverses, the slope and the sum
    assert_eq!(tampered, 4 + 4 + 4 + 1 + 2);
}

#[test]
fn a_bit_that_is_two_is_refused_by_its_gate() {
    let (meta, config) = configure();
    let mut region = Region::<Base>::new(4, true).unwrap();
    let ops = vec![
        Op::Enable(config.q_scalar_var, 0),
        Op::Assign(config.bits, 0, Some(Base::from_u64(1))),
        Op::Enable(config.q_scalar_fixed_short, 1),
        Op::Assign(config.bits, 1, Some(Base::from_u64(0))),
    ];
    assert_eq!(region.run(&ops), Ok(()));
    assert_eq!(verify(&meta, &region), Ok(()));
    let mut bit = Region::<Base>::new(4, true).unwrap();
    let two = vec![Op::Enable(config.q_scalar_var, 0), Op::Assign(config.bits, 0, Some(Base::from_u64(2)))];
    assert_eq!(bit.run(&two), Ok(()));
    assert_eq!(verify(&meta, &bit), Err(Error::ConstraintUnsatisfied));
    let mut sign = Region::<Base>::new(4, true).unwrap();
    let two = vec![
        Op::Enable(config.q_scalar_fixed_short, 0),
        Op::Assign(config.bits, 0, Some(Base::from_u64(2))),
    ];
    assert_eq!(sign.run(&two), Ok(()));
    assert_eq!(verify(&meta, &sign), Err(Error::ConstraintUnsatisfied));
}

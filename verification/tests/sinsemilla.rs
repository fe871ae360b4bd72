use ff::PrimeFieldBits;
use group::Curve as _;
use orchard::circuit::{verify, ConstraintSystem, Op, Region};
use orchard::ecc::curve::Affine;
use orchard::ecc::error::Error;
use orchard::field::FieldElement;
use orchard::pallas::Base;
use orchard::sinsemilla::{hash_step, SinsemillaColumns, SinsemillaConfig};
use pasta_curves::arithmetic::{CurveAffine, CurveExt};
use pasta_curves::{pallas, Fp};

fn base(v: Fp) -> Base {
    Base::from_limbs(v.to_le_bits().into_inner()).unwrap()
}

fn point(p: pallas::Point) -> Affine<Base> {
    let c = p.to_affine().coordinates().unwrap();
    Affine { x: base(*c.x()), y: base(*c.y()) }
}

fn limbs(p: &Affine<Base>) -> ([u64; 4], [u64; 4]) {
    (p.x.to_limbs(), p.y.to_limbs())
}

fn generator(word: u8) -> pallas::Point {
    pallas::Point::hash_to_curve("orchard:tests:S")(&[word])
}

fn configure() -> (ConstraintSystem<Base>, SinsemillaConfig) {
    let mut meta = ConstraintSystem::new();
    let sinsemilla = meta.selector();
    let columns = SinsemillaColumns::new(
        sinsemilla,
        meta.advice_column(),
        meta.advice_column(),
        meta.advice_column(),
        meta.advice_column(),
        meta.advice_column(),
    );
    let config = SinsemillaConfig::configure(&mut meta, columns);
    (meta, config)
}

/// The rows of a hash of the words from the given start: on each row the
/// accumulator's abscissa, the slopes and the generator's abscissa, and the
/// last abscissa on the row after the last word.
fn rows(config: &SinsemillaConfig, start: pallas::Point, words: &[u8]) -> (Vec<Op<Base>>, Affine<Base>) {
    let c = config.columns;
    let mut acc = point(start);
    let mut ops = Vec::new();
    for (row, word) in words.iter().enumerate() {
        let p = point(generator(*word));
        let step = hash_step(&acc, &p).unwrap();
        if row + 1 < words.len() {
            ops.push(Op::Enable(c.sinsemilla, row));
        }
        ops.push(Op::Assign(c.x_a, row, Some(acc.x)));
        ops.push(Op::Assign(c.x_p, row, Some(p.x)));
        ops.push(Op::Assign(c.lambda1, row, Some(step.lambda1)));
        ops.push(Op::Assign(c.lambda2, row, Some(step.lambda2)));
        acc = step.next;
    }
    ops.push(Op::Assign(c.x_a, words.len(), Some(acc.x)));
    (ops, acc)
}

#[test]
fn a_step_takes_the_generator_in() {
    let q = pallas::Point::hash_to_curve("orchard:tests:Q")(b"domain");
    let p = generator(3);
    let step = hash_step(&point(q), &point(p)).unwrap();
    assert_eq!(limbs(&step.next), limbs(&point((q + p) + q)));
    // the same abscissa leaves no chord
    assert!(hash_step(&point(q), &point(q)).is_none());
    assert!(hash_step(&point(q), &point(-q)).is_none());
}

#[test]
fn the_words_of_a_message_are_taken_in_their_order() {
    let (_, config) = configure();
    let q = pallas::Point::hash_to_curve("orchard:tests:Q")(b"domain");
    let (_, acc) = rows(&config, q, &[1, 2, 3]);
    let mut expected = q;
    for word in [1u8, 2, 3] {
        expected = (expected + generator(word)) + expected;
    }
    assert_eq!(limbs(&acc), limbs(&point(expected)));
}

#[test]
fn the_rows_of_a_hash_satisfy_its_gates() {
    let (meta, config) = configure();
    assert_eq!(meta.gates.len(), 2);
    assert_eq!(meta.gates[0].name, "Sinsemilla expr1");
    assert_eq!(meta.gates[1].name, "Sinsemilla expr2");
    let q = pallas::Point::hash_to_curve("orchard:tests:Q")(b"domain");
    let (ops, _) = rows(&config, q, &[1, 2, 3, 4]);
    let mut region = Region::<Base>::new(3, true).unwrap();
    assert_eq!(region.run(&ops), Ok(()));
    assert_eq!(verify(&meta, &region), Ok(()));
    // one more in a cell, and a row is satisfied no longer
    for i in 0..ops.len() {
        let mut wrong = ops.clone();
        if let Op::Assign(column, row, Some(v)) = wrong[i] {
            if row == 4 {
                // the last abscissa stands behind the last row that has a gate
                continue;
            }
            wrong[i] = Op::Assign(column, row, Some(v.plus(&Base::from_u64(1))));
            let mut region = Region::<Base>::new(3, true).unwrap();
            assert_eq!(region.run(&wrong), Ok(()));
            assert_eq!(verify(&meta, &region), Err(Error::ConstraintUnsatisfied), "cell {}", i);
        }
    }
}

use orchard::circuit::{verify, ConstraintSystem};
use orchard::ecc::chip::{EccChip, EccFixedPoints, EccLoaded, FixedBases};
use orchard::ecc::curve::{is_on_curve, Affine, Curve};
use orchard::ecc::decompose::decompose_windows;
use orchard::ecc::fixed_base::WindowTable;
use orchard::ecc::group_table::is_group;
use orchard::ecc::mul_fixed::mul_fixed_points;
use orchard::ecc::window_points::window_points;
use orchard::field::{BaseField, FieldElement};
use orchard::toy::{Toy, ToyBase, ToyScalar};

const P: u64 = 211;
const Q: u64 = 199;

fn power(base: u64, mut e: u64, m: u64) -> u64 {
    let (mut acc, mut b) = (1u64, base % m);
    while e > 0 {
        if e & 1 == 1 {
            acc = acc * b % m;
        }
        b = b * b % m;
        e >>= 1;
    }
    acc
}

/// The group law on pairs, with `None` for the identity.
fn sum(a: Option<(u64, u64)>, b: Option<(u64, u64)>) -> Option<(u64, u64)> {
    let ((x1, y1), (x2, y2)) = match (a, b) {
        (None, _) => return b,
        (_, None) => return a,
        (Some(a), Some(b)) => (a, b),
    };
    let l = if x1 == x2 {
        if (y1 + y2) % P == 0 {
            return None;
        }
        3 * x1 * x1 % P * power(2 * y1, P - 2, P) % P
    } else {
        (y2 + P - y1) % P * power((x2 + P - x1) % P, P - 2, P) % P
    };
    let x3 = (l * l + 2 * P - x1 - x2) % P;
    Some((x3, (l * ((x1 + P - x3) % P) + P - y1) % P))
}

fn multiple(k: u64, p: (u64, u64)) -> Option<(u64, u64)> {
    (0..k % Q).fold(None, |acc, _| sum(acc, Some(p)))
}

fn point(p: Option<(u64, u64)>) -> Affine<ToyBase> {
    let (x, y) = p.unwrap_or((0, 0));
    Affine { x: ToyBase::from_u64(x), y: ToyBase::from_u64(y) }
}

fn pair(p: &Affine<ToyBase>) -> (u64, u64) {
    (p.x.to_u64(), p.y.to_u64())
}

fn chip(k: u32) -> (ConstraintSystem<ToyBase>, EccChip<Toy>) {
    let mut meta = ConstraintSystem::new();
    let bits = meta.advice_column();
    let u = meta.advice_column();
    let a = (meta.advice_column(), meta.advice_column());
    let p = (meta.advice_column(), meta.advice_column());
    let lambda = (meta.advice_column(), meta.advice_column());
    let flags = [
        meta.advice_column(),
        meta.advice_column(),
        meta.advice_column(),
        meta.advice_column(),
    ];
    let inverses = [
        meta.advice_column(),
        meta.advice_column(),
        meta.advice_column(),
        meta.advice_column(),
    ];
    let config =
        EccChip::<Toy>::configure(&mut meta, Toy::protocol_sizes(), bits, u, a, p, lambda, flags, inverses);
    let loaded = EccLoaded::load::<Toy>().unwrap();
    (meta, EccChip::<Toy>::new(config, loaded, k, true).unwrap())
}

#[test]
fn toy_field_arithmetic() {
    let (a, b) = (ToyBase::from_u64(200), ToyBase::from_u64(30));
    assert_eq!(a.plus(&b).to_u64(), 19);
    assert_eq!(b.minus(&a).to_u64(), 41);
    assert_eq!(a.times(&b).to_u64(), 92);
    assert_eq!(ToyBase::from_u64(1000).to_u64(), 156);
    assert_eq!(ToyBase::from_u64(2).invert().unwrap().to_u64(), 106);
    assert!(ToyBase::from_u64(0).invert().is_none());
    for v in 1..P {
        let x = ToyBase::from_u64(v);
        assert_eq!(x.times(&x.invert().unwrap()).to_u64(), 1);
        let square = x.times(&x);
        let root = square.sqrt().unwrap();
        assert_eq!(root.times(&root).to_u64(), square.to_u64());
        assert!(root.to_u64() <= P - root.to_u64());
    }
    // two is no square, so that no point has the abscissa zero
    assert!(ToyBase::from_u64(2).sqrt().is_none());
    assert!(ToyBase::from_u64(5).bit(0) && !ToyBase::from_u64(5).bit(1) && ToyBase::from_u64(5).bit(2));
    assert!(!ToyBase::from_u64(5).bit(64));
    assert_eq!(ToyScalar::from_u64(198).plus(&ToyScalar::from_u64(3)).to_u64(), 2);
    assert_eq!(ToyScalar::from_u64(3).minus(&ToyScalar::from_u64(5)).to_u64(), 197);
    assert_eq!(ToyScalar::from_u64(100).times(&ToyScalar::from_u64(2)).to_u64(), 1);
}

#[test]
fn toy_multiples_match_repeated_addition() {
    let g = (4, 53);
    assert!(is_on_curve::<Toy>(&point(Some(g))));
    for k in 0..Q + 3 {
        let got = Toy::scalar_mul(&point(Some(g)), &ToyScalar::from_u64(k));
        assert_eq!(pair(&got), multiple(k, g).unwrap_or((0, 0)));
    }
    assert_eq!(multiple(Q, g), None);
    assert_eq!(Toy::scalar_offset().to_u64() + 128, Q);
}

#[test]
fn toy_variable_base_multiplication_by_every_scalar() {
    let g = (7, 61);
    for k in 0..Q {
        let (meta, mut chip) = chip(6);
        let base = chip.witness_point(Some(point(Some(g)))).unwrap();
        let scalar = chip.witness_scalar_var(Some(ToyScalar::from_u64(k))).unwrap();
        let product = chip.mul(&scalar, &base).unwrap();
        assert_eq!(pair(&product.point().unwrap()), multiple(k, g).unwrap_or((0, 0)), "k = {}", k);
        assert_eq!(verify(&meta, &chip.region), Ok(()), "k = {}", k);
    }
}

#[test]
fn toy_fixed_base_multiplication_by_every_scalar() {
    for id in [EccFixedPoints::CommitIvkR, EccFixedPoints::NullifierK, EccFixedPoints::ValueCommitR] {
        let g = pair(&Toy::fixed_base(id));
        for k in 0..Q {
            let (meta, mut chip) = chip(6);
            let scalar = chip.witness_scalar_fixed(Some(ToyScalar::from_u64(k))).unwrap();
            let product = chip.mul_fixed(&scalar, id).unwrap();
            assert_eq!(pair(&product.point().unwrap()), multiple(k, g).unwrap_or((0, 0)));
            assert_eq!(verify(&meta, &chip.region), Ok(()));
        }
    }
}

#[test]
fn toy_short_multiplication_by_every_magnitude() {
    let id = EccFixedPoints::ValueCommitV;
    let g = pair(&Toy::fixed_base(id));
    for m in 0..16u64 {
        for sign in [false, true] {
            let (meta, mut chip) = chip(6);
            let scalar =
                chip.witness_scalar_fixed_short(Some(ToyScalar::from_u64(m)), Some(sign)).unwrap();
            let product = chip.mul_fixed_short(&scalar, id).unwrap();
            let expected = multiple(if sign { Q - m } else { m }, g).unwrap_or((0, 0));
            assert_eq!(pair(&product.point().unwrap()), expected);
            assert_eq!(verify(&meta, &chip.region), Ok(()));
        }
    }
    let (_, mut chip) = chip(6);
    assert!(chip.witness_scalar_fixed_short(Some(ToyScalar::from_u64(16)), Some(false)).is_err());
}

#[test]
fn toy_additions_in_the_circuit() {
    let g = (15, 1);
    let (meta, mut chip) = chip(6);
    let p = chip.witness_point(Some(point(Some(g)))).unwrap();
    let twice = chip.double(&p).unwrap();
    assert_eq!(pair(&twice.point().unwrap()), multiple(2, g).unwrap());
    let thrice = chip.add(&p, &twice).unwrap();
    assert_eq!(pair(&thrice.point().unwrap()), multiple(3, g).unwrap());
    let again = chip.add_complete(&twice, &p).unwrap();
    assert_eq!(pair(&again.point().unwrap()), multiple(3, g).unwrap());
    let same = chip.add_complete(&p, &p).unwrap();
    assert_eq!(pair(&same.point().unwrap()), multiple(2, g).unwrap());
    let minus = chip.witness_point(Some(point(multiple(Q - 1, g)))).unwrap();
    let nothing = chip.add_complete(&p, &minus).unwrap();
    assert_eq!(pair(&nothing.point().unwrap()), (0, 0));
    let back = chip.add_complete(&nothing, &p).unwrap();
    assert_eq!(pair(&back.point().unwrap()), g);
    let still = chip.add_complete(&nothing, &nothing).unwrap();
    assert_eq!(pair(&still.point().unwrap()), (0, 0));
    assert_eq!(EccChip::<Toy>::extract_p(&back).value.unwrap().to_u64(), 15);
    assert_eq!(verify(&meta, &chip.region), Ok(()));
}

#[test]
fn toy_tables_found_by_search_are_those_of_the_offsets() {
    for id in [EccFixedPoints::NoteCommitR, EccFixedPoints::ValueCommitV] {
        let g = Toy::fixed_base(id);
        let points = window_points::<Toy>(&g, 1, 8).unwrap();
        let searched = WindowTable::build(&points, 1, 211).unwrap();
        let offsets = Toy::fixed_offsets(id, false);
        for w in 0..8 {
            assert_eq!(searched.row(w).unwrap().offset(), offsets[w]);
        }
        let digits = decompose_windows(&ToyScalar::from_u64(0b1011_0110), 8, 1).unwrap();
        let product = mul_fixed_points(&searched, &digits).unwrap();
        assert_eq!(pair(&product), multiple(0b1011_0110, pair(&g)).unwrap());
    }
}

fn multiples_of(base: &Affine<ToyBase>) -> Vec<Affine<ToyBase>> {
    (0..Q).map(|k| Toy::scalar_mul(base, &ToyScalar::from_u64(k))).collect()
}

#[test]
fn the_multiples_of_every_base_add_as_a_group() {
    for id in [
        EccFixedPoints::CommitIvkR,
        EccFixedPoints::NoteCommitR,
        EccFixedPoints::NullifierK,
        EccFixedPoints::ValueCommitR,
        EccFixedPoints::ValueCommitV,
    ] {
        let table = multiples_of(&Toy::fixed_base(id));
        assert_eq!(table.len(), 199);
        assert_eq!(pair(&table[1]), pair(&Toy::fixed_base(id)));
        assert!(is_group(&table));
    }
}

#[test]
fn a_table_with_a_wrong_entry_is_no_group() {
    let base = Toy::fixed_base(EccFixedPoints::NullifierK);
    let good = multiples_of(&base);
    // two entries exchanged
    let mut swapped = good.clone();
    swapped.swap(5, 6);
    assert!(!is_group(&swapped));
    // the identity in a place that is not the first
    let mut early = good.clone();
    early[7] = point(None);
    assert!(!is_group(&early));
    // a point in the place of the identity
    let mut late = good.clone();
    late[0] = base;
    assert!(!is_group(&late));
    // a table that stops before the order
    assert!(!is_group(&good[..198].to_vec()));
    // too few entries to have an order above two
    assert!(!is_group(&good[..2].to_vec()));
    assert!(!is_group(&Vec::<Affine<ToyBase>>::new()));
}

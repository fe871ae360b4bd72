use ff::PrimeFieldBits;
use orchard::ecc::decompose::{check_windows, decompose_bits, decompose_windows};
use orchard::ecc::error::Error;
use orchard::field::FieldElement;
use orchard::pallas::Scalar;
use pasta_curves::Fq;

fn scalar(v: Fq) -> Scalar {
    Scalar::from_limbs(v.to_le_bits().into_inner()).unwrap()
}

fn recompose(digits: &[u64], width: u32) -> [u64; 4] {
    let mut limbs = [0u64; 4];
    for (i, d) in digits.iter().enumerate() {
        for b in 0..width {
            if (d >> b) & 1 == 1 {
                let pos = i as u32 * width + b;
                if pos < 256 {
                    limbs[(pos / 64) as usize] |= 1u64 << (pos % 64);
                } else {
                    panic!("a digit beyond 256 bits");
                }
            }
        }
    }
    limbs
}

#[test]
fn windows_of_a_small_scalar() {
    // 0b101_110_011 = 371: windows 3, 6, 5 from the least significant
    let digits = decompose_windows(&Scalar::from_u64(371), 9, 3).unwrap();
    assert_eq!(digits, vec![3, 6, 5]);
    // nine bits in windows of four: the last window is padded
    let digits = decompose_windows(&Scalar::from_u64(371), 9, 4).unwrap();
    assert_eq!(digits, vec![3, 7, 1]);
}

#[test]
fn windows_recompose_to_the_scalar() {
    for seed in 0..8u64 {
        let k = Fq::from_raw([
            seed.wrapping_mul(0x9e37_79b9_7f4a_7c15),
            rand::random::<u64>(),
            rand::random::<u64>(),
            rand::random::<u64>(),
        ]);
        for width in [1u8, 2, 3, 5, 8] {
            let digits = decompose_windows(&scalar(k), 255, width).unwrap();
            assert_eq!(digits.len(), (255 + width as usize - 1) / width as usize);
            assert!(check_windows(&digits, width).is_ok());
            assert_eq!(recompose(&digits, width as u32), k.to_le_bits().into_inner());
        }
    }
}

#[test]
fn extreme_scalars_recompose() {
    for k in [Fq::from(0u64), Fq::from(1u64), -Fq::from(1u64)] {
        let digits = decompose_windows(&scalar(k), 255, 3).unwrap();
        assert_eq!(digits.len(), 85);
        assert_eq!(recompose(&digits, 3), k.to_le_bits().into_inner());
    }
}

#[test]
fn bits_are_most_significant_first() {
    let bits = decompose_bits(&Scalar::from_u64(0b1011), 6).unwrap();
    assert_eq!(bits, vec![false, false, true, false, true, true]);
    let k = -Fq::from(1u64);
    let bits = decompose_bits(&scalar(k), 255).unwrap();
    assert_eq!(bits.len(), 255);
    let mut digits: Vec<u64> = bits.iter().map(|b| *b as u64).collect();
    digits.reverse();
    assert_eq!(recompose(&digits, 1), k.to_le_bits().into_inner());
}

#[test]
fn a_scalar_that_does_not_fit_fails_the_lookup() {
    assert_eq!(decompose_windows(&Scalar::from_u64(512), 9, 3), Err(Error::TableLookup));
    assert_eq!(decompose_windows(&Scalar::from_u64(511), 9, 3), Ok(vec![7, 7, 7]));
    assert_eq!(decompose_bits(&Scalar::from_u64(64), 6), Err(Error::TableLookup));
    let wide = Scalar::from_limbs([0, 1, 0, 0]).unwrap();
    assert_eq!(decompose_windows(&wide, 64, 3), Err(Error::TableLookup));
    assert!(decompose_windows(&Scalar::from_u64(u64::MAX), 64, 3).is_ok());
}

#[test]
fn a_digit_outside_its_window_fails_the_lookup() {
    assert_eq!(check_windows(&vec![0, 7, 3], 3), Ok(()));
    assert_eq!(check_windows(&vec![0, 8, 3], 3), Err(Error::TableLookup));
    assert_eq!(check_windows(&vec![], 3), Ok(()));
}

#[test]
fn bits_of_field_elements() {
    let k = Scalar::from_limbs([1 << 63, 0, 5, 1 << 61]).unwrap();
    assert!(k.bit(63));
    assert!(!k.bit(62));
    assert!(k.bit(128));
    assert!(!k.bit(129));
    assert!(k.bit(130));
    assert!(k.bit(253));
    assert!(!k.bit(254));
    assert!(!k.bit(255));
    assert!(!k.bit(256));
    assert!(!k.bit(100_000));
}

//! The fixed bases of the protocol on Pallas: their generators, and for
//! each window of each base the least offset `z` for which `y + z` is a
//! square and `z - y` is none for the ordinate `y` of each of the window's
//! eight points.

use crate::ecc::chip::{EccFixedPoints, FixedBases};
use crate::ecc::config::Sizes;
use crate::ecc::curve::{Affine, Pt};
use crate::field::FieldElement;
use crate::limbs::limbs_value;
use crate::pallas::{Base, Pallas};
use vstd::prelude::*;

verus! {

/// The width of a window of a fixed-base scalar, in bits.
pub const FIXED_BASE_WINDOW_SIZE: u8 = 3;

/// The number of bits of a scalar.
pub const L_ORCHARD_SCALAR: u16 = 255;

/// The number of bits of the magnitude of a short signed scalar.
pub const L_VALUE: u16 = 64;

/// The number of windows of a full-width scalar.
pub const NUM_WINDOWS: usize = 85;

/// The number of windows of a short scalar.
pub const NUM_WINDOWS_SHORT: usize = 22;

/// The generator for the randomness of the commitment to an incoming viewing key.
pub const COMMIT_IVK_R_GENERATOR: ([u64; 4], [u64; 4]) = (
    [0x9823486e5ff8a118, 0x02957fe2d31aedc7, 0x1634290a40808948, 0x25a22ccd5070134e],
    [0x3fe793b3e37fdda9, 0x6b4442fb1b58a6c7, 0xc2c890c4284b5794, 0x29cfd29966a2faeb],
);

/// The offsets of the 85 windows of full-width scalars for this base.
pub const COMMIT_IVK_R_Z: [u64; 85] = [
    133414, 132530, 61749, 42515, 4299, 103560, 26189, 59273, 26067, 90209, 97122, 42096,
    13661, 113221, 132211, 151891, 48064, 33439, 42882, 17732, 93064, 67219, 49456, 186518,
    43848, 63405, 22520, 46420, 12467, 154966, 125899, 42187, 84854, 13611, 54223, 24862, 9772,
    27381, 34604, 96610, 185393, 124617, 27649, 183056, 25728, 74336, 144634, 35435, 213642,
    65414, 19988, 26459, 92056, 10376, 53397, 44864, 86022, 32394, 9070, 83600, 9325, 76364,
    45619, 5760, 72515, 12798, 7241, 31751, 6921, 144732, 39324, 157316, 305054, 18088, 1800,
    13210, 17202, 62257, 7870, 29354, 13058, 28856, 93643, 44623, 91612,
];

/// The offsets of the 22 windows of short scalars for this base.
pub const COMMIT_IVK_R_Z_SHORT: [u64; 22] = [
    133414, 132530, 61749, 42515, 4299, 103560, 26189, 59273, 26067, 90209, 97122, 42096,
    13661, 113221, 132211, 151891, 48064, 33439, 42882, 17732, 93064, 41592,
];

/// The generator for the randomness of a note commitment.
pub const NOTE_COMMIT_R_GENERATOR: ([u64; 4], [u64; 4]) = (
    [0x2c022c480ffc6e13, 0x239ec55cfc14a47c, 0xcd239fab936f3df2, 0x26b206c328a94533],
    [0xc34153c622cf37e3, 0x79c7c07823e0dcf6, 0xa9541a2f2366e1c6, 0x3cde564b686dc04c],
);

/// The offsets of the 85 windows of full-width scalars for this base.
pub const NOTE_COMMIT_R_Z: [u64; 85] = [
    155220, 149209, 41597, 241238, 6973, 20743, 156795, 87570, 22436, 24528, 137240, 107576,
    45145, 34693, 80867, 112645, 149987, 332815, 66113, 188821, 2242, 113811, 141021, 18927,
    27267, 34618, 61161, 17896, 16273, 111899, 6742, 16076, 8704, 49956, 76257, 114244, 91654,
    204722, 24831, 1274, 267469, 56204, 185485, 11268, 10910, 49740, 108843, 34927, 115819,
    102065, 35127, 7677, 11865, 15349, 135578, 102782, 25167, 171530, 54242, 53921, 182669,
    41306, 83763, 52467, 23258, 38659, 113108, 207245, 72911, 159139, 2047, 181411, 81996,
    7176, 42355, 362271, 36498, 40022, 12446, 53230, 40964, 188983, 296549, 96324, 31941,
];

/// The offsets of the 22 windows of short scalars for this base.
pub const NOTE_COMMIT_R_Z_SHORT: [u64; 22] = [
    155220, 149209, 41597, 241238, 6973, 20743, 156795, 87570, 22436, 24528, 137240, 107576,
    45145, 34693, 80867, 112645, 149987, 332815, 66113, 188821, 2242, 31421,
];

/// The generator for the derivation of a nullifier.
pub const NULLIFIER_K_GENERATOR: ([u64; 4], [u64; 4]) = (
    [0xd36f6aa7e447ca75, 0x5e7eb192ccb5db9b, 0x2e375571faf4c9cf, 0x25e7aa169ca8198d],
    [0x2db8dce21ae001cc, 0x5fe0a49ec1c1b433, 0x880473442008ff75, 0x155c1f851b1a3384],
);

/// The offsets of the 85 windows of full-width scalars for this base.
pub const NULLIFIER_K_Z: [u64; 85] = [
    59680, 18375, 148089, 22649, 55638, 31724, 189010, 99554, 34146, 97075, 83728, 12128,
    67446, 50009, 9804, 9066, 80455, 100009, 8105, 17854, 26367, 7067, 146, 79702, 98768,
    61730, 70755, 18368, 66386, 5164, 35907, 18035, 103962, 117650, 15380, 15660, 106189,
    50575, 16904, 2506, 22569, 140089, 31833, 39865, 209322, 67561, 63200, 239533, 345462,
    134278, 21273, 92846, 19927, 233129, 42399, 5824, 88946, 19815, 79585, 10296, 642, 27063,
    3985, 97851, 26508, 12554, 8338, 238507, 105874, 23230, 3197, 27925, 47050, 61748, 139587,
    7325, 10167, 127643, 33638, 281989, 34968, 30489, 25162, 65319, 38045,
];

/// The offsets of the 22 windows of short scalars for this base.
pub const NULLIFIER_K_Z_SHORT: [u64; 22] = [
    59680, 18375, 148089, 22649, 55638, 31724, 189010, 99554, 34146, 97075, 83728, 12128,
    67446, 50009, 9804, 9066, 80455, 100009, 8105, 17854, 26367, 2376,
];

/// The generator for the randomness of a value commitment.
pub const VALUE_COMMIT_R_GENERATOR: ([u64; 4], [u64; 4]) = (
    [0x0ec3c668883c5a91, 0x406ed745ee90802f, 0x4f66235bea8d2048, 0x07f444550fa409bb],
    [0x0e2f46c8a772d9ca, 0x279229f1f3928146, 0x21562cc9e46fb7c2, 0x24136777af26628c],
);

/// The offsets of the 85 windows of full-width scalars for this base.
pub const VALUE_COMMIT_R_Z: [u64; 85] = [
    135106, 79324, 46447, 92514, 28623, 86894, 93781, 11143, 158136, 75814, 48518, 54761,
    161094, 3585, 68500, 886, 95559, 46124, 21709, 5240, 104255, 160868, 300, 42550, 59471,
    141961, 11817, 59266, 9438, 5023, 53706, 164080, 2571, 46721, 32164, 7766, 73774, 109606,
    87127, 63709, 110263, 45555, 93596, 59857, 55907, 523691, 13186, 33902, 1921, 2897, 7380,
    73356, 13091, 51786, 40514, 293667, 91232, 121698, 98438, 73095, 239849, 77639, 25996,
    55673, 50216, 12007, 3203, 88199, 56008, 20999, 85852, 4939, 26494, 90820, 112023, 81656,
    69654, 95138, 60783, 24667, 5870, 30361, 59292, 58252, 25312,
];

/// The offsets of the 22 windows of short scalars for this base.
pub const VALUE_COMMIT_R_Z_SHORT: [u64; 22] = [
    135106, 79324, 46447, 92514, 28623, 86894, 93781, 11143, 158136, 75814, 48518, 54761,
    161094, 3585, 68500, 886, 95559, 46124, 21709, 5240, 104255, 214469,
];

/// The generator for the value of a value commitment.
pub const VALUE_COMMIT_V_GENERATOR: ([u64; 4], [u64; 4]) = (
    [0x2aa7bd6e3af94367, 0xfe04a37f2b5a7c8c, 0xf7a86a704f9bb232, 0x2f70597a8e3d0f42],
    [0xa413c47eaf5af28e, 0x1d9ea766a7ffe3db, 0x1e917f63136d6c42, 0x2d0e5169311919af],
);

/// The offsets of the 85 windows of full-width scalars for this base.
pub const VALUE_COMMIT_V_Z: [u64; 85] = [
    159178, 83716, 37986, 35465, 96663, 56068, 39598, 2197, 184235, 13632, 185448, 4724, 77161,
    38274, 68455, 144608, 35437, 202901, 33132, 71081, 80102, 22289, 1863, 16516, 86407, 17542,
    11213, 103988, 48267, 919, 19477, 56940, 67677, 57614, 163175, 139319, 32839, 170497,
    22967, 5530, 63355, 21974, 104673, 52523, 10909, 154317, 168017, 57602, 81560, 481, 5823,
    237287, 9671, 193249, 69185, 123122, 137684, 14177, 26941, 69125, 25938, 24193, 10936,
    226683, 285275, 96900, 79103, 3561, 70111, 10205, 23437, 3293, 273629, 1571, 18829, 41330,
    18172, 9472, 198551, 11764, 295374, 9094, 43795, 3272, 10789,
];

/// The offsets of the 22 windows of short scalars for this base.
pub const VALUE_COMMIT_V_Z_SHORT: [u64; 22] = [
    159178, 83716, 37986, 35465, 96663, 56068, 39598, 2197, 184235, 13632, 185448, 4724, 77161,
    38274, 68455, 144608, 35437, 202901, 33132, 71081, 80102, 38982,
];

/// The limbs of the coordinates of the generator of a fixed base.
pub open spec fn generator_limbs(id: EccFixedPoints) -> ([u64; 4], [u64; 4]) {
    match id {
        EccFixedPoints::CommitIvkR => COMMIT_IVK_R_GENERATOR,
        EccFixedPoints::NoteCommitR => NOTE_COMMIT_R_GENERATOR,
        EccFixedPoints::NullifierK => NULLIFIER_K_GENERATOR,
        EccFixedPoints::ValueCommitR => VALUE_COMMIT_R_GENERATOR,
        EccFixedPoints::ValueCommitV => VALUE_COMMIT_V_GENERATOR,
    }
}

/// The vector that holds the elements of an array.
fn to_vec<const N: usize>(values: &[u64; N]) -> (r: Vec<u64>)
    ensures
        r@ == values@,
{
    let mut v: Vec<u64> = Vec::new();
    let mut i: usize = 0;
    while i < N
        invariant
            i <= N,
            v.len() == i,
            forall|j: int| 0 <= j < i ==> v[j] == values[j],
        decreases N - i,
    {
        v.push(values[i]);
        i = i + 1;
    }
    proof {
        assert(v@ =~= values@);
    }
    v
}

impl FixedBases for Pallas {
    open spec fn sizes() -> Sizes {
        Sizes {
            window_width: FIXED_BASE_WINDOW_SIZE,
            scalar_bits: L_ORCHARD_SCALAR,
            short_bits: L_VALUE,
        }
    }

    open spec fn generator(id: EccFixedPoints) -> Pt {
        Pt { x: limbs_value(generator_limbs(id).0), y: limbs_value(generator_limbs(id).1) }
    }

    open spec fn offsets(id: EccFixedPoints, short: bool) -> Seq<u64> {
        match (id, short) {
            (EccFixedPoints::CommitIvkR, false) => COMMIT_IVK_R_Z@,
            (EccFixedPoints::CommitIvkR, true) => COMMIT_IVK_R_Z_SHORT@,
            (EccFixedPoints::NoteCommitR, false) => NOTE_COMMIT_R_Z@,
            (EccFixedPoints::NoteCommitR, true) => NOTE_COMMIT_R_Z_SHORT@,
            (EccFixedPoints::NullifierK, false) => NULLIFIER_K_Z@,
            (EccFixedPoints::NullifierK, true) => NULLIFIER_K_Z_SHORT@,
            (EccFixedPoints::ValueCommitR, false) => VALUE_COMMIT_R_Z@,
            (EccFixedPoints::ValueCommitR, true) => VALUE_COMMIT_R_Z_SHORT@,
            (EccFixedPoints::ValueCommitV, false) => VALUE_COMMIT_V_Z@,
            (EccFixedPoints::ValueCommitV, true) => VALUE_COMMIT_V_Z_SHORT@,
        }
    }

    fn protocol_sizes() -> (r: Sizes) {
        Sizes {
            window_width: FIXED_BASE_WINDOW_SIZE,
            scalar_bits: L_ORCHARD_SCALAR,
            short_bits: L_VALUE,
        }
    }

    fn fixed_base(id: EccFixedPoints) -> (r: Affine<Base>) {
        let (x, y) = match id {
            EccFixedPoints::CommitIvkR => COMMIT_IVK_R_GENERATOR,
            EccFixedPoints::NoteCommitR => NOTE_COMMIT_R_GENERATOR,
            EccFixedPoints::NullifierK => NULLIFIER_K_GENERATOR,
            EccFixedPoints::ValueCommitR => VALUE_COMMIT_R_GENERATOR,
            EccFixedPoints::ValueCommitV => VALUE_COMMIT_V_GENERATOR,
        };
        match (Base::from_limbs(x), Base::from_limbs(y)) {
            (Some(x), Some(y)) => Affine { x, y },
            _ => Affine { x: Base::from_u64(0), y: Base::from_u64(0) },
        }
    }

    fn fixed_offsets(id: EccFixedPoints, short: bool) -> (r: Vec<u64>) {
        match (id, short) {
            (EccFixedPoints::CommitIvkR, false) => to_vec(&COMMIT_IVK_R_Z),
            (EccFixedPoints::CommitIvkR, true) => to_vec(&COMMIT_IVK_R_Z_SHORT),
            (EccFixedPoints::NoteCommitR, false) => to_vec(&NOTE_COMMIT_R_Z),
            (EccFixedPoints::NoteCommitR, true) => to_vec(&NOTE_COMMIT_R_Z_SHORT),
            (EccFixedPoints::NullifierK, false) => to_vec(&NULLIFIER_K_Z),
            (EccFixedPoints::NullifierK, true) => to_vec(&NULLIFIER_K_Z_SHORT),
            (EccFixedPoints::ValueCommitR, false) => to_vec(&VALUE_COMMIT_R_Z),
            (EccFixedPoints::ValueCommitR, true) => to_vec(&VALUE_COMMIT_R_Z_SHORT),
            (EccFixedPoints::ValueCommitV, false) => to_vec(&VALUE_COMMIT_V_Z),
            (EccFixedPoints::ValueCommitV, true) => to_vec(&VALUE_COMMIT_V_Z_SHORT),
        }
    }
}

} // verus!

//! In-circuit elliptic-curve arithmetic: the witness computations and the
//! polynomial identities of point addition, doubling and scalar
//! multiplication over a prime field, with the hashes that are built on the
//! points and the bundle of actions that they serve.

pub mod builder;
pub mod bundle;
pub mod circuit;
pub mod constants;
pub mod ecc;
pub mod field;
pub mod keys;
pub mod limbs;
pub mod note;
pub mod pallas;
pub mod poseidon;
pub mod sinsemilla;
pub mod toy;
pub mod tree;
pub mod value;

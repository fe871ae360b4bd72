//! Keys and addresses, as far as bundles carry them.

use vstd::prelude::*;

verus! {

/// A key that signs.
#[derive(Clone, Copy, Debug)]
pub struct SigningKey(pub [u8; 32]);

/// A key that verifies signatures.
#[derive(Clone, Copy, Debug)]
pub struct VerificationKey(pub [u8; 32]);

/// A signature.
#[derive(Clone, Copy, Debug)]
pub struct Signature(pub [u8; 64]);

/// The key that validates the spending of a note.
#[derive(Clone, Copy, Debug)]
pub struct SpendValidatingKey(pub VerificationKey);

/// A key that gives a view of all that an account receives and spends.
#[derive(Clone, Copy, Debug)]
pub struct FullViewingKey(pub [u8; 96]);

/// A key that gives a view of what an account sends.
#[derive(Clone, Copy, Debug)]
pub struct OutgoingViewingKey(pub [u8; 32]);

/// A shielded payment address.
#[derive(Clone, Copy, Debug)]
pub struct Address(pub [u8; 43]);

} // verus!

//! Notes and what is published of them.

use crate::ecc::curve::Affine;
use crate::keys::Address;
use crate::pallas::Base;
use crate::value::NoteValue;
use vstd::prelude::*;

verus! {

/// The unique tag that spending a note reveals.
#[derive(Clone, Copy, Debug)]
pub struct Nullifier(pub Base);

/// A commitment to a note.
#[derive(Clone, Copy, Debug)]
pub struct NoteCommitment(pub Affine<Base>);

/// The ciphertext of a note for its recipient.
#[derive(Clone, Copy, Debug)]
pub struct EncryptedNote;

/// A note: a value held by an address.
#[derive(Clone, Copy, Debug)]
pub struct Note {
    pub recipient: Address,
    pub value: NoteValue,
    pub rho: Nullifier,
}

impl Note {
    /// The value of the note.
    pub fn value(&self) -> (r: NoteValue)
        ensures
            r == self.value,
    {
        self.value
    }
}

} // verus!

//! The commitment tree, as far as bundles name it.

use vstd::prelude::*;

verus! {

/// The root of a commitment tree.
#[derive(Clone, Debug)]
pub struct Anchor;

/// The path from a note commitment to the root of the tree.
#[derive(Debug)]
pub struct MerklePath;

} // verus!

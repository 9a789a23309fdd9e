use vstd::prelude::*;

verus! {

/// The ways an operation of this library can fail.
#[derive(Clone, Copy, Debug, PartialEq, Eq, Structural)]
pub enum MlsError {
    /// A leaf index is out of range, or names a blank leaf slot.
    InvalidLeafIndex,
    /// The tree, or a path handed to it, does not have the shape it must have.
    InvalidTreeStructure,
    /// A node index lies outside the tree.
    InvalidNodeIndex,
    /// Arithmetic on a timestamp would leave the range of `u64`.
    TimeOverflow,
}

} // verus!

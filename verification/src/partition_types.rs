//! What a partition is for.

use vstd::prelude::*;

use crate::guid::Guid;

verus! {

/// The type of a partition, told by an identifier that is the same on every
/// disk.
#[derive(Clone, Copy, Debug, PartialEq, Eq, Structural)]
pub struct Type {
    /// Identifier of the type. The all-zero one marks an entry that is not in
    /// use.
    pub guid: Guid,
}

} // verus!

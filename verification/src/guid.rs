//! Globally unique identifiers of disks, partitions and partition types.

use vstd::prelude::*;

verus! {

/// A globally unique identifier, held as the number that its sixteen bytes
/// spell when the first byte is the most significant one.
#[derive(Clone, Copy, Debug, PartialEq, Eq, Structural)]
pub struct Guid {
    /// The identifier as a number.
    pub value: u128,
}

impl Guid {
    /// Whether the version and variant bits mark this as a random (version
    /// four) identifier: the version nibble is four and the variant bits are
    /// `10`.
    pub open spec fn is_random(self) -> bool {
        &&& (self.value as int / 0x1000_0000_0000_0000_0000) % 16 == 4
        &&& (self.value as int / 0x4000_0000_0000_0000) % 4 == 2
    }
}

/// Draws a fresh identifier with [`uuid::Uuid::new_v4`].
///
/// Trusted: whatever the operating system's random source yields, that
/// function sets the version nibble to four and the variant bits to `10`, and
/// `as_u128` packs the bytes in order. Nothing is said of the remaining bits,
/// which are random. Where the random source itself fails, that function does
/// not return but panics.
#[verifier::external_body]
pub(crate) fn random_guid() -> (guid: Guid)
    ensures
        guid.is_random(),
{
    Guid { value: uuid::Uuid::new_v4().as_u128() }
}

} // verus!

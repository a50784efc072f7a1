//! Logical blocks, the unit in which a disk is addressed.

use vstd::prelude::*;

verus! {

/// The size of one logical block (sector).
#[derive(Clone, Copy, Debug, PartialEq, Eq, Structural)]
pub enum LogicalBlockSize {
    /// Blocks of 512 bytes.
    Lb512,
    /// Blocks of 4096 bytes.
    Lb4096,
}

/// The block size that a disk is taken to have unless told otherwise.
pub const DEFAULT_SECTOR_SIZE: LogicalBlockSize = LogicalBlockSize::Lb512;

impl LogicalBlockSize {
    /// The number of bytes in one block.
    pub open spec fn bytes(self) -> u64 {
        match self {
            LogicalBlockSize::Lb512 => 512,
            LogicalBlockSize::Lb4096 => 4096,
        }
    }
}

impl From<LogicalBlockSize> for u64 {
    fn from(lb_size: LogicalBlockSize) -> (bytes: u64) {
        match lb_size {
            LogicalBlockSize::Lb512 => 512,
            LogicalBlockSize::Lb4096 => 4096,
        }
    }
}

impl vstd::std_specs::convert::FromSpecImpl<LogicalBlockSize> for u64 {
    open spec fn obeys_from_spec() -> bool {
        true
    }

    open spec fn from_spec(lb_size: LogicalBlockSize) -> u64 {
        lb_size.bytes()
    }
}

} // verus!

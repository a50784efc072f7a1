//! The header of a partition table, and what a new one is built from.

use vstd::prelude::*;

use crate::disk::LogicalBlockSize;
use crate::guid::Guid;

verus! {

/// A table header as it stands on disk. The disk holds two: the primary one
/// near its start and the backup one at its end.
#[derive(Clone, Copy, Debug, PartialEq, Eq, Structural)]
pub struct Header {
    /// Major and minor revision of the format.
    pub revision: u32,
    /// Size of the header in bytes.
    pub header_size: u32,
    /// Checksum of the header.
    pub crc32: u32,
    /// The block that holds this header.
    pub current_lba: u64,
    /// The block that holds the other header.
    pub backup_lba: u64,
    /// The first block that a partition may use.
    pub first_usable: u64,
    /// The last block that a partition may use.
    pub last_usable: u64,
    /// Identifier of the disk.
    pub disk_guid: Guid,
    /// The first block of the partition array.
    pub part_start: u64,
    /// Number of entries in the partition array.
    pub num_parts: u32,
    /// Size of one entry of the partition array in bytes.
    pub part_size: u32,
    /// Checksum of the partition array.
    pub crc32_parts: u32,
}

/// Why a header could not be read, built or written.
#[derive(Debug)]
pub struct HeaderError {
    /// What went wrong, in words.
    pub text: String,
}

/// What a header is to be built from.
#[derive(Clone, Copy, Debug, PartialEq, Eq, Structural)]
pub struct HeaderRequest {
    /// The header to start from, if there is one already.
    pub base: Option<Header>,
    /// Number of entries that the partition array must have.
    pub num_parts: u32,
    /// The block of the backup header.
    pub backup_lba: u64,
    /// Identifier of the disk.
    pub disk_guid: Guid,
    /// Whether this is the primary header.
    pub primary: bool,
    /// The block size of the disk.
    pub lb_size: LogicalBlockSize,
}

} // verus!

//! Writing a table back: which operations are performed on the device, in which
//! order, and how they end.

use vstd::prelude::*;

use crate::disk::LogicalBlockSize;
use crate::error::GptError;
use crate::gpt_disk::{DiskView, GptDisk};
use crate::header::Header;
use crate::partition::{in_use, list_used_ids, lists_used, Partition, used_ids};

verus! {

/// An operation on the device.
#[derive(Debug)]
pub enum DeviceOp {
    /// Find out which block holds the backup header.
    FindBackupLba {
        /// The block size of the disk.
        lb_size: LogicalBlockSize,
    },
    /// Write a partition into a slot of a partition array.
    WriteEntry {
        /// The partition.
        partition: Partition,
        /// The slot.
        index: u64,
        /// The first block of the array.
        part_start: u64,
        /// The block size of the disk.
        lb_size: LogicalBlockSize,
        /// The size of a slot in bytes.
        part_size: u32,
    },
    /// Write zeros into slots of a partition array.
    ZeroEntries {
        /// The first slot.
        index: u64,
        /// The number of slots.
        count: u64,
        /// The first block of the array.
        part_start: u64,
        /// The block size of the disk.
        lb_size: LogicalBlockSize,
        /// The size of a slot in bytes.
        part_size: u32,
    },
    /// Write the backup header.
    WriteBackupHeader {
        /// The header.
        header: Header,
        /// The block size of the disk.
        lb_size: LogicalBlockSize,
    },
    /// Write the primary header.
    WritePrimaryHeader {
        /// The header.
        header: Header,
        /// The block size of the disk.
        lb_size: LogicalBlockSize,
    },
    /// Flush what was written.
    Flush,
}

/// Writing the partition number `slot` in the order of `used_ids` to the slot of
/// that number, in the array of `header`.
pub open spec fn entry_op<D>(disk: DiskView<D>, header: Header, slot: int) -> DeviceOp {
    DeviceOp::WriteEntry {
        partition: disk.partitions[used_ids(disk.partitions)[slot]],
        index: slot as u64,
        part_start: header.part_start,
        lb_size: disk.config.lb_size,
        part_size: header.part_size,
    }
}

/// Writing one partition: to the primary array, and to the backup array where
/// there is one at another place.
pub open spec fn slot_ops<D>(disk: DiskView<D>, slot: int) -> Seq<DeviceOp> {
    let primary = disk.primary_header->0;
    match disk.backup_header {
        Some(backup) if backup.part_start != primary.part_start => seq![
            entry_op(disk, primary, slot),
            entry_op(disk, backup, slot),
        ],
        _ => seq![entry_op(disk, primary, slot)],
    }
}

/// Writing the first `count` partitions in use.
pub open spec fn entries_ops<D>(disk: DiskView<D>, count: nat) -> Seq<DeviceOp>
    decreases count,
{
    if count == 0 {
        Seq::empty()
    } else {
        entries_ops(disk, (count - 1) as nat) + slot_ops(disk, count - 1)
    }
}

/// Writing zeros behind the partitions in use, in the array of `header`.
pub open spec fn zero_op<D>(disk: DiskView<D>, header: Header) -> DeviceOp {
    let used = used_ids(disk.partitions).len();
    DeviceOp::ZeroEntries {
        index: used as u64,
        count: (header.num_parts - used) as u64,
        part_start: header.part_start,
        lb_size: disk.config.lb_size,
        part_size: header.part_size,
    }
}

/// A header as it is written. Where the identifier of the disk is still that of
/// the primary header, each header is written as it stands: the two need not
/// match. Else the identifier was changed, and both headers get the new one.
pub open spec fn header_to_write<D>(disk: DiskView<D>, header: Header) -> Header {
    if disk.primary_header->0.disk_guid == disk.guid {
        header
    } else {
        Header { disk_guid: disk.guid, ..header }
    }
}

/// What follows the partitions: the rest of the arrays, the headers, the flush.
pub open spec fn closing_ops<D>(disk: DiskView<D>) -> Seq<DeviceOp> {
    let lb_size = disk.config.lb_size;
    let primary = disk.primary_header->0;
    let ending = seq![
        DeviceOp::WritePrimaryHeader { header: header_to_write(disk, primary), lb_size },
        DeviceOp::Flush,
    ];
    match disk.backup_header {
        Some(backup) => seq![
            zero_op(disk, primary),
            zero_op(disk, backup),
            DeviceOp::WriteBackupHeader { header: header_to_write(disk, backup), lb_size },
        ] + ending,
        None => seq![zero_op(disk, primary)] + ending,
    }
}

/// The number of partitions for which every array has a slot.
pub open spec fn slots<D>(disk: DiskView<D>) -> int {
    let primary = disk.primary_header->0.num_parts as int;
    match disk.backup_header {
        Some(backup) if backup.num_parts < primary => backup.num_parts as int,
        _ => primary,
    }
}

/// Whether there are more partitions in use than slots.
pub open spec fn overflows<D>(disk: DiskView<D>) -> bool {
    used_ids(disk.partitions).len() > slots(disk)
}

/// All operations that writing the table takes. Where the partitions do not fit,
/// those that do are written, and the next one to the primary array if that one
/// still has a slot.
pub open spec fn script<D>(disk: DiskView<D>) -> Seq<DeviceOp> {
    let used = used_ids(disk.partitions).len();
    let start = seq![DeviceOp::FindBackupLba { lb_size: disk.config.lb_size }];
    if !overflows(disk) {
        start + entries_ops(disk, used) + closing_ops(disk)
    } else if slots(disk) < disk.primary_header->0.num_parts {
        start + entries_ops(disk, slots(disk) as nat) + seq![
            entry_op(disk, disk.primary_header->0, slots(disk)),
        ]
    } else {
        start + entries_ops(disk, slots(disk) as nat)
    }
}

/// A table that is being written: some operations are still to be performed.
#[derive(Debug)]
pub struct WriteSession {
    ops: Vec<DeviceOp>,
    done: usize,
    overflow: bool,
}

/// What is left of a write.
#[verifier::ext_equal]
pub struct WriteView {
    /// The operations that are still to be performed, in order.
    pub remaining: Seq<DeviceOp>,
    /// Whether the write then ends for lack of slots.
    pub overflow: bool,
}

/// How far a write has come.
#[derive(Debug)]
pub enum WriteStep {
    /// An operation is to be performed.
    Perform(WriteSession),
    /// The write has ended.
    Done(Result<(), GptError>),
}

impl View for WriteSession {
    type V = WriteView;

    closed spec fn view(&self) -> WriteView {
        WriteView {
            remaining: self.ops@.skip(self.done as int),
            overflow: self.overflow,
        }
    }
}

impl WriteView {
    /// How the write ends once all operations are performed.
    pub open spec fn ending(self) -> Result<(), GptError> {
        if self.overflow {
            Err(GptError::OverflowPartitionCount)
        } else {
            Ok(())
        }
    }
}

impl WriteSession {
    /// Some operation is left.
    #[verifier::type_invariant]
    closed spec fn unfinished(self) -> bool {
        self.done < self.ops@.len()
    }

    /// The start of a write.
    fn new(ops: Vec<DeviceOp>, overflow: bool) -> (r: WriteSession)
        requires
            ops@.len() > 0,
        ensures
            r@ == (WriteView { remaining: ops@, overflow }),
    {
        assert(ops@.skip(0) =~= ops@);
        WriteSession { ops, done: 0, overflow }
    }

    /// The operation to perform next.
    pub fn next_op(&self) -> (r: &DeviceOp)
        ensures
            self@.remaining.len() > 0,
            *r == self@.remaining[0],
    {
        proof {
            use_type_invariant(self);
        }
        &self.ops[self.done]
    }

    /// Takes how the operation went. A failure ends the write with it; after the
    /// last operation the write ends.
    pub fn on_performed(self, reply: Result<(), GptError>) -> (r: WriteStep)
        ensures
            self@.remaining.len() > 0,
            match reply {
                Err(e) => r == WriteStep::Done(Err(e)),
                Ok(_) => if self@.remaining.len() == 1 {
                    r == WriteStep::Done(self@.ending())
                } else {
                    r matches WriteStep::Perform(next) && next@ == (WriteView {
                        remaining: self@.remaining.drop_first(),
                        ..self@
                    })
                },
            },
    {
        proof {
            use_type_invariant(&self);
        }
        match reply {
            Err(e) => WriteStep::Done(Err(e)),
            Ok(_) => {
                let count: usize = self.ops.len();
                let done: usize = self.done + 1;
                if done < count {
                    assert(self.ops@.skip(done as int) =~= self@.remaining.drop_first());
                    WriteStep::Perform(WriteSession { done, ..self })
                } else if self.overflow {
                    WriteStep::Done(Err(GptError::OverflowPartitionCount))
                } else {
                    WriteStep::Done(Ok(()))
                }
            },
        }
    }
}

impl<D> GptDisk<D> {
    /// Persist state to disk.
    ///
    /// This is a destructive action, as it overwrites headers and partitions
    /// entries on disk. The operations are handed out one by one, and all writes
    /// are flushed before the last one is done. A changed identifier of the disk
    /// is written with the headers. A disk that is not writable, or has no table
    /// yet, is refused before any operation.
    pub fn write_inplace(&self) -> (r: WriteStep)
        requires
            self@.valid(),
        ensures
            if !self@.config.writable {
                r == WriteStep::Done(Err(GptError::ReadOnly))
            } else if !self@.config.initialized {
                r == WriteStep::Done(Err(GptError::NotInitialized))
            } else {
                r matches WriteStep::Perform(session) && session@ == (WriteView {
                    remaining: script(self@),
                    overflow: overflows(self@),
                })
            },
    {
        if !self.is_writable() {
            return WriteStep::Done(Err(GptError::ReadOnly));
        }
        if !self.is_initialized() {
            return WriteStep::Done(Err(GptError::NotInitialized));
        }
        let lb_size: LogicalBlockSize = *self.logical_block_size();
        let primary: Header = *self.primary_header().unwrap();
        let backup: Option<Header> = match self.backup_header() {
            Some(header) => Some(*header),
            None => None,
        };
        let ids: Vec<u32> = list_used_ids(self.partitions());
        let ghost start: Seq<DeviceOp> = seq![DeviceOp::FindBackupLba { lb_size }];
        let mut ops: Vec<DeviceOp> = Vec::new();
        ops.push(DeviceOp::FindBackupLba { lb_size });
        assert(ops@ =~= start + entries_ops(self@, 0));
        for part_idx in 0..ids.len()
            invariant
                self@.config.writable,
                self@.config.initialized,
                self@.primary_header == Some(primary),
                self@.backup_header == backup,
                self@.config.lb_size == lb_size,
                ids@ == used_ids(self@.partitions),
                lists_used(self@.partitions, ids@),
                start == seq![DeviceOp::FindBackupLba { lb_size }],
                ops@ == start + entries_ops(self@, part_idx as nat),
                part_idx <= slots(self@),
        {
            let id: u32 = ids[part_idx];
            assert(ids@.contains(id));
            assert(in_use(self@.partitions, id));
            // The partition array must not be overrun.
            if part_idx >= primary.num_parts as usize {
                assert(ops@ =~= script(self@));
                return WriteStep::Perform(WriteSession::new(ops, true));
            }
            let partition: &Partition = self.partitions().get(&id).unwrap();
            ops.push(
                DeviceOp::WriteEntry {
                    partition: partition.clone(),
                    index: part_idx as u64,
                    part_start: primary.part_start,
                    lb_size,
                    part_size: primary.part_size,
                },
            );
            // The backup array must hold the same partitions as the primary one.
            if let Some(header) = backup {
                if part_idx >= header.num_parts as usize {
                    assert(ops@ =~= script(self@));
                    return WriteStep::Perform(WriteSession::new(ops, true));
                }
                if primary.part_start != header.part_start {
                    ops.push(
                        DeviceOp::WriteEntry {
                            partition: partition.clone(),
                            index: part_idx as u64,
                            part_start: header.part_start,
                            lb_size,
                            part_size: header.part_size,
                        },
                    );
                }
            }
            assert(ops@ =~= start + entries_ops(self@, (part_idx + 1) as nat));
        }
        let used: u64 = ids.len() as u64;
        ops.push(
            DeviceOp::ZeroEntries {
                index: used,
                count: primary.num_parts as u64 - used,
                part_start: primary.part_start,
                lb_size,
                part_size: primary.part_size,
            },
        );
        if let Some(header) = backup {
            ops.push(
                DeviceOp::ZeroEntries {
                    index: used,
                    count: header.num_parts as u64 - used,
                    part_start: header.part_start,
                    lb_size,
                    part_size: header.part_size,
                },
            );
            let header: Header = self.updated_header(&primary, header);
            ops.push(DeviceOp::WriteBackupHeader { header, lb_size });
        }
        let header: Header = self.updated_header(&primary, primary);
        ops.push(DeviceOp::WritePrimaryHeader { header, lb_size });
        ops.push(DeviceOp::Flush);
        assert(ops@ =~= script(self@));
        WriteStep::Perform(WriteSession::new(ops, false))
    }

    /// A header as it is written.
    fn updated_header(&self, primary: &Header, header: Header) -> (r: Header)
        requires
            self@.primary_header == Some(*primary),
        ensures
            r == header_to_write(self@, header),
    {
        if primary.disk_guid == *self.guid() {
            header
        } else {
            Header { disk_guid: *self.guid(), ..header }
        }
    }

    /// Persist state to disk, consuming this disk object: after a write with the
    /// given outcome, hands out the device or the error.
    pub fn write(self, outcome: Result<(), GptError>) -> (r: Result<D, GptError>)
        ensures
            r == match outcome {
                Ok(_) => Ok(self@.device),
                Err(e) => Err(e),
            },
    {
        match outcome {
            Ok(_) => Ok(self.take_device()),
            Err(e) => Err(e),
        }
    }
}

} // verus!

//! What writing a table leaves on the device: laws of [`crate::write`].

use vstd::prelude::*;

use crate::gpt_disk::DiskView;
use crate::guid::Guid;
use crate::header::Header;
use crate::open::OpenView;
use crate::partition::{Partition, used_ids};
use crate::write::{
    closing_ops, DeviceOp, entries_ops, entry_op, header_to_write, overflows, script, slot_ops,
    slots, WriteView, zero_op,
};

verus! {

/// What a slot of a partition array holds after an operation.
pub enum Slot {
    /// What it held before.
    Untouched,
    /// Zeros.
    Zeros,
    /// A partition.
    Entry(Partition),
}

/// What one operation does to the slot number `slot` of the array that starts at
/// the block `part_start`. Arrays that start at different blocks are taken to have
/// no block in common.
pub open spec fn effect(op: DeviceOp, part_start: u64, slot: int) -> Slot {
    match op {
        DeviceOp::WriteEntry { partition, index, part_start: start, .. } => if start == part_start
            && index == slot {
            Slot::Entry(partition)
        } else {
            Slot::Untouched
        },
        DeviceOp::ZeroEntries { index, count, part_start: start, .. } => if start == part_start
            && index <= slot < index + count {
            Slot::Zeros
        } else {
            Slot::Untouched
        },
        _ => Slot::Untouched,
    }
}

/// What a slot holds after operations: the last one that touches it decides.
pub open spec fn slot_after(ops: Seq<DeviceOp>, part_start: u64, slot: int) -> Slot
    decreases ops.len(),
{
    if ops.len() == 0 {
        Slot::Untouched
    } else {
        match effect(ops.last(), part_start, slot) {
            Slot::Untouched => slot_after(ops.drop_last(), part_start, slot),
            touched => touched,
        }
    }
}

proof fn lemma_slot_after_concat(
    a: Seq<DeviceOp>,
    b: Seq<DeviceOp>,
    part_start: u64,
    slot: int,
)
    ensures
        slot_after(a + b, part_start, slot) == match slot_after(b, part_start, slot) {
            Slot::Untouched => slot_after(a, part_start, slot),
            touched => touched,
        },
    decreases b.len(),
{
    if b.len() == 0 {
        assert(a + b =~= a);
    } else {
        assert((a + b).last() == b.last());
        assert((a + b).drop_last() =~= a + b.drop_last());
        lemma_slot_after_concat(a, b.drop_last(), part_start, slot);
    }
}

proof fn lemma_slot_after_push(ops: Seq<DeviceOp>, op: DeviceOp, part_start: u64, slot: int)
    ensures
        slot_after(ops.push(op), part_start, slot) == match effect(op, part_start, slot) {
            Slot::Untouched => slot_after(ops, part_start, slot),
            touched => touched,
        },
{
    assert(ops.push(op).drop_last() =~= ops);
}

/// Whether the array that starts at `part_start` is written: it is that of the
/// primary header, or that of the backup header.
spec fn is_array<D>(disk: DiskView<D>, part_start: u64) -> bool {
    ||| disk.primary_header->0.part_start == part_start
    ||| disk.backup_header matches Some(backup) && backup.part_start == part_start
}

proof fn lemma_entries<D>(disk: DiskView<D>, count: nat, part_start: u64, slot: int)
    requires
        disk.primary_header is Some,
        is_array(disk, part_start),
        count <= used_ids(disk.partitions).len(),
        count <= u64::MAX,
        0 <= slot,
    ensures
        slot_after(entries_ops(disk, count), part_start, slot) == if slot < count {
            Slot::Entry(disk.partitions[used_ids(disk.partitions)[slot]])
        } else {
            Slot::Untouched
        },
    decreases count,
{
    if count > 0 {
        let before = (count - 1) as nat;
        let primary = disk.primary_header->0;
        lemma_entries(disk, before, part_start, slot);
        let one = seq![entry_op(disk, primary, count - 1)];
        lemma_slot_after_concat(
            entries_ops(disk, before),
            slot_ops(disk, count - 1),
            part_start,
            slot,
        );
        assert(one =~= Seq::empty().push(entry_op(disk, primary, count - 1)));
        lemma_slot_after_push(
            Seq::empty(),
            entry_op(disk, primary, count - 1),
            part_start,
            slot,
        );
        if let Some(backup) = disk.backup_header {
            let two = seq![
                entry_op(disk, primary, count - 1),
                entry_op(disk, backup, count - 1),
            ];
            assert(two =~= one.push(entry_op(disk, backup, count - 1)));
            lemma_slot_after_push(one, entry_op(disk, backup, count - 1), part_start, slot);
        }
    }
}

/// What the closing operations do to a slot.
proof fn lemma_closing<D>(disk: DiskView<D>, header: Header, slot: int)
    requires
        disk.primary_header is Some,
        disk.primary_header == Some(header) || disk.backup_header == Some(header),
        !overflows(disk),
        0 <= slot < header.num_parts,
    ensures
        slot_after(closing_ops(disk), header.part_start, slot) == if slot < used_ids(
            disk.partitions,
        ).len() {
            Slot::Untouched
        } else {
            Slot::Zeros
        },
{
    let start = header.part_start;
    let lb_size = disk.config.lb_size;
    let primary = disk.primary_header->0;
    let write_primary = DeviceOp::WritePrimaryHeader {
        header: header_to_write(disk, primary),
        lb_size,
    };
    let none = Seq::<DeviceOp>::empty();
    let first = none.push(zero_op(disk, primary));
    lemma_slot_after_push(none, zero_op(disk, primary), start, slot);
    match disk.backup_header {
        Some(backup) => {
            let write_backup = DeviceOp::WriteBackupHeader {
                header: header_to_write(disk, backup),
                lb_size,
            };
            let second = first.push(zero_op(disk, backup));
            let third = second.push(write_backup);
            let fourth = third.push(write_primary);
            lemma_slot_after_push(first, zero_op(disk, backup), start, slot);
            lemma_slot_after_push(second, write_backup, start, slot);
            lemma_slot_after_push(third, write_primary, start, slot);
            lemma_slot_after_push(fourth, DeviceOp::Flush, start, slot);
            assert(closing_ops(disk) =~= fourth.push(DeviceOp::Flush));
        },
        None => {
            let second = first.push(write_primary);
            lemma_slot_after_push(first, write_primary, start, slot);
            lemma_slot_after_push(second, DeviceOp::Flush, start, slot);
            assert(closing_ops(disk) =~= second.push(DeviceOp::Flush));
        },
    }
}

/// Whether headers that share an array agree on the size of its slots.
pub open spec fn slot_sizes_agree<D>(disk: DiskView<D>) -> bool {
    match (disk.primary_header, disk.backup_header) {
        (Some(primary), Some(backup)) => primary.part_start == backup.part_start
            ==> primary.part_size == backup.part_size,
        _ => true,
    }
}

/// After a complete write the array of either header holds the partitions in use
/// from slot zero on, in the order of their numbers, and zeros in every slot
/// behind them: nothing is left of a partition that was removed. Headers that
/// share an array agree on the size of its slots.
pub proof fn law_write_fills_arrays<D>(disk: DiskView<D>, header: Header, slot: int)
    requires
        slot_sizes_agree(disk),
        disk.primary_header is Some,
        disk.primary_header == Some(header) || disk.backup_header == Some(header),
        !overflows(disk),
        0 <= slot < header.num_parts,
    ensures
        slot_after(script(disk), header.part_start, slot) == if slot < used_ids(
            disk.partitions,
        ).len() {
            Slot::Entry(disk.partitions[used_ids(disk.partitions)[slot]])
        } else {
            Slot::Zeros
        },
{
    let used = used_ids(disk.partitions).len();
    let find = DeviceOp::FindBackupLba { lb_size: disk.config.lb_size };
    let start = seq![find];
    assert(start =~= Seq::empty().push(find));
    lemma_slot_after_push(Seq::empty(), find, header.part_start, slot);
    lemma_slot_after_concat(start, entries_ops(disk, used), header.part_start, slot);
    lemma_slot_after_concat(
        start + entries_ops(disk, used),
        closing_ops(disk),
        header.part_start,
        slot,
    );
    lemma_entries(disk, used, header.part_start, slot);
    lemma_closing(disk, header, slot);
}

/// Whether an operation writes a header.
pub open spec fn writes_header(op: DeviceOp) -> bool {
    op is WriteBackupHeader || op is WritePrimaryHeader
}

/// Whether an operation leaves all but the primary header and its array alone.
pub open spec fn spares_backup(op: DeviceOp, primary: Header) -> bool {
    match op {
        DeviceOp::WriteEntry { part_start, .. } => part_start == primary.part_start,
        DeviceOp::ZeroEntries { part_start, .. } => part_start == primary.part_start,
        DeviceOp::WriteBackupHeader { .. } => false,
        _ => true,
    }
}

proof fn lemma_entries_kind<D>(disk: DiskView<D>, count: nat, i: int)
    requires
        disk.primary_header is Some,
        0 <= i < entries_ops(disk, count).len(),
    ensures
        entries_ops(disk, count)[i] is WriteEntry,
        disk.backup_header is None ==> spares_backup(
            entries_ops(disk, count)[i],
            disk.primary_header->0,
        ),
    decreases count,
{
    if count > 0 {
        let before = (count - 1) as nat;
        if i < entries_ops(disk, before).len() {
            lemma_entries_kind(disk, before, i);
        }
    }
}

/// Without a backup header, as after a table was replaced without touching
/// backups, no operation touches anything but the primary header and its array.
pub proof fn law_no_backup_is_touched<D>(disk: DiskView<D>, i: int)
    requires
        disk.primary_header is Some,
        disk.backup_header is None,
        0 <= i < script(disk).len(),
    ensures
        spares_backup(script(disk)[i], disk.primary_header->0),
{
    let used = used_ids(disk.partitions).len();
    let count = if overflows(disk) {
        slots(disk) as nat
    } else {
        used
    };
    if 1 <= i < 1 + entries_ops(disk, count).len() {
        lemma_entries_kind(disk, count, i - 1);
    }
}

/// The headers are written behind all partitions, the primary one last, and
/// everything is flushed at the end. Where the partitions do not fit, no header
/// is written at all.
pub proof fn law_headers_are_written_last<D>(disk: DiskView<D>)
    requires
        disk.primary_header is Some,
    ensures
        ({
            let ops = script(disk);
            let n = ops.len() as int;
            if overflows(disk) {
                forall|i: int| 0 <= i < n ==> !writes_header(#[trigger] ops[i])
            } else {
                &&& n >= 3
                &&& ops[n - 1] == DeviceOp::Flush
                &&& ops[n - 2] == (DeviceOp::WritePrimaryHeader {
                    header: header_to_write(disk, disk.primary_header->0),
                    lb_size: disk.config.lb_size,
                })
                &&& disk.backup_header matches Some(backup) ==> ops[n - 3] == (
                DeviceOp::WriteBackupHeader {
                    header: header_to_write(disk, backup),
                    lb_size: disk.config.lb_size,
                })
                &&& forall|i: int|
                    0 <= i < n && writes_header(#[trigger] ops[i]) ==> i == n - 2 || i == n - 3
            }
        }),
{
    let ops = script(disk);
    let used = used_ids(disk.partitions).len();
    let count = if overflows(disk) {
        slots(disk) as nat
    } else {
        used
    };
    assert forall|i: int| 1 <= i < 1 + entries_ops(disk, count).len() implies #[trigger] ops[i] is WriteEntry by {
        lemma_entries_kind(disk, count, i - 1);
    }
}

proof fn lemma_entries_same<D>(old: DiskView<D>, new: DiskView<D>, count: nat)
    requires
        new == (DiskView { guid: new.guid, ..old }),
    ensures
        entries_ops(new, count) == entries_ops(old, count),
    decreases count,
{
    if count > 0 {
        lemma_entries_same(old, new, (count - 1) as nat);
    }
}

/// A write after the identifier of the disk was changed records the new one: both
/// headers are written as they stand but for the identifier, and every other
/// operation is the same.
pub proof fn law_new_guid_is_recorded<D>(old: DiskView<D>, guid: Guid)
    requires
        old.primary_header is Some,
        old.primary_header->0.disk_guid != guid,
    ensures
        ({
            let new = DiskView { guid, ..old };
            let ops = script(new);
            let n = ops.len() as int;
            &&& n == script(old).len()
            &&& overflows(new) == overflows(old)
            &&& !overflows(old) ==> {
                &&& ops[n - 2] == (DeviceOp::WritePrimaryHeader {
                    header: Header { disk_guid: guid, ..old.primary_header->0 },
                    lb_size: old.config.lb_size,
                })
                &&& old.backup_header matches Some(backup) ==> ops[n - 3] == (
                DeviceOp::WriteBackupHeader {
                    header: Header { disk_guid: guid, ..backup },
                    lb_size: old.config.lb_size,
                })
            }
            &&& forall|i: int|
                0 <= i < n && !writes_header(#[trigger] ops[i]) ==> ops[i] == script(old)[i]
        }),
{
    let new = DiskView { guid, ..old };
    lemma_entries_same(old, new, used_ids(old.partitions).len());
    lemma_entries_same(old, new, slots(old) as nat);
    assert(script(new).len() == script(old).len());
}

/// While the disk has the identifier of its primary header, as after it was
/// opened, a write writes both headers as they stand, each with its own
/// identifier.
pub proof fn law_headers_are_kept<D>(disk: DiskView<D>)
    requires
        disk.primary_header is Some,
        disk.primary_header->0.disk_guid == disk.guid,
        !overflows(disk),
    ensures
        ({
            let ops = script(disk);
            let n = ops.len() as int;
            &&& ops[n - 2] == (DeviceOp::WritePrimaryHeader {
                header: disk.primary_header->0,
                lb_size: disk.config.lb_size,
            })
            &&& disk.backup_header matches Some(backup) ==> ops[n - 3] == (
            DeviceOp::WriteBackupHeader { header: backup, lb_size: disk.config.lb_size })
        }),
{
}

/// The partitions in use, in the order of their numbers.
pub open spec fn used_partitions(table: Map<u32, Partition>) -> Seq<Partition> {
    Seq::new(used_ids(table).len(), |i: int| table[used_ids(table)[i]])
}

/// The partitions that the first `count` slots of an array hold after operations,
/// in the order of the slots.
pub open spec fn entries_found(ops: Seq<DeviceOp>, part_start: u64, count: nat) -> Seq<Partition>
    decreases count,
{
    if count == 0 {
        Seq::empty()
    } else {
        let before = entries_found(ops, part_start, (count - 1) as nat);
        match slot_after(ops, part_start, count - 1) {
            Slot::Entry(partition) => before.push(partition),
            _ => before,
        }
    }
}

proof fn lemma_entries_found<D>(disk: DiskView<D>, count: nat)
    requires
        disk.primary_header is Some,
        slot_sizes_agree(disk),
        !overflows(disk),
        count <= disk.primary_header->0.num_parts,
    ensures
        entries_found(script(disk), disk.primary_header->0.part_start, count)
            == used_partitions(disk.partitions).take(
            if count < used_ids(disk.partitions).len() {
                count as int
            } else {
                used_ids(disk.partitions).len() as int
            },
        ),
    decreases count,
{
    let used = used_partitions(disk.partitions);
    if count > 0 {
        lemma_entries_found(disk, (count - 1) as nat);
        law_write_fills_arrays(disk, disk.primary_header->0, count - 1);
        if count <= used.len() {
            assert(used.take(count as int) =~= used.take(count - 1).push(used[count - 1]));
        }
    } else {
        assert(used.take(0) =~= Seq::empty());
    }
}

/// Opening a disk that was written gives back what was written: the same
/// partitions in use, in the same order, and the same identifier. Their numbers
/// may differ.
///
/// This is so for whoever reads the device as it was left: the primary header
/// that is read has the identifier and the array of the one that was written, and
/// the partitions that are read are those in the slots of that array, in order.
pub proof fn law_reopening_gives_back<D>(
    disk: DiskView<D>,
    start: OpenView<D>,
    primary: Header,
    backup: Header,
    table: Map<u32, Partition>,
)
    requires
        disk.primary_header is Some,
        slot_sizes_agree(disk),
        !overflows(disk),
        start.primary_header is None,
        start.backup_header is None,
        start.config.lb_size == disk.config.lb_size,
        ({
            let written = header_to_write(disk, disk.primary_header->0);
            &&& primary.disk_guid == written.disk_guid
            &&& primary.part_start == written.part_start
            &&& primary.num_parts == written.num_parts
        }),
        used_partitions(table) == entries_found(
            script(disk),
            primary.part_start,
            primary.num_parts as nat,
        ),
    ensures
        ({
            let opened = start.with_header(primary).with_header(backup).opened(table);
            &&& used_partitions(opened.partitions) == used_partitions(disk.partitions)
            &&& opened.guid == disk.guid
            &&& opened.primary_header == Some(primary)
            &&& opened.backup_header == Some(backup)
        }),
{
    let used = used_partitions(disk.partitions);
    lemma_entries_found(disk, primary.num_parts as nat);
    assert(used.take(used.len() as int) =~= used);
}

/// What is left of a write after `n` operations that went well.
pub open spec fn after_performing(write: WriteView, n: nat) -> WriteView
    decreases n,
{
    if n == 0 {
        write
    } else {
        let before = after_performing(write, (n - 1) as nat);
        WriteView { remaining: before.remaining.drop_first(), ..before }
    }
}

/// A write hands out its operations in order, each once: after `n` of them, those
/// from number `n` on are left, and it ends as it was to end from the start.
pub proof fn law_operations_come_in_order(write: WriteView, n: nat)
    requires
        n <= write.remaining.len(),
    ensures
        after_performing(write, n).remaining == write.remaining.skip(n as int),
        after_performing(write, n).ending() == write.ending(),
    decreases n,
{
    if n == 0 {
        assert(write.remaining.skip(0) =~= write.remaining);
    } else {
        law_operations_come_in_order(write, (n - 1) as nat);
        assert(write.remaining.skip(n - 1).drop_first() =~= write.remaining.skip(n as int));
    }
}

} // verus!

//! What a write does to the device, told by the calls that make it up and by the
//! bytes that it leaves.

use vstd::prelude::*;

use crate::disk::LogicalBlockSize;
use crate::error::GptError;
use crate::gpt_disk::{DiskView, GptDisk};
use crate::header::Header;
use crate::partition::{Partition, used_ids};
use crate::terms::{block_bytes, lemma_terms, lists_live};
use crate::write::{
    closing_ops, DeviceOp, entries_ops, overflows, script, slot_ops, slots, WriteSession,
    WriteStep,
};

verus! {

/// Whether a write of `disk` went through all its operations, each of them well:
/// `ops` are the operations that were handed out, one by each of `sessions`, and
/// `outcome` is how the write ended.
pub open spec fn written<D>(
    disk: GptDisk<D>,
    sessions: Seq<WriteSession>,
    ops: Seq<DeviceOp>,
    outcome: Result<(), GptError>,
) -> bool {
    &&& 0 < ops.len() == sessions.len()
    &&& call_ensures(GptDisk::<D>::write_inplace, (&disk,), WriteStep::Perform(sessions[0]))
    &&& forall|i: int|
        0 <= i < ops.len() ==> call_ensures(
            WriteSession::next_op,
            (&#[trigger] sessions[i],),
            &ops[i],
        )
    &&& forall|i: int, j: int|
        0 <= i < ops.len() - 1 && j == i + 1 ==> call_ensures(
            WriteSession::on_performed,
            (#[trigger] sessions[i], Ok(())),
            WriteStep::Perform(#[trigger] sessions[j]),
        )
    &&& call_ensures(
        WriteSession::on_performed,
        (sessions[sessions.len() - 1], Ok(())),
        WriteStep::Done(outcome),
    )
}

proof fn lemma_written_step<D>(
    disk: GptDisk<D>,
    sessions: Seq<WriteSession>,
    ops: Seq<DeviceOp>,
    outcome: Result<(), GptError>,
    i: int,
)
    requires
        written(disk, sessions, ops, outcome),
        0 <= i < ops.len(),
    ensures
        i < script(disk@).len(),
        sessions[i]@.remaining == script(disk@).skip(i),
        sessions[i]@.overflow == overflows(disk@),
        ops[i] == script(disk@)[i],
    decreases i,
{
    if i == 0 {
        assert(script(disk@).skip(0) =~= script(disk@));
    } else {
        lemma_written_step(disk, sessions, ops, outcome, i - 1);
        let before = sessions[i - 1];
        assert(call_ensures(
            WriteSession::on_performed,
            (before, Ok(())),
            WriteStep::Perform(sessions[i]),
        ));
        assert(before@.remaining.drop_first() =~= script(disk@).skip(i));
    }
    assert(call_ensures(WriteSession::next_op, (&sessions[i],), &ops[i]));
}

/// The operations handed out are those of the script, and how they end is told
/// by the number of slots.
proof fn lemma_written<D>(
    disk: GptDisk<D>,
    sessions: Seq<WriteSession>,
    ops: Seq<DeviceOp>,
    outcome: Result<(), GptError>,
)
    requires
        written(disk, sessions, ops, outcome),
    ensures
        disk@.config.writable,
        disk@.config.initialized,
        ops == script(disk@),
        overflows(disk@) ==> outcome == Err::<(), GptError>(GptError::OverflowPartitionCount),
        !overflows(disk@) ==> outcome == Ok::<(), GptError>(()),
{
    let n = ops.len() as int;
    assert forall|i: int| 0 <= i < n implies ops[i] == script(disk@)[i] by {
        lemma_written_step(disk, sessions, ops, outcome, i);
    }
    lemma_written_step(disk, sessions, ops, outcome, n - 1);
    assert(script(disk@).skip(n - 1).len() == script(disk@).len() - (n - 1));
    assert(script(disk@).len() == n);
    assert(ops =~= script(disk@));
}

/// Writing the partition `partition` to the slot number `slot` of the array of
/// `header`.
pub open spec fn entry_to(
    partition: Partition,
    slot: int,
    header: Header,
    lb_size: LogicalBlockSize,
) -> DeviceOp {
    DeviceOp::WriteEntry {
        partition,
        index: slot as u64,
        part_start: header.part_start,
        lb_size,
        part_size: header.part_size,
    }
}

/// Writing zeros to the array of `header`, from the slot number `from` to its end.
pub open spec fn zeros_to(from: int, header: Header, lb_size: LogicalBlockSize) -> DeviceOp {
    DeviceOp::ZeroEntries {
        index: from as u64,
        count: (header.num_parts - from) as u64,
        part_start: header.part_start,
        lb_size,
        part_size: header.part_size,
    }
}

/// The backup header whose array is another one than the primary header's, if
/// there is one.
pub open spec fn other_array(primary: Header, backup: Option<Header>) -> Option<Header> {
    match backup {
        Some(header) if header.part_start != primary.part_start => Some(header),
        _ => None,
    }
}

/// The number of operations that writing one entry takes: one for each array.
pub open spec fn per_entry(primary: Header, backup: Option<Header>) -> int {
    if other_array(primary, backup) is Some {
        2
    } else {
        1
    }
}

/// Whether all of `count` partitions find a slot in either array.
pub open spec fn all_fit(count: int, primary: Header, backup: Option<Header>) -> bool {
    &&& count <= primary.num_parts
    &&& backup matches Some(header) ==> count <= header.num_parts
}

/// Whether `ops` writes the first `count` live entries to the arrays, from
/// operation number one on: each to the primary array, then to the backup array
/// where that is another one.
pub open spec fn writes_entries<D>(
    disk: DiskView<D>,
    primary: Header,
    ids: Seq<u32>,
    ops: Seq<DeviceOp>,
    count: int,
) -> bool {
    let lb_size = disk.config.lb_size;
    let w = per_entry(primary, disk.backup_header);
    &&& ops.len() >= 1 + w * count
    &&& forall|i: int|
        1 <= i < 1 + w * count ==> #[trigger] ops[i] == if (i - 1) % w == 0 {
            entry_to(disk.partitions[ids[(i - 1) / w]], (i - 1) / w, primary, lb_size)
        } else {
            entry_to(
                disk.partitions[ids[(i - 1) / w]],
                (i - 1) / w,
                disk.backup_header->0,
                lb_size,
            )
        }
}

proof fn lemma_one_or_two(w: int, a: int)
    by (nonlinear_arith)
    requires
        w == 1 || w == 2,
    ensures
        w == 1 ==> w * a == a && a / w == a && a % w == 0,
        w == 2 ==> w * a == 2 * a && a / w == a / 2 && a % w == a % 2,
{
}

proof fn lemma_entries_at<D>(disk: DiskView<D>, primary: Header, count: nat, i: int)
    requires
        disk.primary_header == Some(primary),
        0 <= i < entries_ops(disk, count).len() || 0 <= i < per_entry(primary, disk.backup_header)
            * count,
    ensures
        entries_ops(disk, count).len() == per_entry(primary, disk.backup_header) * count,
        ({
            let w = per_entry(primary, disk.backup_header);
            let k = i / w;
            let partition = disk.partitions[used_ids(disk.partitions)[k]];
            entries_ops(disk, count)[i] == if i % w == 0 {
                entry_to(partition, k, primary, disk.config.lb_size)
            } else {
                entry_to(partition, k, disk.backup_header->0, disk.config.lb_size)
            }
        }),
    decreases count,
{
    let w = per_entry(primary, disk.backup_header);
    lemma_entries_count(disk, primary, count);
    lemma_one_or_two(w, count as int);
    lemma_one_or_two(w, i);
    if count > 0 {
        let before = (count - 1) as nat;
        lemma_entries_count(disk, primary, before);
        lemma_one_or_two(w, before as int);
        if i < entries_ops(disk, before).len() {
            lemma_entries_at(disk, primary, before, i);
        } else {
            assert(entries_ops(disk, count)[i] == slot_ops(disk, count - 1)[i - entries_ops(
                disk,
                before,
            ).len()]);
        }
    }
}

proof fn lemma_entries_count<D>(disk: DiskView<D>, primary: Header, count: nat)
    requires
        disk.primary_header == Some(primary),
    ensures
        entries_ops(disk, count).len() == per_entry(primary, disk.backup_header) * count,
    decreases count,
{
    let w = per_entry(primary, disk.backup_header);
    lemma_one_or_two(w, count as int);
    if count > 0 {
        lemma_one_or_two(w, count - 1);
        lemma_entries_count(disk, primary, (count - 1) as nat);
    }
}

proof fn lemma_writes_entries<D>(
    disk: DiskView<D>,
    primary: Header,
    ids: Seq<u32>,
    tail: Seq<DeviceOp>,
    count: nat,
)
    requires
        disk.primary_header == Some(primary),
        ids == used_ids(disk.partitions),
    ensures
        writes_entries(
            disk,
            primary,
            ids,
            seq![DeviceOp::FindBackupLba { lb_size: disk.config.lb_size }] + entries_ops(
                disk,
                count,
            ) + tail,
            count as int,
        ),
{
    let ops = seq![DeviceOp::FindBackupLba { lb_size: disk.config.lb_size }] + entries_ops(
        disk,
        count,
    ) + tail;
    let w = per_entry(primary, disk.backup_header);
    lemma_entries_count(disk, primary, count);
    assert forall|i: int| 1 <= i < 1 + w * count implies #[trigger] ops[i] == if (i - 1) % w == 0 {
        entry_to(
            disk.partitions[ids[(i - 1) / w]],
            (i - 1) / w,
            primary,
            disk.config.lb_size,
        )
    } else {
        entry_to(
            disk.partitions[ids[(i - 1) / w]],
            (i - 1) / w,
            disk.backup_header->0,
            disk.config.lb_size,
        )
    } by {
        lemma_entries_at(disk, primary, count, i - 1);
        assert(ops[i] == entries_ops(disk, count)[i - 1]);
    }
}

/// A write in which every operation goes well is told by the disk alone.
///
/// First the backup header is looked for. Then the live entries are written in the
/// order of their numbers, each to the slot of its place in that order, in the
/// primary array and in the backup array where that is another one. Where all
/// find a slot in either array, zeros follow up to the end of each array, then the
/// backup header, the primary header and the flush, and the write ends well. Each
/// array is written with the slot size of its own header, and everything with the
/// block size of the disk.
///
/// Where one finds no slot, the entries before it are written, and that one to
/// the primary array if that still has a slot; nothing else is, and the write ends
/// for lack of slots.
pub proof fn law_write_performs<D>(
    disk: GptDisk<D>,
    primary: Header,
    ids: Seq<u32>,
    sessions: Seq<WriteSession>,
    ops: Seq<DeviceOp>,
    outcome: Result<(), GptError>,
)
    requires
        written(disk, sessions, ops, outcome),
        disk@.primary_header == Some(primary),
        lists_live(disk@.partitions, ids),
    ensures
        disk@.config.writable,
        disk@.config.initialized,
        ops[0] == (DeviceOp::FindBackupLba { lb_size: disk@.config.lb_size }),
        all_fit(ids.len() as int, primary, disk@.backup_header) ==> {
            let lb_size = disk@.config.lb_size;
            let n = ops.len() as int;
            let end = 1 + per_entry(primary, disk@.backup_header) * ids.len();
            let renamed = primary.disk_guid != disk@.guid;
            &&& outcome == Ok::<(), GptError>(())
            &&& writes_entries(disk@, primary, ids, ops, ids.len() as int)
            &&& ops[end] == zeros_to(ids.len() as int, primary, lb_size)
            &&& match disk@.backup_header {
                Some(backup) => {
                    &&& n == end + 5
                    &&& ops[end + 1] == zeros_to(ids.len() as int, backup, lb_size)
                    &&& ops[end + 2] == (DeviceOp::WriteBackupHeader {
                        header: if renamed {
                            Header { disk_guid: disk@.guid, ..backup }
                        } else {
                            backup
                        },
                        lb_size,
                    })
                },
                None => n == end + 3,
            }
            &&& ops[n - 2] == (DeviceOp::WritePrimaryHeader {
                header: Header { disk_guid: disk@.guid, ..primary },
                lb_size,
            })
            &&& ops[n - 1] == DeviceOp::Flush
        },
        !all_fit(ids.len() as int, primary, disk@.backup_header) ==> {
            let lb_size = disk@.config.lb_size;
            let n = ops.len() as int;
            let w = per_entry(primary, disk@.backup_header);
            &&& outcome == Err::<(), GptError>(GptError::OverflowPartitionCount)
            &&& match disk@.backup_header {
                Some(backup) if backup.num_parts < primary.num_parts => {
                    let m = backup.num_parts as int;
                    &&& n == 2 + w * m
                    &&& writes_entries(disk@, primary, ids, ops, m)
                    &&& ops[n - 1] == entry_to(disk@.partitions[ids[m]], m, primary, lb_size)
                },
                _ => {
                    let m = primary.num_parts as int;
                    &&& n == 1 + w * m
                    &&& writes_entries(disk@, primary, ids, ops, m)
                },
            }
        },
{
    lemma_written(disk, sessions, ops, outcome);
    lemma_terms(disk@.partitions);
    let d = disk@;
    let used = used_ids(d.partitions).len();
    let start = seq![DeviceOp::FindBackupLba { lb_size: d.config.lb_size }];
    assert(ids == used_ids(d.partitions));
    assert(overflows(d) == !all_fit(ids.len() as int, primary, d.backup_header));
    if !overflows(d) {
        lemma_writes_entries(d, primary, ids, closing_ops(d), used);
        lemma_entries_count(d, primary, used);
        let end = 1 + per_entry(primary, d.backup_header) * ids.len();
        assert forall|j: int| 0 <= j < closing_ops(d).len() implies ops[end + j]
            == #[trigger] closing_ops(d)[j] by {}
        match d.backup_header {
            Some(_) => {
                assert(closing_ops(d).len() == 5);
                assert(ops[end] == closing_ops(d)[0]);
                assert(ops[end + 1] == closing_ops(d)[1]);
                assert(ops[end + 2] == closing_ops(d)[2]);
                assert(ops[end + 3] == closing_ops(d)[3]);
                assert(ops[end + 4] == closing_ops(d)[4]);
            },
            None => {
                assert(closing_ops(d).len() == 3);
                assert(ops[end] == closing_ops(d)[0]);
                assert(ops[end + 1] == closing_ops(d)[1]);
                assert(ops[end + 2] == closing_ops(d)[2]);
            },
        }
    } else {
        let m = slots(d) as nat;
        lemma_entries_count(d, primary, m);
        if slots(d) < primary.num_parts {
            let tail = seq![entry_to(d.partitions[ids[m as int]], m as int, primary, d.config.lb_size)];
            assert(ops =~= start + entries_ops(d, m) + tail);
            lemma_writes_entries(d, primary, ids, tail, m);
        } else {
            assert(ops =~= start + entries_ops(d, m) + Seq::empty());
            lemma_writes_entries(d, primary, ids, Seq::empty(), m);
        }
    }
}

/// What a byte of the device holds after operations on partition arrays.
pub enum ByteContent {
    /// What it held before.
    Untouched,
    /// Zero.
    Zero,
    /// The byte number `offset` of an entry.
    Of {
        /// The partition that the entry tells of.
        partition: Partition,
        /// The place of the byte in the entry.
        offset: int,
    },
}

/// The first byte, on the device, of the slot number `slot` of an array that
/// starts at the block `part_start` and has slots of `part_size` bytes.
pub open spec fn slot_byte(
    part_start: u64,
    part_size: u32,
    lb_size: LogicalBlockSize,
    slot: int,
) -> int {
    part_start * block_bytes(lb_size) + slot * part_size
}

/// What an operation puts into the byte number `x` of the device.
pub open spec fn put(op: DeviceOp, x: int) -> ByteContent {
    match op {
        DeviceOp::WriteEntry { partition, index, part_start, lb_size, part_size } => {
            let first = slot_byte(part_start, part_size, lb_size, index as int);
            if first <= x < first + part_size {
                ByteContent::Of { partition, offset: x - first }
            } else {
                ByteContent::Untouched
            }
        },
        DeviceOp::ZeroEntries { index, count, part_start, lb_size, part_size } => {
            if slot_byte(part_start, part_size, lb_size, index as int) <= x < slot_byte(
                part_start,
                part_size,
                lb_size,
                index + count,
            ) {
                ByteContent::Zero
            } else {
                ByteContent::Untouched
            }
        },
        _ => ByteContent::Untouched,
    }
}

/// What the byte number `x` of the device holds after operations: the last one
/// that puts something there decides.
pub open spec fn byte_after(ops: Seq<DeviceOp>, x: int) -> ByteContent
    decreases ops.len(),
{
    if ops.len() == 0 {
        ByteContent::Untouched
    } else {
        match put(ops.last(), x) {
            ByteContent::Untouched => byte_after(ops.drop_last(), x),
            content => content,
        }
    }
}

/// Whether the arrays of the two headers are the same, with slots of the same
/// size, or have no byte in common.
pub open spec fn arrays_agree(primary: Header, backup: Header, lb_size: LogicalBlockSize) -> bool {
    if primary.part_start == backup.part_start {
        primary.part_size == backup.part_size
    } else {
        ||| slot_byte(primary.part_start, primary.part_size, lb_size, primary.num_parts as int)
            <= slot_byte(backup.part_start, backup.part_size, lb_size, 0)
        ||| slot_byte(backup.part_start, backup.part_size, lb_size, backup.num_parts as int)
            <= slot_byte(primary.part_start, primary.part_size, lb_size, 0)
    }
}

proof fn lemma_byte_after(ops: Seq<DeviceOp>, x: int, j: int)
    requires
        0 <= j < ops.len(),
        put(ops[j], x) !is Untouched,
        forall|i: int| j < i < ops.len() ==> put(#[trigger] ops[i], x) is Untouched,
    ensures
        byte_after(ops, x) == put(ops[j], x),
    decreases ops.len(),
{
    if j < ops.len() - 1 {
        assert(put(ops[ops.len() - 1], x) is Untouched);
        let rest = ops.drop_last();
        assert forall|i: int| j < i < rest.len() implies put(#[trigger] rest[i], x) is Untouched by {
            assert(rest[i] == ops[i]);
        }
        lemma_byte_after(rest, x, j);
    }
}

/// A byte of one slot lies behind every lower slot and before every higher one.
proof fn lemma_slot_bytes(size: int, a: int, b: int, offset: int)
    by (nonlinear_arith)
    requires
        0 <= offset < size,
        0 <= a,
        0 <= b,
    ensures
        a < b ==> a * size + offset < b * size,
        b <= a ==> b * size <= a * size + offset,
        a < b ==> a * size + size <= b * size,
        0 * size == 0,
        0 <= a * size,
{
}

proof fn lemma_bytes_monotone(size: int, a: int, b: int)
    by (nonlinear_arith)
    requires
        0 <= size,
        0 <= a <= b,
    ensures
        0 <= a * size <= b * size,
        0 * size == 0,
        (a + 1) * size == a * size + size,
{
}

/// An entry or zeros put into one array leave another array alone.
proof fn lemma_other_array(
    one: Header,
    other: Header,
    lb_size: LogicalBlockSize,
    from: int,
    to: int,
    slot: int,
    offset: int,
    x: int,
)
    requires
        one.part_start != other.part_start,
        arrays_agree(one, other, lb_size) || arrays_agree(other, one, lb_size),
        0 <= from <= to <= one.num_parts,
        0 <= slot < other.num_parts,
        0 <= offset < other.part_size,
        x == slot_byte(other.part_start, other.part_size, lb_size, slot) + offset,
    ensures
        !(slot_byte(one.part_start, one.part_size, lb_size, from) <= x < slot_byte(
            one.part_start,
            one.part_size,
            lb_size,
            to,
        )),
{
    lemma_bytes_monotone(one.part_size as int, from, one.num_parts as int);
    lemma_bytes_monotone(one.part_size as int, to, one.num_parts as int);
    lemma_slot_bytes(other.part_size as int, slot, other.num_parts as int, offset);
}

/// What an entry puts into a byte of the array of `header`.
proof fn lemma_put_entry(
    partition: Partition,
    k: int,
    one: Header,
    header: Header,
    lb_size: LogicalBlockSize,
    slot: int,
    offset: int,
)
    requires
        one.part_start == header.part_start ==> one.part_size == header.part_size,
        one.part_start != header.part_start ==> arrays_agree(one, header, lb_size) || arrays_agree(
            header,
            one,
            lb_size,
        ),
        0 <= k < one.num_parts,
        0 <= slot < header.num_parts,
        0 <= offset < header.part_size,
    ensures
        put(
            entry_to(partition, k, one, lb_size),
            slot_byte(header.part_start, header.part_size, lb_size, slot) + offset,
        ) == if one.part_start == header.part_start && k == slot {
            ByteContent::Of { partition, offset }
        } else {
            ByteContent::Untouched
        },
{
    let x = slot_byte(header.part_start, header.part_size, lb_size, slot) + offset;
    lemma_bytes_monotone(one.part_size as int, k, k + 1);
    if one.part_start != header.part_start {
        lemma_other_array(one, header, lb_size, k, k + 1, slot, offset, x);
    } else {
        lemma_slot_bytes(header.part_size as int, slot, k, offset);
        lemma_slot_bytes(header.part_size as int, k, slot, offset);
    }
}

/// What zeros put into a byte of the array of `header`.
proof fn lemma_put_zeros(
    from: int,
    one: Header,
    header: Header,
    lb_size: LogicalBlockSize,
    slot: int,
    offset: int,
)
    requires
        one.part_start == header.part_start ==> one.part_size == header.part_size,
        one.part_start != header.part_start ==> arrays_agree(one, header, lb_size) || arrays_agree(
            header,
            one,
            lb_size,
        ),
        0 <= from <= one.num_parts,
        0 <= slot < header.num_parts,
        0 <= offset < header.part_size,
    ensures
        put(
            zeros_to(from, one, lb_size),
            slot_byte(header.part_start, header.part_size, lb_size, slot) + offset,
        ) == if one.part_start == header.part_start && from <= slot < one.num_parts {
            ByteContent::Zero
        } else {
            ByteContent::Untouched
        },
{
    let x = slot_byte(header.part_start, header.part_size, lb_size, slot) + offset;
    if one.part_start != header.part_start {
        lemma_other_array(one, header, lb_size, from, one.num_parts as int, slot, offset, x);
    } else {
        lemma_slot_bytes(header.part_size as int, slot, from, offset);
        lemma_slot_bytes(header.part_size as int, slot, one.num_parts as int, offset);
    }
}

/// Whether `ops` ends, from operation number `end` on, with zeros up to the end of
/// each array and with operations that touch no array.
spec fn closes(
    ops: Seq<DeviceOp>,
    end: int,
    used: int,
    primary: Header,
    backup: Option<Header>,
    lb_size: LogicalBlockSize,
) -> bool {
    &&& 0 <= end < ops.len()
    &&& ops[end] == zeros_to(used, primary, lb_size)
    &&& backup matches Some(header) ==> end + 1 < ops.len() && ops[end + 1] == zeros_to(
        used,
        header,
        lb_size,
    )
    &&& forall|i: int|
        (if backup is Some {
            end + 2
        } else {
            end + 1
        }) <= i < ops.len() ==> !(#[trigger] ops[i] is WriteEntry) && !(ops[i] is ZeroEntries)
}

/// What the operation number `i`, which writes an entry, puts into a byte.
proof fn lemma_entry_put<D>(
    d: DiskView<D>,
    primary: Header,
    ids: Seq<u32>,
    ops: Seq<DeviceOp>,
    header: Header,
    slot: int,
    offset: int,
    i: int,
)
    requires
        writes_entries(d, primary, ids, ops, ids.len() as int),
        all_fit(ids.len() as int, primary, d.backup_header),
        d.backup_header matches Some(backup) ==> arrays_agree(primary, backup, d.config.lb_size),
        header == primary || d.backup_header == Some(header),
        0 <= slot < header.num_parts,
        0 <= offset < header.part_size,
        1 <= i < 1 + per_entry(primary, d.backup_header) * ids.len(),
    ensures
        ({
            let w = per_entry(primary, d.backup_header);
            let k = (i - 1) / w;
            let one = if (i - 1) % w == 0 {
                primary
            } else {
                d.backup_header->0
            };
            put(
                ops[i],
                slot_byte(header.part_start, header.part_size, d.config.lb_size, slot) + offset,
            ) == if one.part_start == header.part_start && k == slot {
                ByteContent::Of { partition: d.partitions[ids[k]], offset }
            } else {
                ByteContent::Untouched
            }
        }),
{
    let w = per_entry(primary, d.backup_header);
    lemma_one_or_two(w, i - 1);
    lemma_one_or_two(w, ids.len() as int);
    let k = (i - 1) / w;
    let one = if (i - 1) % w == 0 {
        primary
    } else {
        d.backup_header->0
    };
    lemma_put_entry(d.partitions[ids[k]], k, one, header, d.config.lb_size, slot, offset);
}

proof fn lemma_entry_bytes<D>(
    d: DiskView<D>,
    primary: Header,
    ids: Seq<u32>,
    ops: Seq<DeviceOp>,
    header: Header,
    slot: int,
    offset: int,
)
    requires
        writes_entries(d, primary, ids, ops, ids.len() as int),
        closes(
            ops,
            1 + per_entry(primary, d.backup_header) * ids.len(),
            ids.len() as int,
            primary,
            d.backup_header,
            d.config.lb_size,
        ),
        all_fit(ids.len() as int, primary, d.backup_header),
        d.backup_header matches Some(backup) ==> arrays_agree(primary, backup, d.config.lb_size),
        header == primary || d.backup_header == Some(header),
        0 <= slot < header.num_parts,
        slot < ids.len(),
        0 <= offset < header.part_size,
    ensures
        byte_after(
            ops,
            slot_byte(header.part_start, header.part_size, d.config.lb_size, slot) + offset,
        ) == (ByteContent::Of { partition: d.partitions[ids[slot]], offset }),
{
    let lb = d.config.lb_size;
    let w = per_entry(primary, d.backup_header);
    let used = ids.len() as int;
    let end = 1 + w * used;
    let x = slot_byte(header.part_start, header.part_size, lb, slot) + offset;
    lemma_one_or_two(w, used);
    lemma_one_or_two(w, slot);
    let j = if header.part_start != primary.part_start {
        1 + w * slot + 1
    } else {
        1 + w * slot
    };
    lemma_one_or_two(w, j - 1);
    lemma_entry_put(d, primary, ids, ops, header, slot, offset, j);
    lemma_put_zeros(used, primary, header, lb, slot, offset);
    if let Some(backup) = d.backup_header {
        lemma_put_zeros(used, backup, header, lb, slot, offset);
    }
    assert forall|i: int| j < i < ops.len() implies put(#[trigger] ops[i], x) is Untouched by {
        if i < end {
            lemma_one_or_two(w, i - 1);
            lemma_entry_put(d, primary, ids, ops, header, slot, offset, i);
        }
    }
    lemma_byte_after(ops, x, j);
}

proof fn lemma_zero_bytes<D>(
    d: DiskView<D>,
    primary: Header,
    ids: Seq<u32>,
    ops: Seq<DeviceOp>,
    end: int,
    header: Header,
    slot: int,
    offset: int,
)
    requires
        closes(ops, end, ids.len() as int, primary, d.backup_header, d.config.lb_size),
        all_fit(ids.len() as int, primary, d.backup_header),
        d.backup_header matches Some(backup) ==> arrays_agree(primary, backup, d.config.lb_size),
        header == primary || d.backup_header == Some(header),
        ids.len() <= slot < header.num_parts,
        0 <= offset < header.part_size,
    ensures
        byte_after(
            ops,
            slot_byte(header.part_start, header.part_size, d.config.lb_size, slot) + offset,
        ) is Zero,
{
    let lb = d.config.lb_size;
    let used = ids.len() as int;
    let x = slot_byte(header.part_start, header.part_size, lb, slot) + offset;
    lemma_put_zeros(used, primary, header, lb, slot, offset);
    match d.backup_header {
        Some(backup) => {
            lemma_put_zeros(used, backup, header, lb, slot, offset);
            if put(zeros_to(used, backup, lb), x) is Untouched {
                lemma_byte_after(ops, x, end);
            } else {
                lemma_byte_after(ops, x, end + 1);
            }
        },
        None => {
            lemma_byte_after(ops, x, end);
        },
    }
}

/// After a write in which every operation goes well and all entries find a slot,
/// the array of either header holds, byte by byte, the live entries in the order
/// of their numbers and zeros behind them up to its end. The slot number `slot`
/// starts `slot` times the slot size of the header behind the first byte of the
/// block at which its array starts.
pub proof fn law_write_leaves_bytes<D>(
    disk: GptDisk<D>,
    primary: Header,
    ids: Seq<u32>,
    sessions: Seq<WriteSession>,
    ops: Seq<DeviceOp>,
    outcome: Result<(), GptError>,
    header: Header,
    slot: int,
    offset: int,
)
    requires
        written(disk, sessions, ops, outcome),
        disk@.primary_header == Some(primary),
        lists_live(disk@.partitions, ids),
        all_fit(ids.len() as int, primary, disk@.backup_header),
        disk@.backup_header matches Some(backup) ==> arrays_agree(
            primary,
            backup,
            disk@.config.lb_size,
        ),
        header == primary || disk@.backup_header == Some(header),
        0 <= slot < header.num_parts,
        0 <= offset < header.part_size,
    ensures
        byte_after(
            ops,
            header.part_start * block_bytes(disk@.config.lb_size) + slot * header.part_size
                + offset,
        ) == if slot < ids.len() {
            ByteContent::Of { partition: disk@.partitions[ids[slot]], offset }
        } else {
            ByteContent::Zero
        },
{
    law_write_performs(disk, primary, ids, sessions, ops, outcome);
    let d = disk@;
    let end = 1 + per_entry(primary, d.backup_header) * ids.len();
    assert(closes(
        ops,
        end,
        ids.len() as int,
        primary,
        d.backup_header,
        d.config.lb_size,
    )) by {
        assert(ops[ops.len() - 1] is Flush);
        assert(ops[ops.len() - 2] is WritePrimaryHeader);
    }
    if slot < ids.len() {
        lemma_entry_bytes(d, primary, ids, ops, header, slot, offset);
    } else {
        lemma_zero_bytes(d, primary, ids, ops, end, header, slot, offset);
    }
}

/// No operation on an array leaves the array: each entry and all zeros lie within
/// the slots of the header whose array it is, and carry its slot size.
pub proof fn law_write_keeps_to_arrays<D>(
    disk: GptDisk<D>,
    primary: Header,
    ids: Seq<u32>,
    sessions: Seq<WriteSession>,
    ops: Seq<DeviceOp>,
    outcome: Result<(), GptError>,
    i: int,
)
    requires
        written(disk, sessions, ops, outcome),
        disk@.primary_header == Some(primary),
        lists_live(disk@.partitions, ids),
        0 <= i < ops.len(),
    ensures
        match ops[i] {
            DeviceOp::WriteEntry { partition, index, part_start, lb_size, part_size } => {
                &&& lb_size == disk@.config.lb_size
                &&& index < ids.len() && partition == disk@.partitions[ids[index as int]]
                &&& {
                    ||| part_start == primary.part_start && part_size == primary.part_size
                        && index < primary.num_parts
                    ||| disk@.backup_header matches Some(h) && part_start == h.part_start
                        && part_size == h.part_size && index < h.num_parts
                }
            },
            DeviceOp::ZeroEntries { index, count, part_start, lb_size, part_size } => {
                &&& lb_size == disk@.config.lb_size
                &&& index == ids.len()
                &&& {
                    ||| part_start == primary.part_start && part_size == primary.part_size
                        && index + count == primary.num_parts
                    ||| disk@.backup_header matches Some(h) && part_start == h.part_start
                        && part_size == h.part_size && index + count == h.num_parts
                }
            },
            DeviceOp::FindBackupLba { lb_size } => lb_size == disk@.config.lb_size,
            DeviceOp::WriteBackupHeader { lb_size, .. } => lb_size == disk@.config.lb_size,
            DeviceOp::WritePrimaryHeader { lb_size, .. } => lb_size == disk@.config.lb_size,
            DeviceOp::Flush => true,
        },
{
    law_write_performs(disk, primary, ids, sessions, ops, outcome);
    let w = per_entry(primary, disk@.backup_header);
    lemma_one_or_two(w, ids.len() as int);
    lemma_one_or_two(w, primary.num_parts as int);
    if let Some(backup) = disk@.backup_header {
        lemma_one_or_two(w, backup.num_parts as int);
    }
    lemma_one_or_two(w, i - 1);
}

/// A disk that is not writable is refused, and so is one without a table; neither
/// is touched. Any other is written. A disk that is said to have a table has a
/// primary header.
pub proof fn law_write_is_refused<D>(disk: GptDisk<D>, r: WriteStep)
    requires
        call_ensures(GptDisk::<D>::write_inplace, (&disk,), r),
    ensures
        disk@.primary_header is Some || !disk@.config.initialized ==> call_requires(
            GptDisk::<D>::write_inplace,
            (&disk,),
        ),
        !disk@.config.writable ==> r == WriteStep::Done(Err(GptError::ReadOnly)),
        disk@.config.writable && !disk@.config.initialized ==> r == WriteStep::Done(
            Err(GptError::NotInitialized),
        ),
        disk@.config.writable && disk@.config.initialized ==> r is Perform,
{
}

/// An operation that fails ends the write with its failure, whatever is left.
pub proof fn law_failure_ends_write(session: WriteSession, e: GptError, r: WriteStep)
    requires
        call_ensures(WriteSession::on_performed, (session, Err(e)), r),
    ensures
        r == WriteStep::Done(Err(e)),
{
}

/// Writing hands out the device after a write that went well, else the failure.
pub proof fn law_write_hands_out_device<D>(
    disk: GptDisk<D>,
    outcome: Result<(), GptError>,
    r: Result<D, GptError>,
)
    requires
        call_ensures(GptDisk::<D>::write, (disk, outcome), r),
    ensures
        outcome is Ok ==> r == Ok::<D, GptError>(disk@.device),
        outcome matches Err(e) ==> r == Err::<D, GptError>(e),
{
}

} // verus!

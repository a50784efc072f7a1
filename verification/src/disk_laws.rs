//! What holds of a disk across its operations.

use vstd::prelude::*;

use crate::config::ConfigView;
use crate::gpt_disk::{at_least_min_parts, DiskView, lowest_free_id, next_id, partition_added};
use crate::guid::Guid;
use crate::header::Header;
use crate::layout::{blocks_for, occupies};
use crate::layout_laws::{apart, free_block, laid_out, law_place_is_free};
use crate::open::{blank_disk, OpenView, ReadRequest};
use crate::partition::{in_use, lemma_used_ids, Partition, used_ids};
use crate::partition_types::Type;

verus! {

/// A disk is valid when it is created, opened or given a table, and stays so when
/// partitions are added to it or removed, and when its identifier, its device or
/// its being writable changes.
pub proof fn law_disks_stay_valid<D>(
    config: ConfigView,
    device: D,
    guid: Guid,
    opening: OpenView<D>,
    old: DiskView<D>,
    table: Map<u32, Partition>,
    primary: Header,
    backup: Option<Header>,
    writable: bool,
)
    ensures
        !config.initialized ==> blank_disk(config, device, guid).valid(),
        opening.backup_header is Some && opening.valid() ==> opening.opened(table).valid(),
        old.with_table(table, primary, backup).valid(),
        old.valid() ==> (DiskView { partitions: table, ..old }).valid(),
        old.valid() ==> (DiskView { guid, ..old }).valid(),
        old.valid() ==> (DiskView {
            device,
            config: ConfigView { writable, ..old.config },
            ..old
        }).valid(),
{
}

/// Opening reads the primary header, then the backup header, then the partitions
/// that the primary header tells of; the disk has what was read and the
/// identifier of the primary header.
pub proof fn law_opening_reads_in_order<D>(
    start: OpenView<D>,
    primary: Header,
    backup: Header,
    table: Map<u32, Partition>,
)
    requires
        start.primary_header is None,
        start.backup_header is None,
    ensures
        start.request() == (ReadRequest::PrimaryHeader { lb_size: start.config.lb_size }),
        start.with_header(primary).request() == (ReadRequest::BackupHeader {
            lb_size: start.config.lb_size,
        }),
        start.with_header(primary).with_header(backup).request() == (ReadRequest::Partitions {
            header: primary,
            lb_size: start.config.lb_size,
        }),
        start.with_header(primary).with_header(backup).opened(table) == (DiskView {
            config: start.config,
            device: start.device,
            guid: primary.disk_guid,
            primary_header: Some(primary),
            backup_header: Some(backup),
            partitions: table,
        }),
{
}

pub proof fn lemma_lowest_free_id(table: Map<u32, Partition>, from: int, highest: int)
    requires
        1 <= from,
        0 <= highest <= u32::MAX,
        from <= highest ==> table.contains_key(highest as u32),
    ensures
        ({
            let id = lowest_free_id(table, from, highest);
            &&& id <= highest + 1
            &&& from <= highest ==> from <= id
            &&& id <= highest ==> !table.contains_key(id as u32)
            &&& forall|i: int|
                from <= i < id && i <= highest ==> table.contains_key(#[trigger] (i as u32))
        }),
    decreases highest - from,
{
    if from < highest && table.contains_key(from as u32) {
        lemma_lowest_free_id(table, from + 1, highest);
    }
}

/// The number that the next partition gets is positive, no partition in use has
/// it, and every lower positive number is taken.
pub proof fn law_next_id_is_unused(table: Map<u32, Partition>)
    ensures
        next_id(table) >= 1,
        next_id(table) <= u32::MAX ==> !in_use(table, next_id(table) as u32),
        forall|i: u32| 1 <= i < next_id(table) ==> #[trigger] table.contains_key(i),
{
    let used = used_ids(table);
    lemma_used_ids(table);
    if used.len() > 0 {
        let highest = used.last();
        assert(used.contains(highest));
        lemma_lowest_free_id(table, 1, highest as int);
        let id = next_id(table);
        if id <= u32::MAX && in_use(table, id as u32) {
            assert(used.contains(id as u32));
            let k = choose|k: int| 0 <= k < used.len() && used[k] == id as u32;
            assert(used[k] <= used[used.len() - 1]);
            assert(false);
        }
        assert forall|i: u32| 1 <= i < next_id(table) implies #[trigger] table.contains_key(i) by {
            assert((i as int) as u32 == i);
        }
    } else {
        if in_use(table, 1) {
            assert(used.contains(1));
        }
    }
}

/// Adding a partition keeps every partition in use as it was, under its number,
/// and puts the new one under another.
pub proof fn law_adding_keeps_partitions<D>(
    old: DiskView<D>,
    new: DiskView<D>,
    id: u32,
    name: Seq<char>,
    size: u64,
    part_type: Type,
    flags: u64,
    alignment: Option<u64>,
    part_guid: Guid,
)
    requires
        partition_added(old, new, id, name, size, part_type, flags, alignment, part_guid),
    ensures
        !in_use(old.partitions, id),
        forall|k: u32| #[trigger]
            in_use(old.partitions, k) ==> in_use(new.partitions, k) && new.partitions[k]
                == old.partitions[k],
        forall|k: u32| #[trigger]
            in_use(new.partitions, k) ==> k == id || in_use(old.partitions, k),
{
    law_next_id_is_unused(old.partitions);
}

/// Removing a partition right after it was added gives the table before, unless
/// an entry that was not in use had its number.
pub proof fn law_removing_undoes_adding<D>(
    old: DiskView<D>,
    new: DiskView<D>,
    id: u32,
    name: Seq<char>,
    size: u64,
    part_type: Type,
    flags: u64,
    alignment: Option<u64>,
    part_guid: Guid,
)
    requires
        partition_added(old, new, id, name, size, part_type, flags, alignment, part_guid),
        !old.partitions.contains_key(id),
    ensures
        (DiskView { partitions: new.partitions.remove(id), ..new }) == old,
{
    assert(new.partitions.remove(id) =~= old.partitions);
}

/// The blocks of a partition hold its size, and one block less would not.
pub proof fn law_partition_holds_size<D>(
    old: DiskView<D>,
    new: DiskView<D>,
    id: u32,
    name: Seq<char>,
    size: u64,
    part_type: Type,
    flags: u64,
    alignment: Option<u64>,
    part_guid: Guid,
)
    requires
        size > 0,
        partition_added(old, new, id, name, size, part_type, flags, alignment, part_guid),
    ensures
        ({
            let p = new.partitions[id];
            let bytes = old.config.lb_size.bytes();
            &&& (p.last_lba - p.first_lba) * bytes < size
            &&& size <= (p.last_lba - p.first_lba + 1) * bytes
        }),
{
}

/// Adding a partition keeps the partitions laid out: the new one lies within the
/// usable blocks and shares none with another, as long as the partitions were laid
/// out before.
pub proof fn law_adding_keeps_layout<D>(
    old: DiskView<D>,
    new: DiskView<D>,
    header: Header,
    id: u32,
    name: Seq<char>,
    size: u64,
    part_type: Type,
    flags: u64,
    alignment: Option<u64>,
    part_guid: Guid,
)
    requires
        size > 0,
        old.table_header() == Some(header),
        old.placement_in_range(size, alignment),
        partition_added(old, new, id, name, size, part_type, flags, alignment, part_guid),
        laid_out(header, old.partitions),
    ensures
        laid_out(header, new.partitions),
        new.table_header() == Some(header),
{
    let blocks = blocks_for(size, old.config.lb_size);
    let p = new.partitions[id];
    assert(blocks > 0);
    law_adding_keeps_partitions(
        old,
        new,
        id,
        name,
        size,
        part_type,
        flags,
        alignment,
        part_guid,
    );
    if p.used() {
        law_place_is_free(header, old.partitions, blocks, alignment);
        assert(free_block(header, old.partitions, p.first_lba as int));
        assert(free_block(header, old.partitions, p.last_lba as int));
        assert forall|k: u32| #[trigger] in_use(old.partitions, k) implies apart(
            old.partitions[k],
            p,
        ) by {
            let q = old.partitions[k];
            if !apart(q, p) {
                let shared = if q.first_lba < p.first_lba {
                    p.first_lba as int
                } else {
                    q.first_lba as int
                };
                assert(free_block(header, old.partitions, shared));
                assert(occupies(q, shared));
            }
        }
    }
    assert forall|a: u32, b: u32|
        #[trigger] in_use(new.partitions, a) && #[trigger] in_use(new.partitions, b) && a
            != b implies apart(new.partitions[a], new.partitions[b]) by {
        if a != id {
            assert(in_use(old.partitions, a));
        }
        if b != id {
            assert(in_use(old.partitions, b));
        }
    }
    assert forall|k: u32| #[trigger] in_use(new.partitions, k) implies header.first_usable
        <= new.partitions[k].first_lba <= new.partitions[k].last_lba <= header.last_usable by {
        if k != id {
            assert(in_use(old.partitions, k));
        }
    }
}

/// Removing a partition keeps the others laid out.
pub proof fn law_removing_keeps_layout(header: Header, table: Map<u32, Partition>, id: u32)
    requires
        laid_out(header, table),
    ensures
        laid_out(header, table.remove(id)),
{
    let less = table.remove(id);
    assert forall|a: u32| #[trigger] in_use(less, a) implies in_use(table, a) && less[a]
        == table[a] by {}
}

/// A new table keeps the number of entries that the primary header tells, unless
/// another number is asked for; then it is that number, and at least the smallest
/// allowed one.
pub proof fn law_number_of_entries<D>(
    disk: DiskView<D>,
    header: Header,
    len: nat,
    backup_lba: u64,
    num_parts: u32,
)
    requires
        disk.primary_header == Some(header),
    ensures
        disk.primary_request(disk.num_parts_for(len), backup_lba).num_parts == header.num_parts,
        disk.backup_request(disk.num_parts_for(len), backup_lba).num_parts == header.num_parts,
        disk.primary_request(at_least_min_parts(num_parts), backup_lba).num_parts >= 128,
        disk.backup_request(at_least_min_parts(num_parts), backup_lba).num_parts >= 128,
        num_parts >= 128 ==> at_least_min_parts(num_parts) == num_parts,
{
}

/// Neither a new table nor a new partition touches the device or the identifier
/// of the disk: both are recorded in memory alone.
pub proof fn law_changes_stay_in_memory<D>(
    old: DiskView<D>,
    new: DiskView<D>,
    table: Map<u32, Partition>,
    primary: Header,
    backup: Option<Header>,
    id: u32,
    name: Seq<char>,
    size: u64,
    part_type: Type,
    flags: u64,
    alignment: Option<u64>,
    part_guid: Guid,
)
    ensures
        old.with_table(table, primary, backup).device == old.device,
        old.with_table(table, primary, backup).guid == old.guid,
        partition_added(old, new, id, name, size, part_type, flags, alignment, part_guid) ==> {
            &&& new.device == old.device
            &&& new.guid == old.guid
            &&& new.primary_header == old.primary_header
            &&& new.backup_header == old.backup_header
        },
{
}

} // verus!

//! What the operations that change a table do, told by their calls: what was
//! given, what was there before and what is there afterwards.

use vstd::prelude::*;

use std::collections::BTreeMap;

use crate::config::ConfigView;
use crate::disk::LogicalBlockSize;
use crate::disk_laws::lemma_lowest_free_id;
use crate::error::{GptError, other_io_error};
use crate::gpt_disk::{DiskView, GptDisk, has_guid, next_id};
use crate::guid::Guid;
use crate::header::{Header, HeaderError, HeaderRequest};
use crate::partition::{in_use, Partition, used_ids};
use crate::terms::{lemma_terms, live};

verus! {

/// Whether `build` answers the request in one way only: with `answer`.
pub open spec fn answers<F: Fn(HeaderRequest) -> Result<Header, HeaderError>>(
    build: F,
    request: HeaderRequest,
    answer: Result<Header, HeaderError>,
) -> bool {
    forall|got: Result<Header, HeaderError>| #[trigger]
        call_ensures(build, (request,), got) ==> got == answer
}

/// Whether `new` is `old` with the table and the headers replaced: it is said to
/// have a table now, and the rest of it is as it was.
pub open spec fn replaced<D>(
    old: DiskView<D>,
    new: DiskView<D>,
    table: Map<u32, Partition>,
    primary: Header,
    backup: Option<Header>,
) -> bool {
    &&& new.partitions == table
    &&& new.primary_header == Some(primary)
    &&& new.backup_header == backup
    &&& new.config.initialized
    &&& new.config.writable == old.config.writable
    &&& new.config.lb_size == old.config.lb_size
    &&& new.guid == old.guid
    &&& new.device == old.device
}

/// Replacing the table asks for a primary header, from the old one, and for a
/// backup header, from the old one, both with the number of entries that the
/// primary header told before, or as many as there are partitions, and with the
/// block of the backup header that the device tells, the identifier and the block
/// size of the disk. The new disk has the given table and the two headers, whatever
/// it had before. The first failure is told, and then the disk is as it was.
pub proof fn law_update_partitions<D, F: Fn(HeaderRequest) -> Result<Header, HeaderError>>(
    disk: &mut GptDisk<D>,
    pp: BTreeMap<u32, Partition>,
    bak: Result<u64, GptError>,
    build: F,
    r: Result<&mut GptDisk<D>, GptError>,
    num_parts: u32,
    first: Result<Header, HeaderError>,
    second: Result<Header, HeaderError>,
)
    requires
        call_ensures(GptDisk::<D>::update_partitions::<F>, (disk, pp, bak, build), r),
        old(disk)@.primary_header matches Some(h) ==> num_parts == h.num_parts,
        old(disk)@.primary_header is None ==> num_parts == pp@.len() % 0x1_0000_0000,
        bak matches Ok(lba) ==> {
            &&& answers(
                build,
                HeaderRequest {
                    base: old(disk)@.primary_header,
                    num_parts,
                    backup_lba: lba,
                    disk_guid: old(disk)@.guid,
                    primary: true,
                    lb_size: old(disk)@.config.lb_size,
                },
                first,
            )
            &&& answers(
                build,
                HeaderRequest {
                    base: old(disk)@.backup_header,
                    num_parts,
                    backup_lba: lba,
                    disk_guid: old(disk)@.guid,
                    primary: false,
                    lb_size: old(disk)@.config.lb_size,
                },
                second,
            )
        },
    ensures
        match (bak, first, second) {
            (Err(e), _, _) => r matches Err(got) && got == e && final(disk)@ == old(disk)@,
            (Ok(_), Err(e), _) => r matches Err(got) && got == GptError::Header(e) && final(disk)@
                == old(disk)@,
            (Ok(_), Ok(_), Err(e)) => r matches Err(got) && got == GptError::Header(e) && final(disk)@ == old(disk)@,
            (Ok(_), Ok(primary), Ok(backup)) => r matches Ok(updated) && replaced(
                old(disk)@,
                updated@,
                pp@,
                primary,
                Some(backup),
            ) && *final(disk) == *final(updated),
        },
{
}

/// Replacing the table without touching backups asks for a primary header alone,
/// as [`law_update_partitions`] does. The new disk has the given table, that header
/// and no backup header. A failure is told as an I/O error with its text, and then
/// the disk is as it was.
pub proof fn law_update_partitions_safe<D, F: Fn(HeaderRequest) -> Result<Header, HeaderError>>(
    disk: &mut GptDisk<D>,
    pp: BTreeMap<u32, Partition>,
    bak: Result<u64, GptError>,
    build: F,
    r: Result<&mut GptDisk<D>, GptError>,
    num_parts: u32,
    first: Result<Header, HeaderError>,
)
    requires
        call_ensures(GptDisk::<D>::update_partitions_safe::<F>, (disk, pp, bak, build), r),
        old(disk)@.primary_header matches Some(h) ==> num_parts == h.num_parts,
        old(disk)@.primary_header is None ==> num_parts == pp@.len() % 0x1_0000_0000,
        bak matches Ok(lba) ==> answers(
            build,
            HeaderRequest {
                base: old(disk)@.primary_header,
                num_parts,
                backup_lba: lba,
                disk_guid: old(disk)@.guid,
                primary: true,
                lb_size: old(disk)@.config.lb_size,
            },
            first,
        ),
    ensures
        match (bak, first) {
            (Err(e), _) => r matches Err(got) && got == e && final(disk)@ == old(disk)@,
            (Ok(_), Err(e)) => r matches Err(got) && got == GptError::Io(
                other_io_error(e.text@),
            ) && final(disk)@ == old(disk)@,
            (Ok(_), Ok(primary)) => r matches Ok(updated) && replaced(
                old(disk)@,
                updated@,
                pp@,
                primary,
                None,
            ) && *final(disk) == *final(updated),
        },
{
}

/// Replacing the table with a chosen number of entries asks for both headers as
/// [`law_update_partitions`] does, but with the chosen number, raised to 128 where
/// it is lower. A failure is told as an I/O error with its text, and then the disk
/// is as it was.
pub proof fn law_update_partitions_embedded<
    D,
    F: Fn(HeaderRequest) -> Result<Header, HeaderError>,
>(
    disk: &mut GptDisk<D>,
    pp: BTreeMap<u32, Partition>,
    num_parts: u32,
    bak: Result<u64, GptError>,
    build: F,
    r: Result<&mut GptDisk<D>, GptError>,
    entries: u32,
    first: Result<Header, HeaderError>,
    second: Result<Header, HeaderError>,
)
    requires
        call_ensures(
            GptDisk::<D>::update_partitions_embedded::<F>,
            (disk, pp, num_parts, bak, build),
            r,
        ),
        num_parts >= 128 ==> entries == num_parts,
        num_parts < 128 ==> entries == 128,
        bak matches Ok(lba) ==> {
            &&& answers(
                build,
                HeaderRequest {
                    base: old(disk)@.primary_header,
                    num_parts: entries,
                    backup_lba: lba,
                    disk_guid: old(disk)@.guid,
                    primary: true,
                    lb_size: old(disk)@.config.lb_size,
                },
                first,
            )
            &&& answers(
                build,
                HeaderRequest {
                    base: old(disk)@.backup_header,
                    num_parts: entries,
                    backup_lba: lba,
                    disk_guid: old(disk)@.guid,
                    primary: false,
                    lb_size: old(disk)@.config.lb_size,
                },
                second,
            )
        },
    ensures
        match (bak, first, second) {
            (Err(e), _, _) => r matches Err(got) && got == e && final(disk)@ == old(disk)@,
            (Ok(_), Err(e), _) => r matches Err(got) && got == GptError::Io(
                other_io_error(e.text@),
            ) && final(disk)@ == old(disk)@,
            (Ok(_), Ok(_), Err(e)) => r matches Err(got) && got == GptError::Io(
                other_io_error(e.text@),
            ) && final(disk)@ == old(disk)@,
            (Ok(_), Ok(primary), Ok(backup)) => r matches Ok(updated) && replaced(
                old(disk)@,
                updated@,
                pp@,
                primary,
                Some(backup),
            ) && *final(disk) == *final(updated),
        },
{
}

/// Any table can be put on any disk, as long as `build` takes any request.
pub proof fn law_any_table_can_be_given<D, F: Fn(HeaderRequest) -> Result<Header, HeaderError>>(
    disk: &mut GptDisk<D>,
    pp: BTreeMap<u32, Partition>,
    num_parts: u32,
    bak: Result<u64, GptError>,
    build: F,
)
    requires
        forall|request: HeaderRequest| #[trigger] call_requires(build, (request,)),
    ensures
        call_requires(GptDisk::<D>::update_partitions::<F>, (disk, pp, bak, build)),
        call_requires(GptDisk::<D>::update_partitions_safe::<F>, (disk, pp, bak, build)),
        call_requires(
            GptDisk::<D>::update_partitions_embedded::<F>,
            (disk, pp, num_parts, bak, build),
        ),
{
}

/// Whether `new` is `old` but for its table.
pub open spec fn same_but_table<D>(old: DiskView<D>, new: DiskView<D>) -> bool {
    &&& new.config == old.config
    &&& new.device == old.device
    &&& new.guid == old.guid
    &&& new.primary_header == old.primary_header
    &&& new.backup_header == old.backup_header
}

/// Removing by number takes out the entry with that number, if there is one, and
/// no other. Removing by identifier takes out the entry that has the identifier,
/// of several the one with the lowest number; it fails only where none has it, and
/// then changes nothing. The rest of the disk stays as it was.
pub proof fn law_remove_partition<D>(
    disk: &mut GptDisk<D>,
    id: Option<u32>,
    partguid: Option<Guid>,
    r: Result<u32, std::io::Error>,
)
    requires
        call_ensures(GptDisk::<D>::remove_partition, (disk, id, partguid), r),
        id is Some <==> partguid is None,
    ensures
        call_requires(GptDisk::<D>::remove_partition, (disk, id, partguid)),
        same_but_table(old(disk)@, final(disk)@),
        r matches Ok(n) ==> {
            &&& !final(disk)@.partitions.contains_key(n)
            &&& forall|k: u32|
                k != n ==> {
                    &&& #[trigger] final(disk)@.partitions.contains_key(k) == old(disk)@.partitions.contains_key(k)
                    &&& final(disk)@.partitions.contains_key(k) ==> final(disk)@.partitions[k]
                        == old(disk)@.partitions[k]
                }
        },
        r is Err ==> final(disk)@ == old(disk)@,
        id matches Some(given) ==> r matches Ok(n) && n == given,
        partguid matches Some(guid) ==> match r {
            Ok(n) => {
                &&& old(disk)@.partitions.contains_key(n)
                &&& old(disk)@.partitions[n].part_guid == guid
                &&& forall|k: u32|
                    k < n && #[trigger] old(disk)@.partitions.contains_key(k) ==> old(disk)@.partitions[k].part_guid != guid
            },
            Err(e) => {
                &&& e == other_io_error("no partition has this identifier"@)
                &&& forall|k: u32| #[trigger]
                    old(disk)@.partitions.contains_key(k) ==> old(disk)@.partitions[k].part_guid
                        != guid
            },
        },
{
    if let Some(guid) = partguid {
        assert forall|k: u32| #[trigger] old(disk)@.partitions.contains_key(k) implies (old(disk)@.partitions[k].part_guid == guid) == has_guid(old(disk)@.partitions, k, guid) by {}
    }
}

/// Whether `id` is the number that a new partition gets: one where no entry is
/// live; else the lowest positive number below the highest live one that the table
/// lacks; else the one behind the highest live one.
pub open spec fn is_next_number(table: Map<u32, Partition>, id: int) -> bool {
    &&& (forall|k: u32| !live(table, k)) ==> id == 1
    &&& forall|highest: u32|
        #[trigger] live(table, highest) && (forall|k: u32| #[trigger]
            live(table, k) ==> k <= highest) ==> {
            &&& 1 <= id <= highest + 1
            &&& id != highest || highest == 0
            &&& id < highest ==> !table.contains_key(id as u32)
            &&& forall|k: u32| 1 <= k < id ==> #[trigger] table.contains_key(k)
        }
}

/// The number that the contracts go by is the one that a new partition gets.
pub proof fn lemma_next_number(table: Map<u32, Partition>)
    ensures
        is_next_number(table, next_id(table)),
        forall|id: int| #[trigger] is_next_number(table, id) ==> id == next_id(table),
        1 <= next_id(table),
        next_id(table) <= u32::MAX ==> !live(table, next_id(table) as u32),
{
    lemma_terms(table);
    crate::disk_laws::law_next_id_is_unused(table);
    let used = used_ids(table);
    if used.len() == 0 {
        assert forall|k: u32| !live(table, k) by {}
    } else {
        let top = used.last();
        assert(used[used.len() - 1] == top);
        assert(live(table, top));
        assert(in_use(table, top));
        assert forall|k: u32| #[trigger] live(table, k) implies k <= top by {
            let i = choose|i: int| 0 <= i < used.len() && used[i] == k;
            assert(used[i] <= used[used.len() - 1]);
        }
        lemma_lowest_free_id(table, 1, top as int);
        assert forall|highest: u32|
            #[trigger] live(table, highest) && (forall|k: u32| #[trigger]
                live(table, k) ==> k <= highest) implies highest == top by {
            assert(live(table, top));
        }
        let id = next_id(table);
        assert(is_next_number(table, id));
        assert forall|other: int| #[trigger] is_next_number(table, other) implies other == id by {
            assert(1 <= other <= top + 1);
            if other < id {
                assert(table.contains_key(other as u32));
                if other == top {
                    assert(top == 0);
                }
            }
            if id < other {
                assert(table.contains_key(id as u32));
                if id == top {
                    assert(top == 0);
                }
            }
        }
    }
}

/// The next number is one where no entry is live; else it is the lowest positive
/// number below the highest live one that the table lacks; else the one behind
/// the highest. It can be asked for unless all numbers are taken.
pub proof fn law_next_partition_id<D>(disk: GptDisk<D>, r: u32, checked: Option<u32>)
    requires
        call_ensures(GptDisk::<D>::find_next_partition_id, (&disk,), r),
        call_ensures(GptDisk::<D>::checked_next_partition_id, (&disk,), checked),
    ensures
        is_next_number(disk@.partitions, r as int),
        !live(disk@.partitions, u32::MAX) ==> checked == Some(r) && call_requires(
            GptDisk::<D>::find_next_partition_id,
            (&disk,),
        ),
        checked matches Some(id) ==> is_next_number(disk@.partitions, id as int),
        checked is None ==> forall|k: u32| k >= 1 ==> #[trigger] disk@.partitions.contains_key(k),
{
    lemma_next_number(disk@.partitions);
    lemma_next_bound(disk@.partitions);
}

/// Only where all positive numbers are in the table, and the largest is live, is
/// there no next one.
pub proof fn lemma_next_bound(table: Map<u32, Partition>)
    ensures
        !live(table, u32::MAX) ==> next_id(table) <= u32::MAX,
        next_id(table) > u32::MAX ==> forall|k: u32| k >= 1 ==> #[trigger] table.contains_key(k),
{
    lemma_terms(table);
    crate::disk_laws::law_next_id_is_unused(table);
    let used = used_ids(table);
    if used.len() > 0 {
        let top = used.last();
        assert(used[used.len() - 1] == top);
        assert(live(table, top));
        assert(in_use(table, top));
        lemma_lowest_free_id(table, 1, top as int);
    }
}

/// Changing the identifier changes nothing else. Without a given one it is drawn.
pub proof fn law_update_guid<D>(disk: &mut GptDisk<D>, uuid: Option<Guid>, r: &mut GptDisk<D>)
    requires
        call_ensures(GptDisk::<D>::update_guid, (disk, uuid), r),
    ensures
        uuid matches Some(guid) ==> old(r)@.guid == guid,
        uuid is None ==> old(r)@.guid.is_random(),
        old(r)@.config == old(disk)@.config,
        old(r)@.device == old(disk)@.device,
        old(r)@.primary_header == old(disk)@.primary_header,
        old(r)@.backup_header == old(disk)@.backup_header,
        old(r)@.partitions == old(disk)@.partitions,
        *final(disk) == *final(r),
{
}

/// Changing the device hands out the old one, and sets whether the disk is
/// writable. The table, the headers and the rest stay.
pub proof fn law_update_disk_device<D>(disk: &mut GptDisk<D>, device: D, writable: bool, r: D)
    requires
        call_ensures(GptDisk::<D>::update_disk_device, (disk, device, writable), r),
    ensures
        r == old(disk)@.device,
        final(disk)@.device == device,
        final(disk)@.config.writable == writable,
        final(disk)@.config.initialized == old(disk)@.config.initialized,
        final(disk)@.config.lb_size == old(disk)@.config.lb_size,
        final(disk)@.guid == old(disk)@.guid,
        final(disk)@.primary_header == old(disk)@.primary_header,
        final(disk)@.backup_header == old(disk)@.backup_header,
        final(disk)@.partitions == old(disk)@.partitions,
{
}

/// What is read off a disk is what it holds.
pub proof fn law_getters<D>(
    disk: GptDisk<D>,
    primary: Option<&Header>,
    backup: Option<&Header>,
    partitions: &BTreeMap<u32, Partition>,
    guid: &Guid,
    lb_size: &LogicalBlockSize,
    device: D,
)
    requires
        call_ensures(GptDisk::<D>::primary_header, (&disk,), primary),
        call_ensures(GptDisk::<D>::backup_header, (&disk,), backup),
        call_ensures(GptDisk::<D>::partitions, (&disk,), partitions),
        call_ensures(GptDisk::<D>::guid, (&disk,), guid),
        call_ensures(GptDisk::<D>::logical_block_size, (&disk,), lb_size),
        call_ensures(GptDisk::<D>::take_device, (disk,), device),
    ensures
        disk@ == (DiskView {
            config: ConfigView { lb_size: *lb_size, ..disk@.config },
            device,
            guid: *guid,
            primary_header: match primary {
                Some(header) => Some(*header),
                None => None,
            },
            backup_header: match backup {
                Some(header) => Some(*header),
                None => None,
            },
            partitions: partitions@,
        }),
{
}

} // verus!

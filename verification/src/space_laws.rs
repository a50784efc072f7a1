//! Where a disk has room and where a new partition goes, told by the calls of the
//! operations: by blocks that are available or not.

use vstd::prelude::*;

use crate::disk::LogicalBlockSize;
use crate::error::GptError;
use crate::gpt_disk::{DiskView, GptDisk, partition_added};
use crate::guid::Guid;
use crate::header::Header;
use crate::layout::{
    alignment_gap, blocks_for, boundaries, first_with_room, has_room, lemma_boundaries,
    placement, room, rooms, search_in_range, section, sections, sections_in_range, unoccupied,
};
use crate::layout_laws::{
    free_block, laid_out, law_free_blocks_are_found, law_free_sections_are_free, law_place_is_free,
    law_place_is_lowest, law_sections_rise, lemma_boundaries_are, lemma_first_stretch,
    lemma_first_with_room, lemma_gap_aligns, lemma_in_range, lemma_stretch_behind,
    lemma_stretch_is_maximal,
};
use crate::partition::{in_use, Partition};
use crate::partition_types::Type;
use crate::table_laws::{is_next_number, lemma_next_bound, lemma_next_number, same_but_table};
use crate::terms::{
    available, block_bytes, in_force, lemma_terms, lists_live, live, orderly, vacant,
};

verus! {

/// Whether the block `lba` lies in one of the stretches.
pub open spec fn told(free: Seq<(u64, u64)>, lba: int) -> bool {
    exists|i: int|
        0 <= i < free.len() && (#[trigger] free[i]).0 <= lba < free[i].0 + free[i].1
}

/// Whether no live entry ends or begins at the largest block number, behind which
/// there is none. The first usable block may be that one.
pub open spec fn below_the_largest(header: Header, table: Map<u32, Partition>) -> bool {
    header.first_usable == u64::MAX || forall|id: u32| #[trigger]
        live(table, id) ==> table[id].first_lba < u64::MAX && table[id].last_lba < u64::MAX
}

proof fn lemma_force<D>(disk: DiskView<D>, header: Header)
    requires
        in_force(disk, header),
    ensures
        disk.table_header() == Some(header),
        disk.free() == sections(header, disk.partitions),
        disk.rooms() == rooms(header, disk.partitions),
        disk.free_in_range() == sections_in_range(header, disk.partitions),
        below_the_largest(header, disk.partitions) ==> disk.free_in_range(),
{
    lemma_terms(disk.partitions);
    assert forall|id: u32| #[trigger] in_use(disk.partitions, id) implies live(
        disk.partitions,
        id,
    ) by {}
    if below_the_largest(header, disk.partitions) {
        lemma_in_range(header, disk.partitions);
    }
}

/// The free stretches of a disk can be asked for, whatever else is set on it.
pub proof fn law_free_sectors_can_be_told<D>(disk: GptDisk<D>, header: Header, told: bool)
    requires
        in_force(disk@, header) ==> below_the_largest(header, disk@.partitions),
        in_force(disk@, header) || disk@.primary_header is None && disk@.backup_header is None,
        call_ensures(GptDisk::<D>::is_free_in_range, (&disk,), told),
    ensures
        call_requires(GptDisk::<D>::find_free_sectors, (&disk,)),
        told,
{
    if in_force(disk@, header) {
        lemma_force(disk@, header);
    }
}

/// Without a header no free stretch is told.
pub proof fn law_no_header_no_space<D>(disk: GptDisk<D>, r: Vec<(u64, u64)>)
    requires
        call_ensures(GptDisk::<D>::find_free_sectors, (&disk,), r),
        disk@.primary_header is None,
        disk@.backup_header is None,
    ensures
        r@.len() == 0,
{
}

/// What is told of a disk as free covers exactly the vacant blocks before the last
/// usable one. The stretches are as many as there are live entries and one more.
/// They come from the lowest to the highest and share no block. The first starts at
/// the first usable block and one starts behind each live entry. None is cut short:
/// it starts and ends at a live entry or with the usable blocks.
pub proof fn law_free_sectors<D>(
    disk: GptDisk<D>,
    header: Header,
    ids: Seq<u32>,
    r: Vec<(u64, u64)>,
)
    requires
        call_ensures(GptDisk::<D>::find_free_sectors, (&disk,), r),
        in_force(disk@, header),
        orderly(header, disk@.partitions),
        below_the_largest(header, disk@.partitions),
        lists_live(disk@.partitions, ids),
    ensures
        forall|lba: int|
            header.first_usable <= lba < header.last_usable ==> (#[trigger] told(r@, lba)
                <==> vacant(disk@.partitions, lba)),
        forall|lba: int| #[trigger]
            told(r@, lba) ==> header.first_usable <= lba < header.last_usable,
        r@.len() == ids.len() + 1,
        r@[0].0 == header.first_usable,
        forall|i: int, j: int|
            0 <= i < j < r@.len() ==> (#[trigger] r@[i]).0 + r@[i].1 <= (#[trigger] r@[j]).0,
        forall|i: int|
            0 <= i < r@.len() && (#[trigger] r@[i]).1 > 0 ==> {
                &&& r@[i].0 + r@[i].1 == header.last_usable || !vacant(
                    disk@.partitions,
                    r@[i].0 + r@[i].1,
                )
                &&& r@[i].0 == header.first_usable || !vacant(disk@.partitions, r@[i].0 - 1)
            },
        header.first_usable < header.last_usable ==> forall|id: u32| #[trigger]
            live(disk@.partitions, id) ==> exists|i: int|
                0 <= i < r@.len() && (#[trigger] r@[i]).0 == disk@.partitions[id].last_lba + 1,
{
    let table = disk@.partitions;
    let bounds = boundaries(header, table);
    lemma_force(disk@, header);
    lemma_terms(table);
    assert(orderly(header, table) == laid_out(header, table));
    lemma_boundaries(header, table);
    lemma_first_stretch(header, table);
    assert forall|lba: int| header.first_usable <= lba < header.last_usable implies (
    #[trigger] told(r@, lba) <==> vacant(table, lba)) by {
        assert(vacant(table, lba) == unoccupied(table, lba));
        if told(r@, lba) {
            let i = choose|i: int|
                0 <= i < r@.len() && (#[trigger] r@[i]).0 <= lba < r@[i].0 + r@[i].1;
            law_free_sections_are_free(header, table, i, lba);
        }
        if vacant(table, lba) {
            assert(free_block(header, table, lba));
            law_free_blocks_are_found(header, table, lba);
        }
    }
    assert forall|lba: int| #[trigger] told(r@, lba) implies header.first_usable <= lba
        < header.last_usable by {
        let i = choose|i: int|
            0 <= i < r@.len() && (#[trigger] r@[i]).0 <= lba < r@[i].0 + r@[i].1;
        law_free_sections_are_free(header, table, i, lba);
    }
    assert forall|i: int, j: int| 0 <= i < j < r@.len() implies (#[trigger] r@[i]).0 + r@[i].1
        <= (#[trigger] r@[j]).0 by {
        law_sections_rise(header, table, i, j);
        assert(r@[i] == section(header.first_usable, bounds, i));
        assert(r@[j] == section(header.first_usable, bounds, j));
        assert(bounds[2 * i + 1] <= bounds[2 * j]);
        assert(bounds[2 * j] <= bounds[bounds.len() - 2]);
        assert(bounds[2 * i] <= bounds[bounds.len() - 2]);
    }
    assert forall|i: int| 0 <= i < r@.len() && (#[trigger] r@[i]).1 > 0 implies {
        &&& r@[i].0 + r@[i].1 == header.last_usable || !vacant(table, r@[i].0 + r@[i].1)
        &&& r@[i].0 == header.first_usable || !vacant(table, r@[i].0 - 1)
    } by {
        lemma_stretch_is_maximal(header, table, i);
        assert(vacant(table, r@[i].0 + r@[i].1) == unoccupied(table, r@[i].0 + r@[i].1));
        assert(vacant(table, r@[i].0 - 1) == unoccupied(table, r@[i].0 - 1));
    }
    if header.first_usable < header.last_usable {
        assert forall|id: u32| #[trigger] live(table, id) implies exists|i: int|
            0 <= i < r@.len() && (#[trigger] r@[i]).0 == table[id].last_lba + 1 by {
            assert(in_use(table, id));
            let i = lemma_stretch_behind(header, table, id);
            assert(r@[i].0 == table[id].last_lba + 1);
        }
    }
}

/// Whether `ends` lists the first and the last block of each of the named entries.
pub open spec fn lists_ends(table: Map<u32, Partition>, ids: Seq<u32>, ends: Seq<u64>) -> bool {
    &&& ends.len() == 2 * ids.len()
    &&& forall|k: int|
        0 <= k < ids.len() ==> {
            &&& ends[2 * k] == table[#[trigger] ids[k]].first_lba
            &&& ends[2 * k + 1] == table[ids[k]].last_lba
        }
}

/// What is told of any disk as free, however its entries lie, where it can be told:
/// put the ends of the
/// usable blocks and of all live entries in order; then each pair of neighbours
/// from the lowest on bounds a stretch. It starts behind the lower one, or with it
/// where that is the first usable block and is the lowest of all, has a lower
/// neighbour that is less, or bounds the stretch from above too. It ends before the
/// upper one.
pub proof fn law_free_sectors_of_any_table<D>(
    disk: GptDisk<D>,
    header: Header,
    ids: Seq<u32>,
    ends: Seq<u64>,
    bounds: Seq<u64>,
    r: Vec<(u64, u64)>,
    i: int,
)
    requires
        call_ensures(GptDisk::<D>::find_free_sectors, (&disk,), r),
        call_ensures(GptDisk::<D>::is_free_in_range, (&disk,), true),
        in_force(disk@, header),
        lists_live(disk@.partitions, ids),
        lists_ends(disk@.partitions, ids, ends),
        forall|a: int, b: int| 0 <= a < b < bounds.len() ==> bounds[a] <= bounds[b],
        bounds.to_multiset() == (seq![header.first_usable] + ends + seq![
            header.last_usable,
        ]).to_multiset(),
        0 <= i < r@.len(),
    ensures
        bounds.len() == 2 * r@.len(),
        ({
            let low = bounds[2 * i];
            let high = bounds[2 * i + 1];
            let (start, length) = r@[i];
            let with = low == header.first_usable && (i == 0 || bounds[2 * i - 1] < low || high
                == low);
            &&& with ==> start == low
            &&& !with ==> start == low + 1
            &&& high >= start ==> start + length == high
            &&& high < start ==> length == 0
        }),
{
    let table = disk@.partitions;
    lemma_force(disk@, header);
    lemma_terms(table);
    lemma_boundaries(header, table);
    lemma_boundaries_are(header, table, ends, bounds);
    assert(bounds[2 * i] <= bounds[bounds.len() - 2]);
    assert(r@[i] == section(header.first_usable, bounds, i));
}

/// Whether `blocks` available blocks lie in a row from `first` on.
pub open spec fn row(
    header: Header,
    table: Map<u32, Partition>,
    first: int,
    blocks: int,
) -> bool {
    forall|lba: int| first <= lba < first + blocks ==> #[trigger] available(header, table, lba)
}

/// Whether the block `first` is a multiple of the alignment.
pub open spec fn aligned(first: int, alignment: Option<u64>) -> bool {
    alignment matches Some(a) ==> first % (a as int) == 0
}

/// Whether `blocks` is the least number of blocks that hold `size` bytes.
pub open spec fn just_holds(lb_size: LogicalBlockSize, blocks: int, size: u64) -> bool {
    (blocks - 1) * block_bytes(lb_size) < size <= blocks * block_bytes(lb_size)
}

proof fn lemma_blocks(lb_size: LogicalBlockSize, blocks: int, size: u64)
    requires
        size > 0,
        just_holds(lb_size, blocks, size),
    ensures
        blocks == blocks_for(size, lb_size),
        0 < blocks <= 0x80_0000_0000_0000,
{
    let bytes = block_bytes(lb_size);
    let n = size as int;
    assert(bytes == 512 || bytes == 4096);
    assert((n - 1) / bytes + 1 == blocks && 0 < blocks) by (
        nonlinear_arith)
        requires
            bytes == 512 || bytes == 4096,
            n > 0,
            (blocks - 1) * bytes < n <= blocks * bytes,
    ;
    assert((blocks - 1) * 512 <= (blocks - 1) * bytes) by (nonlinear_arith)
        requires
            bytes >= 512,
            blocks > 0,
    ;
}

proof fn lemma_row(header: Header, table: Map<u32, Partition>, first: int, blocks: int)
    ensures
        row(header, table, first, blocks) ==> forall|lba: int|
            first <= lba < first + blocks ==> #[trigger] free_block(header, table, lba),
        (forall|lba: int|
            first <= lba < first + blocks ==> #[trigger] free_block(header, table, lba)) ==> row(
            header,
            table,
            first,
            blocks,
        ),
{
    lemma_terms(table);
    assert forall|lba: int| #![trigger free_block(header, table, lba)]
        #![trigger available(header, table, lba)]
        free_block(header, table, lba) == available(header, table, lba) by {
        assert(vacant(table, lba) == unoccupied(table, lba));
    }
}

/// The place of a partition on an orderly disk.
proof fn lemma_placed<D>(
    disk: DiskView<D>,
    header: Header,
    size: u64,
    blocks: int,
    alignment: Option<u64>,
)
    requires
        in_force(disk, header),
        orderly(header, disk.partitions),
        header.last_usable < u64::MAX,
        size > 0,
        just_holds(disk.config.lb_size, blocks, size),
        alignment != Some(0u64),
    ensures
        match disk.placement(size, alignment) {
            Some(first) => {
                &&& row(header, disk.partitions, first as int, blocks)
                &&& aligned(first as int, alignment)
                &&& first + blocks <= header.last_usable + 1
                &&& forall|other: int| #[trigger]
                    row(header, disk.partitions, other, blocks) && aligned(other, alignment)
                        ==> first <= other
            },
            None => forall|other: int| #[trigger]
                row(header, disk.partitions, other, blocks) ==> !aligned(other, alignment),
        },
{
    let table = disk.partitions;
    lemma_terms(table);
    assert(orderly(header, table) == laid_out(header, table));
    assert(below_the_largest(header, table)) by {
        assert forall|id: u32| #[trigger] live(table, id) implies table[id].first_lba < u64::MAX
            && table[id].last_lba < u64::MAX by {}
    }
    lemma_force(disk, header);
    lemma_blocks(disk.config.lb_size, blocks, size);
    let free = rooms(header, table);
    if let Some(first) = placement(free, blocks, alignment) {
        law_place_is_free(header, table, blocks, alignment);
        lemma_row(header, table, first as int, blocks);
        assert(free_block(header, table, first + blocks - 1));
        lemma_chosen(header, table, blocks, alignment);
    }
    assert forall|other: int| #[trigger] row(header, table, other, blocks) && aligned(
        other,
        alignment,
    ) implies (placement(free, blocks, alignment) matches Some(first) && first <= other) by {
        lemma_row(header, table, other, blocks);
        law_place_is_lowest(header, table, blocks, alignment, other);
    }
}

/// The block that is chosen is the first aligned one of its stretch.
proof fn lemma_chosen(
    header: Header,
    table: Map<u32, Partition>,
    blocks: int,
    alignment: Option<u64>,
)
    requires
        sections_in_range(header, table),
        alignment != Some(0u64),
        blocks > 0,
        placement(rooms(header, table), blocks, alignment) is Some,
    ensures
        ({
            let free = sections(header, table);
            let first = placement(rooms(header, table), blocks, alignment)->0;
            let i = first_with_room(rooms(header, table), blocks, alignment, 0)->0;
            &&& aligned(first as int, alignment)
            &&& 0 <= i < free.len() == rooms(header, table).len()
            &&& first == free[i].0 + alignment_gap(free[i].0, alignment)
            &&& first + blocks <= free[i].0 + free[i].1 + 1
            &&& first + blocks == free[i].0 + free[i].1 + 1 ==> unoccupied(
                table,
                free[i].0 + free[i].1,
            )
        }),
{
    let all = rooms(header, table);
    let bounds = boundaries(header, table);
    lemma_boundaries(header, table);
    lemma_first_with_room(all, blocks, alignment, 0);
    let i = first_with_room(all, blocks, alignment, 0)->0;
    assert(all[i] == room(header, table, i));
    assert(sections(header, table)[i] == section(header.first_usable, bounds, i));
    assert(bounds[2 * i] <= bounds[bounds.len() - 2]);
    if let Some(a) = alignment {
        lemma_gap_aligns(all[i].0, a);
    }
}

/// Whether `new` is `old` with one entry more, or one that was not live replaced:
/// the entry number `id` is as asked for, every other is as it was, and so is the
/// rest of the disk.
pub open spec fn one_more<D>(
    old: DiskView<D>,
    new: DiskView<D>,
    id: u32,
    name: Seq<char>,
    blocks: int,
    part_type: Type,
    flags: u64,
) -> bool {
    &&& same_but_table(old, new)
    &&& !live(old.partitions, id)
    &&& is_next_number(old.partitions, id as int)
    &&& new.partitions.contains_key(id)
    &&& new.partitions[id].part_type_guid == part_type
    &&& new.partitions[id].flags == flags
    &&& new.partitions[id].name@ == name
    &&& new.partitions[id].last_lba - new.partitions[id].first_lba + 1 == blocks
    &&& forall|k: u32|
        k != id ==> {
            &&& #[trigger] new.partitions.contains_key(k) == old.partitions.contains_key(k)
            &&& new.partitions.contains_key(k) ==> new.partitions[k] == old.partitions[k]
        }
}

proof fn lemma_one_more<D>(
    old: DiskView<D>,
    new: DiskView<D>,
    id: u32,
    name: Seq<char>,
    size: u64,
    blocks: int,
    part_type: Type,
    flags: u64,
    alignment: Option<u64>,
    part_guid: Guid,
)
    requires
        size > 0,
        just_holds(old.config.lb_size, blocks, size),
        partition_added(old, new, id, name, size, part_type, flags, alignment, part_guid),
    ensures
        one_more(old, new, id, name, blocks, part_type, flags),
        new.partitions[id].part_guid == part_guid,
        old.placement(size, alignment) == Some(new.partitions[id].first_lba),
{
    lemma_blocks(old.config.lb_size, blocks, size);
    lemma_next_number(old.partitions);
    lemma_terms(old.partitions);
}

/// Adding a partition succeeds exactly where enough available blocks lie in a row
/// from an aligned one on, and puts it at the lowest such place: in just as many
/// blocks as hold its size, all of them available before. It gets the next number
/// and what it was asked for, and nothing else changes. Else the disk stays as it
/// was.
///
/// Only the header that is in force, the table and the block size count: not
/// whether there is another header or what else is set on the disk.
pub proof fn law_add_partition<D>(
    disk: &mut GptDisk<D>,
    name: &str,
    size: u64,
    part_type: Type,
    flags: u64,
    alignment: Option<u64>,
    r: Result<u32, GptError>,
    header: Header,
    blocks: int,
)
    requires
        call_ensures(
            GptDisk::<D>::add_partition,
            (disk, name, size, part_type, flags, alignment),
            r,
        ),
        in_force(old(disk)@, header),
        orderly(header, old(disk)@.partitions),
        header.last_usable < u64::MAX,
        size > 0,
        just_holds(old(disk)@.config.lb_size, blocks, size),
        alignment != Some(0u64),
    ensures
        match r {
            Ok(id) => {
                let first = final(disk)@.partitions[id].first_lba as int;
                &&& one_more(old(disk)@, final(disk)@, id, name@, blocks, part_type, flags)
                &&& final(disk)@.partitions[id].part_guid.is_random()
                &&& row(header, old(disk)@.partitions, first, blocks)
                &&& aligned(first, alignment)
                &&& forall|other: int| #[trigger]
                    row(header, old(disk)@.partitions, other, blocks) && aligned(other, alignment)
                        ==> first <= other
            },
            Err(e) => {
                &&& e == GptError::NotEnoughSpace
                &&& final(disk)@ == old(disk)@
                &&& forall|other: int| #[trigger]
                    row(header, old(disk)@.partitions, other, blocks) ==> !aligned(
                        other,
                        alignment,
                    )
            },
        },
{
    lemma_placed(old(disk)@, header, size, blocks, alignment);
    if let Ok(id) = r {
        let guid = choose|guid: Guid|
            #![trigger guid.is_random()]
            guid.is_random() && partition_added(
                old(disk)@,
                final(disk)@,
                id,
                name@,
                size,
                part_type,
                flags,
                alignment,
                guid,
            );
        lemma_one_more(
            old(disk)@,
            final(disk)@,
            id,
            name@,
            size,
            blocks,
            part_type,
            flags,
            alignment,
            guid,
        );
    }
}

/// Adding a partition with a chosen identifier does what [`law_add_partition`]
/// tells, and the partition has that identifier.
pub proof fn law_add_partition_with_guid<D>(
    disk: &mut GptDisk<D>,
    name: &str,
    size: u64,
    part_type: Type,
    flags: u64,
    alignment: Option<u64>,
    part_guid: Guid,
    r: Result<u32, GptError>,
    header: Header,
    blocks: int,
)
    requires
        call_ensures(
            GptDisk::<D>::add_partition_with_guid,
            (disk, name, size, part_type, flags, alignment, part_guid),
            r,
        ),
        in_force(old(disk)@, header),
        orderly(header, old(disk)@.partitions),
        header.last_usable < u64::MAX,
        size > 0,
        just_holds(old(disk)@.config.lb_size, blocks, size),
        alignment != Some(0u64),
    ensures
        match r {
            Ok(id) => {
                let first = final(disk)@.partitions[id].first_lba as int;
                &&& one_more(old(disk)@, final(disk)@, id, name@, blocks, part_type, flags)
                &&& final(disk)@.partitions[id].part_guid == part_guid
                &&& row(header, old(disk)@.partitions, first, blocks)
                &&& aligned(first, alignment)
                &&& forall|other: int| #[trigger]
                    row(header, old(disk)@.partitions, other, blocks) && aligned(other, alignment)
                        ==> first <= other
            },
            Err(e) => {
                &&& e == GptError::NotEnoughSpace
                &&& final(disk)@ == old(disk)@
                &&& forall|other: int| #[trigger]
                    row(header, old(disk)@.partitions, other, blocks) ==> !aligned(
                        other,
                        alignment,
                    )
            },
        },
{
    lemma_placed(old(disk)@, header, size, blocks, alignment);
    if let Ok(id) = r {
        lemma_one_more(
            old(disk)@,
            final(disk)@,
            id,
            name@,
            size,
            blocks,
            part_type,
            flags,
            alignment,
            part_guid,
        );
    }
}

/// Whether `first` is the lowest aligned block from `start` on.
pub open spec fn next_aligned(start: int, alignment: Option<u64>, first: int) -> bool {
    match alignment {
        Some(a) => start <= first < start + a && first % (a as int) == 0,
        None => first == start,
    }
}

pub proof fn lemma_next_aligned(start: u64, alignment: Option<u64>, first: int)
    requires
        alignment != Some(0u64),
        next_aligned(start as int, alignment, first),
    ensures
        first == start + alignment_gap(start, alignment),
{
    if let Some(a) = alignment {
        lemma_gap_aligns(start, a);
        let b = start + alignment_gap(start, alignment);
        let n = a as int;
        assert(first == b) by (nonlinear_arith)
            requires
                n > 0,
                first % n == 0,
                b % n == 0,
                start <= first < start + n,
                start <= b < start + n,
        ;
    }
}

/// Whether a stretch holds `blocks` blocks from `first` on: with the block behind
/// it where that is vacant. That block is not counted with a stretch that is empty,
/// or of all numbers.
pub open spec fn holds(
    table: Map<u32, Partition>,
    stretch: (u64, u64),
    first: int,
    blocks: int,
) -> bool {
    let end = stretch.0 + stretch.1;
    ||| first + blocks <= end
    ||| first + blocks == end + 1 && 0 < stretch.1 < u64::MAX && vacant(table, end)
}

/// On any disk, however its entries lie, a partition is added as the free
/// stretches tell: it starts at the first aligned block of a stretch, and lies in
/// the stretch, or has the block behind it too where that is vacant. No lower
/// stretch would hold it, with that block or without. Where a stretch holds it,
/// adding succeeds.
pub proof fn law_add_partition_to_any_table<D>(
    disk: &mut GptDisk<D>,
    free: Vec<(u64, u64)>,
    name: &str,
    size: u64,
    part_type: Type,
    flags: u64,
    alignment: Option<u64>,
    r: Result<u32, GptError>,
    header: Header,
    blocks: int,
    j: int,
    other: int,
)
    requires
        call_ensures(GptDisk::<D>::find_free_sectors, (&*old(disk),), free),
        call_ensures(
            GptDisk::<D>::add_partition,
            (disk, name, size, part_type, flags, alignment),
            r,
        ),
        call_ensures(GptDisk::<D>::is_free_in_range, (&*old(disk),), true),
        in_force(old(disk)@, header),
        size > 0,
        just_holds(old(disk)@.config.lb_size, blocks, size),
        alignment != Some(0u64),
        0 <= j < free@.len(),
        next_aligned(free@[j].0 as int, alignment, other),
    ensures
        match r {
            Ok(id) => {
                let first = final(disk)@.partitions[id].first_lba as int;
                &&& one_more(old(disk)@, final(disk)@, id, name@, blocks, part_type, flags)
                &&& exists|i: int|
                    {
                        &&& 0 <= i < free@.len()
                        &&& next_aligned((#[trigger] free@[i]).0 as int, alignment, first)
                        &&& first + blocks <= free@[i].0 + free@[i].1 + 1
                        &&& first + blocks == free@[i].0 + free@[i].1 + 1 ==> vacant(
                            old(disk)@.partitions,
                            free@[i].0 + free@[i].1,
                        )
                        &&& j < i ==> !holds(
                            old(disk)@.partitions,
                            free@[j],
                            other,
                            blocks,
                        )
                    }
            },
            Err(e) => {
                &&& e == GptError::NotEnoughSpace
                &&& final(disk)@ == old(disk)@
                &&& !holds(old(disk)@.partitions, free@[j], other, blocks)
            },
        },
{
    let table = old(disk)@.partitions;
    let all = rooms(header, table);
    let bounds = boundaries(header, table);
    lemma_force(old(disk)@, header);
    lemma_terms(table);
    lemma_blocks(old(disk)@.config.lb_size, blocks, size);
    lemma_boundaries(header, table);
    lemma_next_aligned(free@[j].0, alignment, other);
    lemma_first_with_room(all, blocks, alignment, 0);
    assert(all[j] == room(header, table, j));
    assert(free@[j] == section(header.first_usable, bounds, j));
    assert(bounds[2 * j] <= bounds[bounds.len() - 2]);
    assert(vacant(table, free@[j].0 + free@[j].1) == unoccupied(
        table,
        free@[j].0 + free@[j].1,
    ));
    if holds(table, free@[j], other, blocks) {
        assert(has_room(all[j], blocks, alignment));
    }
    if let Ok(id) = r {
        let guid = choose|guid: Guid|
            #![trigger guid.is_random()]
            guid.is_random() && partition_added(
                old(disk)@,
                final(disk)@,
                id,
                name@,
                size,
                part_type,
                flags,
                alignment,
                guid,
            );
        lemma_one_more(
            old(disk)@,
            final(disk)@,
            id,
            name@,
            size,
            blocks,
            part_type,
            flags,
            alignment,
            guid,
        );
        lemma_chosen(header, table, blocks, alignment);
        let i = first_with_room(all, blocks, alignment, 0)->0;
        let first = final(disk)@.partitions[id].first_lba as int;
        if let Some(a) = alignment {
            lemma_gap_aligns(free@[i].0, a);
        }
        assert(next_aligned(free@[i].0 as int, alignment, first));
        assert(vacant(table, free@[i].0 + free@[i].1) == unoccupied(
            table,
            free@[i].0 + free@[i].1,
        ));
    }
}

/// A size of zero is refused on any disk, and so is every size on a disk without a
/// header. Nothing changes then.
pub proof fn law_add_refuses<D>(
    disk: &mut GptDisk<D>,
    name: &str,
    size: u64,
    part_type: Type,
    flags: u64,
    alignment: Option<u64>,
    r: Result<u32, GptError>,
)
    requires
        call_ensures(
            GptDisk::<D>::add_partition,
            (disk, name, size, part_type, flags, alignment),
            r,
        ),
        size == 0 || old(disk)@.primary_header is None && old(disk)@.backup_header is None,
    ensures
        call_requires(
            GptDisk::<D>::add_partition,
            (disk, name, size, part_type, flags, alignment),
        ),
        final(disk)@ == old(disk)@,
        r matches Err(e) && if size == 0 {
            e == GptError::Overflow("size must be greater than zero bytes")
        } else {
            e == GptError::NotEnoughSpace
        },
{
    if size > 0 {
        assert(old(disk)@.rooms().len() == 0);
    }
}

/// A partition can be asked for on any orderly disk, as long as the largest
/// partition number is not taken, the alignment is not zero, and the blocks and the
/// alignment add up to a number of 64 bits.
pub proof fn law_partition_can_be_asked_for<D>(
    disk: &mut GptDisk<D>,
    name: &str,
    size: u64,
    part_type: Type,
    flags: u64,
    alignment: Option<u64>,
    part_guid: Guid,
    header: Header,
    blocks: int,
    in_range: bool,
)
    requires
        in_force(old(disk)@, header),
        orderly(header, old(disk)@.partitions),
        header.last_usable < u64::MAX,
        size > 0,
        just_holds(old(disk)@.config.lb_size, blocks, size),
        alignment != Some(0u64),
        alignment matches Some(a) ==> a + blocks <= u64::MAX,
        !live(old(disk)@.partitions, u32::MAX),
        call_ensures(GptDisk::<D>::is_placement_in_range, (&*old(disk), size, alignment), in_range),
    ensures
        call_requires(
            GptDisk::<D>::add_partition,
            (disk, name, size, part_type, flags, alignment),
        ),
        call_requires(
            GptDisk::<D>::add_partition_with_guid,
            (disk, name, size, part_type, flags, alignment, part_guid),
        ),
        call_requires(GptDisk::<D>::is_placement_in_range, (&*old(disk), size, alignment)),
        in_range,
{
    let table = old(disk)@.partitions;
    lemma_terms(table);
    assert(orderly(header, table) == laid_out(header, table));
    assert(below_the_largest(header, table)) by {
        assert forall|id: u32| #[trigger] live(table, id) implies table[id].first_lba < u64::MAX
            && table[id].last_lba < u64::MAX by {}
    }
    lemma_force(old(disk)@, header);
    lemma_blocks(old(disk)@.config.lb_size, blocks, size);
    lemma_next_bound(table);
    lemma_search(header, table, blocks, alignment, 0);
}

proof fn lemma_search(
    header: Header,
    table: Map<u32, Partition>,
    blocks: int,
    alignment: Option<u64>,
    from: int,
)
    requires
        laid_out(header, table),
        sections_in_range(header, table),
        header.last_usable < u64::MAX,
        0 < blocks <= u64::MAX,
        alignment != Some(0u64),
        alignment matches Some(a) ==> a + blocks <= u64::MAX,
        0 <= from,
    ensures
        search_in_range(rooms(header, table), blocks, alignment, from),
    decreases rooms(header, table).len() - from,
{
    let all = rooms(header, table);
    let bounds = boundaries(header, table);
    if from < all.len() {
        lemma_boundaries(header, table);
        crate::layout_laws::lemma_boundaries_usable(header, table);
        assert(all[from] == room(header, table, from));
        assert(header.first_usable <= bounds[2 * from] <= header.last_usable);
        assert(header.first_usable <= bounds[2 * from + 1] <= header.last_usable);
        if let Some(a) = alignment {
            lemma_gap_aligns(all[from].0, a);
        }
        lemma_search(header, table, blocks, alignment, from + 1);
    }
}

/// With a header in force, no partition can be asked for with an alignment of zero.
pub proof fn law_alignment_is_positive<D>(
    disk: GptDisk<D>,
    size: u64,
    header: Header,
    in_range: bool,
)
    requires
        in_force(disk@, header),
        size > 0,
        call_ensures(GptDisk::<D>::is_placement_in_range, (&disk, size, Some(0u64)), in_range),
    ensures
        !in_range,
{
}

} // verus!

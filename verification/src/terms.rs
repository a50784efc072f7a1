//! Plain words for what a disk holds, in which the laws of its operations are
//! stated.

use vstd::prelude::*;

use crate::disk::LogicalBlockSize;
use crate::gpt_disk::DiskView;
use crate::header::Header;
use crate::layout::unoccupied;
use crate::layout_laws::laid_out;
use crate::partition::{in_use, lemma_used_ids, lists_used, Partition, used_ids};

verus! {

/// Whether the table has an entry with the number `id`, of a type other than the
/// all-zero one.
pub open spec fn live(table: Map<u32, Partition>, id: u32) -> bool {
    table.contains_key(id) && table[id].part_type_guid.guid.value != 0
}

/// Whether `ids` lists the numbers of the live entries, each once and from the
/// lowest to the highest.
pub open spec fn lists_live(table: Map<u32, Partition>, ids: Seq<u32>) -> bool {
    &&& forall|i: int, j: int| 0 <= i < j < ids.len() ==> ids[i] < ids[j]
    &&& forall|i: int| 0 <= i < ids.len() ==> live(table, #[trigger] ids[i])
    &&& forall|id: u32| #[trigger]
        live(table, id) ==> exists|i: int| 0 <= i < ids.len() && ids[i] == id
}

/// The number of bytes in a block.
pub open spec fn block_bytes(lb_size: LogicalBlockSize) -> int {
    match lb_size {
        LogicalBlockSize::Lb512 => 512,
        LogicalBlockSize::Lb4096 => 4096,
    }
}

/// Whether no live entry lies on the block `lba`.
pub open spec fn vacant(table: Map<u32, Partition>, lba: int) -> bool {
    forall|id: u32| #[trigger]
        live(table, id) ==> lba < table[id].first_lba || table[id].last_lba < lba
}

/// Whether the block `lba` is one that the header lets partitions use and no live
/// entry lies on it.
pub open spec fn available(header: Header, table: Map<u32, Partition>, lba: int) -> bool {
    header.first_usable <= lba <= header.last_usable && vacant(table, lba)
}

/// Whether the live entries lie within the usable blocks, and no two on a common
/// one.
pub open spec fn orderly(header: Header, table: Map<u32, Partition>) -> bool {
    &&& header.first_usable <= header.last_usable
    &&& forall|id: u32| #[trigger]
        live(table, id) ==> header.first_usable <= table[id].first_lba
            <= table[id].last_lba <= header.last_usable
    &&& forall|a: u32, b: u32| #[trigger]
        live(table, a) && #[trigger] live(table, b) && a != b ==> table[a].last_lba
            < table[b].first_lba || table[b].last_lba < table[a].first_lba
}

/// Whether `header` tells the usable blocks of the disk: it is the primary one,
/// or the backup one where there is no primary one.
pub open spec fn in_force<D>(disk: DiskView<D>, header: Header) -> bool {
    ||| disk.primary_header == Some(header)
    ||| disk.primary_header is None && disk.backup_header == Some(header)
}

/// The plain words mean what the operations go by.
pub proof fn lemma_terms(table: Map<u32, Partition>)
    ensures
        forall|id: u32| #![trigger live(table, id)] #![trigger in_use(table, id)]
            live(table, id) == in_use(table, id),
        forall|lba: int| #![trigger vacant(table, lba)] #![trigger unoccupied(table, lba)]
            vacant(table, lba) == unoccupied(table, lba),
        forall|header: Header| #![trigger orderly(header, table)]
            orderly(header, table) == laid_out(header, table),
        lists_live(table, used_ids(table)),
        forall|ids: Seq<u32>| #[trigger] lists_live(table, ids) ==> ids == used_ids(table),
{
    lemma_used_ids(table);
    assert forall|id: u32| #![trigger live(table, id)] #![trigger in_use(table, id)]
        live(table, id) == in_use(table, id) by {}
    assert forall|lba: int| #![trigger vacant(table, lba)] #![trigger unoccupied(table, lba)]
        vacant(table, lba) == unoccupied(table, lba) by {
        if vacant(table, lba) {
            assert forall|id: u32| #[trigger] in_use(table, id) implies !crate::layout::occupies(
                table[id],
                lba,
            ) by {
                assert(live(table, id));
            }
        }
        if unoccupied(table, lba) {
            assert forall|id: u32| #[trigger] live(table, id) implies lba < table[id].first_lba
                || table[id].last_lba < lba by {
                assert(in_use(table, id));
                assert(!crate::layout::occupies(table[id], lba));
            }
        }
    }
    assert forall|header: Header| #![trigger orderly(header, table)]
        orderly(header, table) == laid_out(header, table) by {
        lemma_orderly(header, table);
    }
    let used = used_ids(table);
    assert forall|i: int| 0 <= i < used.len() implies live(table, #[trigger] used[i]) by {
        assert(used.contains(used[i]));
    }
    assert forall|id: u32| #[trigger] live(table, id) implies exists|i: int|
        0 <= i < used.len() && used[i] == id by {
        assert(used.contains(id));
    }
    assert forall|ids: Seq<u32>| #[trigger] lists_live(table, ids) implies ids == used_ids(
        table,
    ) by {
        assert(lists_used(table, ids)) by {
            assert forall|id: u32| ids.contains(id) <==> in_use(table, id) by {
                if ids.contains(id) {
                    let i = choose|i: int| 0 <= i < ids.len() && ids[i] == id;
                    assert(live(table, ids[i]));
                }
                if in_use(table, id) {
                    assert(live(table, id));
                }
            }
        }
    }
}

proof fn lemma_orderly(header: Header, table: Map<u32, Partition>)
    ensures
        orderly(header, table) == laid_out(header, table),
{
    assert(forall|id: u32| live(table, id) == in_use(table, id));
    if orderly(header, table) {
        assert forall|id: u32| #[trigger] in_use(table, id) implies header.first_usable
            <= table[id].first_lba <= table[id].last_lba <= header.last_usable by {
            assert(live(table, id));
        }
        assert forall|a: u32, b: u32|
            #[trigger] in_use(table, a) && #[trigger] in_use(table, b) && a
                != b implies crate::layout_laws::apart(table[a], table[b]) by {
            assert(live(table, a) && live(table, b));
        }
    }
    if laid_out(header, table) {
        assert forall|id: u32| #[trigger] live(table, id) implies header.first_usable
            <= table[id].first_lba <= table[id].last_lba <= header.last_usable by {
            assert(in_use(table, id));
        }
        assert forall|a: u32, b: u32|
            #[trigger] live(table, a) && #[trigger] live(table, b) && a != b implies (
        table[a].last_lba < table[b].first_lba || table[b].last_lba < table[a].first_lba) by {
            assert(in_use(table, a) && in_use(table, b));
            assert(crate::layout_laws::apart(table[a], table[b]));
        }
    }
}

} // verus!

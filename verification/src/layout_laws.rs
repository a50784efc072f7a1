//! Why the free stretches are free: laws of [`crate::layout`].

use vstd::prelude::*;

use crate::header::Header;
use crate::layout::{
    alignment_gap, boundaries, endpoints, first_with_room, has_room, keeps_low, lemma_boundaries,
    lemma_endpoints_len, lemma_ordered, nondecreasing, occupies, placement, room, rooms,
    search_in_range, section, sections, sections_in_range, unoccupied,
};
use crate::partition::{in_use, lemma_used_ids, Partition, used_ids};

verus! {

/// Whether the block `lba` may be used and no partition in use occupies it.
pub open spec fn free_block(header: Header, table: Map<u32, Partition>, lba: int) -> bool {
    header.first_usable <= lba <= header.last_usable && unoccupied(table, lba)
}

/// Whether two partitions have no block in common.
pub open spec fn apart(a: Partition, b: Partition) -> bool {
    a.last_lba < b.first_lba || b.last_lba < a.first_lba
}

/// Whether the partitions in use lie within the usable blocks and no two of them
/// share a block.
pub open spec fn laid_out(header: Header, table: Map<u32, Partition>) -> bool {
    &&& header.first_usable <= header.last_usable
    &&& forall|id: u32| #[trigger]
        in_use(table, id) ==> header.first_usable <= table[id].first_lba
            <= table[id].last_lba <= header.last_usable
    &&& forall|a: u32, b: u32| #[trigger]
        in_use(table, a) && #[trigger] in_use(table, b) && a != b ==> apart(table[a], table[b])
}

/// How many of the numbers are at most `x`.
spec fn count_upto(s: Seq<u64>, x: int) -> nat
    decreases s.len(),
{
    if s.len() == 0 {
        0
    } else {
        count_upto(s.drop_last(), x) + if s.last() <= x {
            1nat
        } else {
            0nat
        }
    }
}

proof fn lemma_count_concat(a: Seq<u64>, b: Seq<u64>, x: int)
    ensures
        count_upto(a + b, x) == count_upto(a, x) + count_upto(b, x),
    decreases b.len(),
{
    if b.len() == 0 {
        assert(a + b =~= a);
    } else {
        assert((a + b).drop_last() =~= a + b.drop_last());
        lemma_count_concat(a, b.drop_last(), x);
    }
}

proof fn lemma_count_single(v: u64, x: int)
    ensures
        count_upto(seq![v], x) == if v <= x {
            1nat
        } else {
            0nat
        },
{
    assert(seq![v].drop_last() =~= Seq::<u64>::empty());
    assert(count_upto(seq![v].drop_last(), x) == 0);
}

proof fn lemma_count_remove(s: Seq<u64>, k: int, x: int)
    requires
        0 <= k < s.len(),
    ensures
        count_upto(s, x) == count_upto(s.remove(k), x) + if s[k] <= x {
            1nat
        } else {
            0nat
        },
{
    let front = s.take(k);
    let back = s.skip(k + 1);
    assert(s =~= (front + seq![s[k]]) + back);
    assert(s.remove(k) =~= front + back);
    lemma_count_concat(front + seq![s[k]], back, x);
    lemma_count_concat(front, seq![s[k]], x);
    lemma_count_concat(front, back, x);
    lemma_count_single(s[k], x);
}

proof fn lemma_count_same_multiset(a: Seq<u64>, b: Seq<u64>, x: int)
    requires
        a.to_multiset() == b.to_multiset(),
    ensures
        count_upto(a, x) == count_upto(b, x),
    decreases a.len(),
{
    broadcast use vstd::seq_lib::group_to_multiset_ensures;

    assert(a.len() == a.to_multiset().len());
    assert(b.len() == b.to_multiset().len());
    if a.len() > 0 {
        let v = a.last();
        assert(a.contains(v));
        assert(b.to_multiset().contains(v));
        assert(b.contains(v));
        let k = choose|k: int| 0 <= k < b.len() && b[k] == v;
        assert(a =~= a.drop_last().push(v));
        assert(a.drop_last() =~= a.remove(a.len() - 1));
        assert(a.remove(a.len() - 1).to_multiset() =~= a.to_multiset().remove(v));
        assert(b.remove(k).to_multiset() =~= b.to_multiset().remove(v));
        lemma_count_same_multiset(a.drop_last(), b.remove(k), x);
        lemma_count_remove(b, k, x);
    } else {
        assert(b.len() == 0);
    }
}

proof fn lemma_count_split(s: Seq<u64>, m: int, x: int)
    requires
        0 <= m <= s.len(),
        forall|i: int| 0 <= i < m ==> s[i] <= x,
        forall|i: int| m <= i < s.len() ==> s[i] > x,
    ensures
        count_upto(s, x) == m,
    decreases s.len(),
{
    if s.len() > 0 {
        if m == s.len() {
            lemma_count_split(s.drop_last(), m - 1, x);
        } else {
            lemma_count_split(s.drop_last(), m, x);
        }
    }
}

/// Whether `lba` lies in the partition, and the last block of it lies behind.
spec fn straddles(partition: Partition, lba: int) -> bool {
    partition.first_lba <= lba < partition.last_lba
}

/// How many of the named partitions straddle `lba`.
spec fn straddlers(table: Map<u32, Partition>, ids: Seq<u32>, lba: int) -> nat
    decreases ids.len(),
{
    if ids.len() == 0 {
        0
    } else {
        straddlers(table, ids.drop_last(), lba) + if straddles(table[ids.last()], lba) {
            1nat
        } else {
            0nat
        }
    }
}

/// Each partition has both ends up to a block, or neither, unless it straddles
/// the block.
proof fn lemma_endpoints_parity(table: Map<u32, Partition>, ids: Seq<u32>, lba: int)
    requires
        forall|i: int|
            0 <= i < ids.len() ==> table[#[trigger] ids[i]].first_lba <= table[ids[i]].last_lba,
    ensures
        count_upto(endpoints(table, ids), lba) % 2 == straddlers(table, ids, lba) % 2,
    decreases ids.len(),
{
    if ids.len() > 0 {
        let rest = ids.drop_last();
        let p = table[ids.last()];
        assert(ids[ids.len() - 1] == ids.last());
        assert forall|i: int| 0 <= i < rest.len() implies table[#[trigger] rest[i]].first_lba
            <= table[rest[i]].last_lba by {
            assert(rest[i] == ids[i]);
        }
        lemma_endpoints_parity(table, rest, lba);
        assert(seq![p.first_lba, p.last_lba] =~= seq![p.first_lba] + seq![p.last_lba]);
        lemma_count_concat(endpoints(table, rest), seq![p.first_lba, p.last_lba], lba);
        lemma_count_concat(seq![p.first_lba], seq![p.last_lba], lba);
        lemma_count_single(p.first_lba, lba);
        lemma_count_single(p.last_lba, lba);
    }
}

proof fn lemma_no_straddlers(table: Map<u32, Partition>, ids: Seq<u32>, lba: int)
    requires
        forall|i: int| 0 <= i < ids.len() ==> !straddles(table[#[trigger] ids[i]], lba),
    ensures
        straddlers(table, ids, lba) == 0,
    decreases ids.len(),
{
    if ids.len() > 0 {
        assert(ids[ids.len() - 1] == ids.last());
        assert forall|i: int| 0 <= i < ids.drop_last().len() implies !straddles(
            table[#[trigger] ids.drop_last()[i]],
            lba,
        ) by {
            assert(ids.drop_last()[i] == ids[i]);
        }
        lemma_no_straddlers(table, ids.drop_last(), lba);
    }
}

proof fn lemma_one_straddler(table: Map<u32, Partition>, ids: Seq<u32>, k: int, lba: int)
    requires
        0 <= k < ids.len(),
        straddles(table[ids[k]], lba),
        forall|i: int|
            0 <= i < ids.len() && i != k ==> !straddles(table[#[trigger] ids[i]], lba),
    ensures
        straddlers(table, ids, lba) == 1,
    decreases ids.len(),
{
    let rest = ids.drop_last();
    assert(ids[ids.len() - 1] == ids.last());
    if k == ids.len() - 1 {
        assert forall|i: int| 0 <= i < rest.len() implies !straddles(
            table[#[trigger] rest[i]],
            lba,
        ) by {
            assert(rest[i] == ids[i]);
        }
        lemma_no_straddlers(table, rest, lba);
    } else {
        assert(rest[k] == ids[k]);
        assert forall|i: int| 0 <= i < rest.len() && i != k implies !straddles(
            table[#[trigger] rest[i]],
            lba,
        ) by {
            assert(rest[i] == ids[i]);
        }
        lemma_one_straddler(table, rest, k, lba);
    }
}

/// The numbers among which the boundaries are.
spec fn listed(header: Header, table: Map<u32, Partition>) -> Seq<u64> {
    seq![header.first_usable] + endpoints(table, used_ids(table)) + seq![header.last_usable]
}

proof fn lemma_count_boundaries(header: Header, table: Map<u32, Partition>, x: int)
    ensures
        count_upto(boundaries(header, table), x) == count_upto(seq![header.first_usable], x)
            + count_upto(endpoints(table, used_ids(table)), x) + count_upto(
            seq![header.last_usable],
            x,
        ),
{
    let ends = endpoints(table, used_ids(table));
    lemma_ordered(listed(header, table));
    lemma_count_same_multiset(listed(header, table), boundaries(header, table), x);
    lemma_count_concat(seq![header.first_usable] + ends, seq![header.last_usable], x);
    lemma_count_concat(seq![header.first_usable], ends, x);
}

proof fn lemma_endpoints_in(table: Map<u32, Partition>, ids: Seq<u32>, k: int)
    requires
        0 <= k < endpoints(table, ids).len(),
    ensures
        0 <= k / 2 < ids.len(),
        endpoints(table, ids)[k] == if k % 2 == 0 {
            table[ids[k / 2]].first_lba
        } else {
            table[ids[k / 2]].last_lba
        },
        endpoints(table, ids).len() == 2 * ids.len(),
    decreases ids.len(),
{
    let rest = ids.drop_last();
    if ids.len() > 0 {
        if k < endpoints(table, rest).len() {
            lemma_endpoints_in(table, rest, k);
        } else if endpoints(table, rest).len() > 0 {
            lemma_endpoints_in(table, rest, 0);
        } else {
            lemma_endpoints_empty(table, rest);
        }
    }
}

proof fn lemma_endpoints_empty(table: Map<u32, Partition>, ids: Seq<u32>)
    requires
        endpoints(table, ids).len() == 0,
    ensures
        ids.len() == 0,
{
}

/// In a table that is laid out, every boundary is a usable block.
pub proof fn lemma_boundaries_usable(header: Header, table: Map<u32, Partition>)
    requires
        laid_out(header, table),
    ensures
        forall|k: int|
            0 <= k < boundaries(header, table).len() ==> header.first_usable
                <= #[trigger] boundaries(header, table)[k] <= header.last_usable,
{
    broadcast use vstd::seq_lib::group_to_multiset_ensures;

    let bounds = boundaries(header, table);
    let all = listed(header, table);
    let ids = used_ids(table);
    lemma_ordered(all);
    lemma_used_ids(table);
    assert forall|k: int| 0 <= k < bounds.len() implies header.first_usable
        <= #[trigger] bounds[k] <= header.last_usable by {
        assert(bounds.contains(bounds[k]));
        assert(all.to_multiset().contains(bounds[k]));
        assert(all.contains(bounds[k]));
        let j = choose|j: int| 0 <= j < all.len() && all[j] == bounds[k];
        if 0 < j < all.len() - 1 {
            let e = j - 1;
            assert(all[j] == endpoints(table, ids)[e]);
            lemma_endpoints_in(table, ids, e);
            assert(ids.contains(ids[e / 2]));
            assert(in_use(table, ids[e / 2]));
        }
    }
}

/// No partition straddles a block between the two boundaries of a stretch.
proof fn lemma_between_boundaries(header: Header, table: Map<u32, Partition>, i: int, lba: int)
    requires
        laid_out(header, table),
        0 <= i < sections(header, table).len(),
        boundaries(header, table)[2 * i] <= lba < boundaries(header, table)[2 * i + 1],
    ensures
        header.first_usable <= lba < header.last_usable,
        forall|id: u32| #[trigger] in_use(table, id) ==> !straddles(table[id], lba),
{
    let bounds = boundaries(header, table);
    let ids = used_ids(table);
    lemma_boundaries(header, table);
    lemma_boundaries_usable(header, table);
    lemma_used_ids(table);
    assert(header.first_usable <= bounds[2 * i]);
    assert(bounds[2 * i + 1] <= header.last_usable);
    lemma_count_split(bounds, 2 * i + 1, lba);
    lemma_count_boundaries(header, table, lba);
    lemma_count_single(header.first_usable, lba);
    lemma_count_single(header.last_usable, lba);
    assert forall|k: int| 0 <= k < ids.len() implies table[#[trigger] ids[k]].first_lba
        <= table[ids[k]].last_lba by {
        assert(ids.contains(ids[k]));
    }
    lemma_endpoints_parity(table, ids, lba);
    assert forall|id: u32| #[trigger] in_use(table, id) implies !straddles(table[id], lba) by {
        if straddles(table[id], lba) {
            assert(ids.contains(id));
            let k = choose|k: int| 0 <= k < ids.len() && ids[k] == id;
            assert forall|j: int| 0 <= j < ids.len() && j != k implies !straddles(
                table[#[trigger] ids[j]],
                lba,
            ) by {
                assert(ids.contains(ids[j]));
                assert(in_use(table, ids[j]));
                assert(ids[j] != ids[k]);
                assert(apart(table[ids[j]], table[id]));
            }
            lemma_one_straddler(table, ids, k, lba);
            assert(false);
        }
    }
}

/// A stretch that keeps its lower boundary and is not empty is the first one, and
/// no partition in use ends at that boundary.
proof fn lemma_kept_is_free(header: Header, table: Map<u32, Partition>, i: int, id: u32)
    requires
        laid_out(header, table),
        0 <= i < sections(header, table).len(),
        keeps_low(header.first_usable, boundaries(header, table), i),
        boundaries(header, table)[2 * i] < boundaries(header, table)[2 * i + 1],
        in_use(table, id),
    ensures
        table[id].last_lba != header.first_usable,
{
    let bounds = boundaries(header, table);
    let ids = used_ids(table);
    let first = header.first_usable as int;
    lemma_boundaries(header, table);
    lemma_boundaries_usable(header, table);
    lemma_used_ids(table);
    if i > 0 {
        assert(bounds[2 * i - 1] >= header.first_usable);
    }
    if table[id].last_lba == first {
        assert(ids.contains(id));
        let k = choose|k: int| 0 <= k < ids.len() && ids[k] == id;
        let ends = endpoints(table, ids);
        lemma_endpoints_at(table, ids, k);
        lemma_count_remove(ends, 2 * k + 1, first);
        lemma_count_boundaries(header, table, first);
        lemma_count_single(header.first_usable, first);
        lemma_count_split(bounds, 1, first);
        assert(false);
    }
}

/// Every block of a free stretch is usable and no partition in use occupies it,
/// as long as the partitions are laid out.
pub proof fn law_free_sections_are_free(
    header: Header,
    table: Map<u32, Partition>,
    i: int,
    lba: int,
)
    requires
        laid_out(header, table),
        sections_in_range(header, table),
        0 <= i < sections(header, table).len(),
        sections(header, table)[i].0 <= lba < sections(header, table)[i].0 + sections(
            header,
            table,
        )[i].1,
    ensures
        header.first_usable <= lba < header.last_usable,
        unoccupied(table, lba),
{
    let bounds = boundaries(header, table);
    let low = bounds[2 * i];
    lemma_boundaries(header, table);
    lemma_used_ids(table);
    assert(low <= bounds[bounds.len() - 2]);
    assert(sections(header, table)[i] == section(header.first_usable, bounds, i));
    lemma_between_boundaries(header, table, i, lba);
    assert forall|id: u32| #[trigger] in_use(table, id) implies !occupies(table[id], lba) by {
        if occupies(table[id], lba) {
            assert(!straddles(table[id], lba));
            assert(table[id].last_lba == lba);
            lemma_last_is_boundary(header, table, id, i, lba);
            lemma_kept_is_free(header, table, i, id);
        }
    }
}

/// The last block of a partition is a boundary, so it lies strictly between two
/// neighbouring ones nowhere.
proof fn lemma_last_is_boundary(
    header: Header,
    table: Map<u32, Partition>,
    id: u32,
    i: int,
    lba: int,
)
    requires
        in_use(table, id),
        table[id].last_lba == lba,
        0 <= i < sections(header, table).len(),
        boundaries(header, table)[2 * i] <= lba < boundaries(header, table)[2 * i + 1],
    ensures
        lba == boundaries(header, table)[2 * i],
{
    broadcast use vstd::seq_lib::group_to_multiset_ensures;

    let bounds = boundaries(header, table);
    let all = listed(header, table);
    let ids = used_ids(table);
    lemma_boundaries(header, table);
    lemma_ordered(all);
    lemma_used_ids(table);
    assert(ids.contains(id));
    let k = choose|k: int| 0 <= k < ids.len() && ids[k] == id;
    lemma_endpoints_at(table, ids, k);
    assert(all[2 * k + 2] == table[id].last_lba);
    assert(all.contains(table[id].last_lba));
    assert(bounds.to_multiset().contains(table[id].last_lba));
    assert(bounds.contains(table[id].last_lba));
    let j = choose|j: int| 0 <= j < bounds.len() && bounds[j] == lba;
    assert(j <= 2 * i || j >= 2 * i + 1);
}

proof fn lemma_endpoints_at(table: Map<u32, Partition>, ids: Seq<u32>, k: int)
    requires
        0 <= k < ids.len(),
    ensures
        endpoints(table, ids).len() == 2 * ids.len(),
        endpoints(table, ids)[2 * k] == table[ids[k]].first_lba,
        endpoints(table, ids)[2 * k + 1] == table[ids[k]].last_lba,
{
    lemma_endpoints_len(table, ids);
    lemma_endpoints_in(table, ids, 2 * k);
    lemma_endpoints_in(table, ids, 2 * k + 1);
}

/// What is found is the first with room.
pub proof fn lemma_first_with_room(
    free: Seq<(u64, u64)>,
    blocks: int,
    alignment: Option<u64>,
    from: int,
)
    requires
        0 <= from,
    ensures
        match first_with_room(free, blocks, alignment, from) {
            Some(i) => {
                &&& from <= i < free.len()
                &&& has_room(free[i], blocks, alignment)
                &&& forall|j: int|
                    from <= j < i ==> !has_room(#[trigger] free[j], blocks, alignment)
            },
            None => forall|j: int|
                from <= j < free.len() ==> !has_room(#[trigger] free[j], blocks, alignment),
        },
    decreases free.len() - from,
{
    if from < free.len() && !has_room(free[from], blocks, alignment) {
        lemma_first_with_room(free, blocks, alignment, from + 1);
    }
}

/// A place that is found for a partition consists of usable blocks that no
/// partition in use occupies, as long as the partitions are laid out.
pub proof fn law_place_is_free(
    header: Header,
    table: Map<u32, Partition>,
    blocks: int,
    alignment: Option<u64>,
)
    requires
        laid_out(header, table),
        sections_in_range(header, table),
        blocks > 0,
        alignment != Some(0u64),
        placement(rooms(header, table), blocks, alignment) is Some,
    ensures
        ({
            let first = placement(rooms(header, table), blocks, alignment)->0;
            forall|lba: int|
                first <= lba < first + blocks ==> #[trigger] free_block(header, table, lba)
        }),
{
    let free = rooms(header, table);
    let bounds = boundaries(header, table);
    let first = placement(free, blocks, alignment)->0;
    lemma_first_with_room(free, blocks, alignment, 0);
    lemma_boundaries(header, table);
    lemma_boundaries_usable(header, table);
    let i = first_with_room(free, blocks, alignment, 0)->0;
    let stretch = sections(header, table)[i];
    assert(bounds[2 * i] <= bounds[bounds.len() - 2]);
    assert(stretch == section(header.first_usable, bounds, i));
    assert(free[i] == room(header, table, i));
    assert(0 <= alignment_gap(free[i].0, alignment));
    assert forall|lba: int| first <= lba < first + blocks implies #[trigger] free_block(
        header,
        table,
        lba,
    ) by {
        if lba < stretch.0 + stretch.1 {
            law_free_sections_are_free(header, table, i, lba);
        } else {
            assert(lba == bounds[2 * i + 1]);
        }
    }
}

/// In a list that never falls, the numbers up to `x` come first.
proof fn lemma_count_is_place(s: Seq<u64>, x: int)
    requires
        nondecreasing(s),
    ensures
        count_upto(s, x) <= s.len(),
        forall|i: int| 0 <= i < count_upto(s, x) ==> #[trigger] s[i] <= x,
        forall|i: int| count_upto(s, x) <= i < s.len() ==> #[trigger] s[i] > x,
    decreases s.len(),
{
    if s.len() > 0 {
        let rest = s.drop_last();
        lemma_count_is_place(rest, x);
        if s.last() <= x {
            assert forall|i: int| 0 <= i < s.len() implies #[trigger] s[i] <= x by {
                assert(s[i] <= s[s.len() - 1]);
            }
            lemma_count_split(rest, rest.len() as int, x);
        } else {
            assert forall|i: int| 0 <= i < count_upto(s, x) implies #[trigger] s[i] <= x by {
                assert(rest[i] <= x);
            }
            assert forall|i: int| count_upto(s, x) <= i < s.len() implies #[trigger] s[i] > x by {
                if i < rest.len() {
                    assert(rest[i] > x);
                }
            }
        }
    }
}

/// A boundary other than the first and the last usable block is an end of a
/// partition in use, which occupies it.
proof fn lemma_boundary_is_occupied(header: Header, table: Map<u32, Partition>, k: int)
    requires
        laid_out(header, table),
        0 <= k < boundaries(header, table).len(),
        boundaries(header, table)[k] != header.first_usable,
        boundaries(header, table)[k] != header.last_usable,
    ensures
        !unoccupied(table, boundaries(header, table)[k] as int),
{
    broadcast use vstd::seq_lib::group_to_multiset_ensures;

    let bounds = boundaries(header, table);
    let all = listed(header, table);
    let ids = used_ids(table);
    lemma_ordered(all);
    lemma_used_ids(table);
    assert(bounds.contains(bounds[k]));
    assert(all.to_multiset().contains(bounds[k]));
    assert(all.contains(bounds[k]));
    let j = choose|j: int| 0 <= j < all.len() && all[j] == bounds[k];
    let e = j - 1;
    assert(all[j] == endpoints(table, ids)[e]);
    lemma_endpoints_in(table, ids, e);
    assert(ids.contains(ids[e / 2]));
    assert(in_use(table, ids[e / 2]));
    assert(occupies(table[ids[e / 2]], bounds[k] as int));
}

/// Up to an unoccupied block that is the first usable one, no partition has an end.
proof fn lemma_count_ends(header: Header, table: Map<u32, Partition>, lba: int)
    requires
        laid_out(header, table),
        unoccupied(table, lba),
        lba == header.first_usable,
        lba < header.last_usable,
    ensures
        count_upto(boundaries(header, table), lba) == 1,
{
    let ids = used_ids(table);
    let ends = endpoints(table, ids);
    lemma_used_ids(table);
    lemma_count_boundaries(header, table, lba);
    lemma_count_single(header.first_usable, lba);
    lemma_count_single(header.last_usable, lba);
    assert forall|k: int| 0 <= k < ends.len() implies #[trigger] ends[k] > lba by {
        lemma_endpoints_in(table, ids, k);
        assert(ids.contains(ids[k / 2]));
        assert(in_use(table, ids[k / 2]));
        assert(!occupies(table[ids[k / 2]], lba));
    }
    lemma_count_split(ends, 0, lba);
}

/// Every usable block that no partition in use occupies lies in a free stretch,
/// as long as the partitions are laid out. The last usable block is left out: it
/// bounds the last stretch.
pub proof fn law_free_blocks_are_found(header: Header, table: Map<u32, Partition>, lba: int)
    requires
        laid_out(header, table),
        free_block(header, table, lba),
        lba != header.last_usable,
    ensures
        exists|i: int|
            0 <= i < sections(header, table).len() && (#[trigger] sections(header, table)[i]).0
                <= lba < sections(header, table)[i].0 + sections(header, table)[i].1,
{
    let bounds = boundaries(header, table);
    let ids = used_ids(table);
    let m = count_upto(bounds, lba) as int;
    lemma_boundaries(header, table);
    lemma_boundaries_usable(header, table);
    lemma_used_ids(table);
    lemma_count_boundaries(header, table, lba);
    lemma_count_single(header.first_usable, lba);
    lemma_count_single(header.last_usable, lba);
    assert forall|k: int| 0 <= k < ids.len() implies {
        &&& table[#[trigger] ids[k]].first_lba <= table[ids[k]].last_lba
        &&& !straddles(table[ids[k]], lba)
    } by {
        assert(ids.contains(ids[k]));
        assert(in_use(table, ids[k]));
        assert(!occupies(table[ids[k]], lba));
    }
    lemma_endpoints_parity(table, ids, lba);
    lemma_no_straddlers(table, ids, lba);
    lemma_count_is_place(bounds, lba);
    assert(m % 2 == 1);
    let i = m / 2;
    assert(bounds[2 * i] <= lba);
    assert(m < bounds.len());
    assert(bounds[2 * i + 1] > lba);
    if bounds[2 * i] == lba && lba != header.first_usable {
        lemma_boundary_is_occupied(header, table, 2 * i);
    }
    assert(sections(header, table)[i] == section(header.first_usable, bounds, i));
    if i > 0 && bounds[2 * i] == header.first_usable && lba == header.first_usable {
        assert(bounds[2 * i - 1] == header.first_usable);
        assert(bounds[0] == header.first_usable);
        assert(count_upto(bounds, lba) >= 3);
        lemma_count_ends(header, table, lba);
    }
}

/// The free stretches are listed from the lowest to the highest.
pub proof fn law_sections_rise(header: Header, table: Map<u32, Partition>, i: int, j: int)
    requires
        sections_in_range(header, table),
        0 <= i < j < sections(header, table).len(),
    ensures
        sections(header, table)[i].0 <= sections(header, table)[j].0,
{
    let bounds = boundaries(header, table);
    lemma_boundaries(header, table);
    assert(bounds[2 * i] <= bounds[2 * j - 1] <= bounds[2 * j]);
    assert(bounds[2 * j] <= bounds[bounds.len() - 2]);
}

/// Where no partition in use occupies the last usable block, it bounds the last
/// stretch alone: all other boundaries lie before it.
proof fn lemma_last_bound(header: Header, table: Map<u32, Partition>)
    requires
        laid_out(header, table),
        unoccupied(table, header.last_usable as int),
        header.first_usable < header.last_usable,
    ensures
        boundaries(header, table)[boundaries(header, table).len() - 2] < header.last_usable,
        boundaries(header, table).last() == header.last_usable,
{
    let bounds = boundaries(header, table);
    let ids = used_ids(table);
    let ends = endpoints(table, ids);
    let below = header.last_usable - 1;
    lemma_boundaries(header, table);
    lemma_boundaries_usable(header, table);
    lemma_endpoints_len(table, ids);
    lemma_used_ids(table);
    lemma_count_boundaries(header, table, below);
    lemma_count_single(header.first_usable, below);
    lemma_count_single(header.last_usable, below);
    assert forall|k: int| 0 <= k < ends.len() implies #[trigger] ends[k] <= below by {
        lemma_endpoints_in(table, ids, k);
        assert(ids.contains(ids[k / 2]));
        assert(in_use(table, ids[k / 2]));
        assert(!occupies(table[ids[k / 2]], header.last_usable as int));
    }
    lemma_count_split(ends, ends.len() as int, below);
    lemma_count_is_place(bounds, below);
    assert(bounds[bounds.len() - 1] > below);
}

/// No aligned block lies between a block and the next aligned one.
proof fn lemma_gap_is_least(start: u64, alignment: Option<u64>, first: int)
    requires
        alignment != Some(0u64),
        alignment matches Some(a) ==> first % (a as int) == 0,
        start <= first,
    ensures
        0 <= alignment_gap(start, alignment),
        start + alignment_gap(start, alignment) <= first,
{
    if let Some(alignment) = alignment {
        let a = alignment as int;
        let s = start as int;
        let r = s % a;
        let q = s / a;
        let k = first / a;
        vstd::arithmetic::div_mod::lemma_fundamental_div_mod(s, a);
        vstd::arithmetic::div_mod::lemma_fundamental_div_mod(first, a);
        if r == 0 {
            vstd::arithmetic::div_mod::lemma_mod_self_0(a);
        } else {
            vstd::arithmetic::div_mod::lemma_small_mod((a - r) as nat, a as nat);
            assert(a * (q + 1) <= a * k) by (nonlinear_arith)
                requires
                    a > 0,
                    a * k >= a * q + r,
                    r > 0,
            ;
            assert(a * (q + 1) == a * q + a) by (nonlinear_arith);
        }
    }
}

/// Free blocks in a row lie in one stretch, which has room for them: the first
/// of them starts no lower than the stretch.
proof fn lemma_run_has_room(
    header: Header,
    table: Map<u32, Partition>,
    blocks: int,
    first: int,
) -> (j: int)
    requires
        laid_out(header, table),
        sections_in_range(header, table),
        blocks > 0,
        forall|lba: int|
            first <= lba < first + blocks ==> #[trigger] free_block(header, table, lba),
    ensures
        0 <= j < rooms(header, table).len(),
        rooms(header, table)[j].0 <= first,
        first + blocks - rooms(header, table)[j].0 <= rooms(header, table)[j].1 || rooms(
            header,
            table,
        )[j].1 == u64::MAX,
{
    let free = sections(header, table);
    let bounds = boundaries(header, table);
    let last = header.last_usable as int;
    lemma_boundaries(header, table);
    lemma_boundaries_usable(header, table);
    assert(free_block(header, table, first));
    assert(free_block(header, table, first + blocks - 1));
    if first == last {
        let j = free.len() - 1;
        assert(rooms(header, table)[j] == room(header, table, j));
        if header.first_usable < header.last_usable {
            lemma_last_bound(header, table);
        } else {
            lemma_used_ids(table);
            let ids = used_ids(table);
            if ids.len() > 0 {
                assert(ids.contains(ids[0]));
                assert(in_use(table, ids[0]));
                assert(occupies(table[ids[0]], last));
            }
            assert(bounds[0] == last && bounds[1] == last);
        }
        j
    } else {
        law_free_blocks_are_found(header, table, first);
        let j = choose|j: int|
            0 <= j < free.len() && (#[trigger] free[j]).0 <= first < free[j].0 + free[j].1;
        assert(free[j] == section(header.first_usable, bounds, j));
        assert(rooms(header, table)[j] == room(header, table, j));
        assert(bounds[2 * j] <= bounds[bounds.len() - 2]);
        let end = free[j].0 + free[j].1;
        assert(end == bounds[2 * j + 1]);
        if end < first + blocks {
            assert(free_block(header, table, end));
            if end != last {
                lemma_boundary_is_occupied(header, table, 2 * j + 1);
            }
        }
        j
    }
}

/// A partition is put at the lowest place there is: wherever enough free blocks
/// lie in a row from an aligned one on, a place is found, and none behind them. So
/// none is found only if the disk has none.
pub proof fn law_place_is_lowest(
    header: Header,
    table: Map<u32, Partition>,
    blocks: int,
    alignment: Option<u64>,
    first: int,
)
    requires
        laid_out(header, table),
        sections_in_range(header, table),
        search_in_range(rooms(header, table), blocks, alignment, 0) || header.last_usable
            < u64::MAX,
        blocks > 0,
        alignment != Some(0u64),
        alignment matches Some(a) ==> first % (a as int) == 0,
        forall|lba: int|
            first <= lba < first + blocks ==> #[trigger] free_block(header, table, lba),
    ensures
        placement(rooms(header, table), blocks, alignment) matches Some(found) && found <= first,
{
    let free = rooms(header, table);
    let bounds = boundaries(header, table);
    lemma_boundaries(header, table);
    let j = lemma_run_has_room(header, table, blocks, first);
    lemma_gap_is_least(free[j].0, alignment, first);
    lemma_first_with_room(free, blocks, alignment, 0);
    assert(free_block(header, table, first));
    assert(free_block(header, table, first + blocks - 1));
    if header.last_usable == u64::MAX {
        lemma_search_gap(free, blocks, alignment, 0, j);
    }
    if alignment_gap(free[j].0, alignment) + blocks <= u64::MAX {
        assert(has_room(free[j], blocks, alignment));
    }
    assert(first_with_room(free, blocks, alignment, 0) matches Some(i) && i <= j);
    let i = first_with_room(free, blocks, alignment, 0)->0;
    assert(free[i] == room(header, table, i));
    assert(free[j] == room(header, table, j));
    assert(0 <= alignment_gap(free[i].0, alignment));
    if i < j {
        law_sections_rise(header, table, i, j);
        assert(bounds[2 * i + 1] <= bounds[2 * j]);
        assert(bounds[2 * i] <= bounds[bounds.len() - 2]);
        assert(bounds[2 * j] <= bounds[bounds.len() - 2]);
    }
}

/// Where the search looks at a stretch, the blocks and the gap before them are a
/// number of 64 bits.
proof fn lemma_search_gap(
    free: Seq<(u64, u64)>,
    blocks: int,
    alignment: Option<u64>,
    from: int,
    j: int,
)
    requires
        0 <= from <= j < free.len(),
        search_in_range(free, blocks, alignment, from),
    ensures
        alignment_gap(free[j].0, alignment) + blocks <= u64::MAX || exists|i: int|
            from <= i < j && has_room(#[trigger] free[i], blocks, alignment),
    decreases j - from,
{
    if from < j && !has_room(free[from], blocks, alignment) {
        lemma_search_gap(free, blocks, alignment, from + 1, j);
    }
}

/// The block at which a partition is put is a multiple of the alignment.
pub proof fn law_place_is_aligned(
    free: Seq<(u64, u64)>,
    blocks: int,
    alignment: u64,
)
    requires
        alignment > 0,
        placement(free, blocks, Some(alignment)) is Some,
        search_in_range(free, blocks, Some(alignment), 0),
        blocks > 0,
    ensures
        placement(free, blocks, Some(alignment))->0 % alignment == 0,
{
    lemma_first_with_room(free, blocks, Some(alignment), 0);
    let i = first_with_room(free, blocks, Some(alignment), 0)->0;
    lemma_search_in_range(free, blocks, Some(alignment), 0, i);
    lemma_gap_aligns(free[i].0, alignment);
}

/// The block behind the gap is a multiple of the alignment, and the gap is less
/// than that.
pub proof fn lemma_gap_aligns(start: u64, alignment: u64)
    requires
        alignment > 0,
    ensures
        0 <= alignment_gap(start, Some(alignment)) < alignment,
        (start + alignment_gap(start, Some(alignment))) % (alignment as int) == 0,
{
    let start = start as int;
    let a = alignment as int;
    let r = start % a;
    let gap = (a - r) % a;
    assert((start + gap) % a == 0) by {
        vstd::arithmetic::div_mod::lemma_fundamental_div_mod(start, a);
        if r == 0 {
            vstd::arithmetic::div_mod::lemma_mod_self_0(a);
        } else {
            vstd::arithmetic::div_mod::lemma_small_mod((a - r) as nat, a as nat);
            assert(start + gap == a * (start / a) + a);
            vstd::arithmetic::div_mod::lemma_mod_multiples_vanish(start / a, a, a);
            vstd::arithmetic::div_mod::lemma_mod_self_0(a);
        }
    }
}

proof fn lemma_search_in_range(
    free: Seq<(u64, u64)>,
    blocks: int,
    alignment: Option<u64>,
    from: int,
    i: int,
)
    requires
        0 <= from <= i < free.len(),
        search_in_range(free, blocks, alignment, from),
        forall|j: int|
            from <= j < i ==> !has_room(#[trigger] free[j], blocks, alignment),
        has_room(free[i], blocks, alignment),
    ensures
        free[i].0 + alignment_gap(free[i].0, alignment) + blocks <= u64::MAX,
    decreases i - from,
{
    if from < i {
        lemma_search_in_range(free, blocks, alignment, from + 1, i);
    }
}

proof fn lemma_count_bound(s: Seq<u64>, x: int)
    ensures
        count_upto(s, x) <= s.len(),
    decreases s.len(),
{
    if s.len() > 0 {
        lemma_count_bound(s.drop_last(), x);
    }
}

/// Where the first usable block or no end of a partition in use is the largest
/// block number, every stretch starts at a block that has a number.
pub proof fn lemma_in_range(header: Header, table: Map<u32, Partition>)
    requires
        header.first_usable == u64::MAX || forall|id: u32| #[trigger]
            in_use(table, id) ==> table[id].first_lba < u64::MAX && table[id].last_lba < u64::MAX,
    ensures
        sections_in_range(header, table),
{
    let bounds = boundaries(header, table);
    let ids = used_ids(table);
    let ends = endpoints(table, ids);
    let below = u64::MAX - 1;
    lemma_boundaries(header, table);
    lemma_endpoints_len(table, ids);
    lemma_used_ids(table);
    if header.first_usable < u64::MAX {
        lemma_count_boundaries(header, table, below);
        lemma_count_single(header.first_usable, below);
        assert forall|k: int| 0 <= k < ends.len() implies #[trigger] ends[k] <= below by {
            lemma_endpoints_in(table, ids, k);
            assert(ids.contains(ids[k / 2]));
            assert(in_use(table, ids[k / 2]));
        }
        lemma_count_split(ends, ends.len() as int, below);
        lemma_count_is_place(bounds, below);
    }
}

/// The first stretch starts at the first usable block.
pub proof fn lemma_first_stretch(header: Header, table: Map<u32, Partition>)
    requires
        laid_out(header, table),
    ensures
        sections(header, table).len() > 0,
        sections(header, table)[0].0 == header.first_usable,
{
    let bounds = boundaries(header, table);
    let first = header.first_usable as int;
    lemma_boundaries(header, table);
    lemma_boundaries_usable(header, table);
    lemma_count_boundaries(header, table, first);
    lemma_count_single(header.first_usable, first);
    lemma_count_is_place(bounds, first);
    assert(bounds[0] == header.first_usable);
}

/// A stretch that is not empty is cut short neither below nor above: the block
/// behind it is the last usable one or occupied, and it starts with the first
/// usable block or behind an occupied one.
pub proof fn lemma_stretch_is_maximal(header: Header, table: Map<u32, Partition>, i: int)
    requires
        laid_out(header, table),
        sections_in_range(header, table),
        0 <= i < sections(header, table).len(),
        sections(header, table)[i].1 > 0,
    ensures
        ({
            let (start, length) = sections(header, table)[i];
            &&& start + length == header.last_usable || !unoccupied(table, start + length)
            &&& start == header.first_usable || !unoccupied(table, start - 1)
        }),
{
    let bounds = boundaries(header, table);
    let (start, length) = sections(header, table)[i];
    let low = bounds[2 * i];
    let high = bounds[2 * i + 1];
    lemma_boundaries(header, table);
    lemma_boundaries_usable(header, table);
    assert(low <= bounds[bounds.len() - 2]);
    assert((start, length) == section(header.first_usable, bounds, i));
    assert(header.first_usable <= low <= high <= header.last_usable);
    if high != header.last_usable {
        lemma_boundary_is_occupied(header, table, 2 * i + 1);
    }
    if !keeps_low(header.first_usable, bounds, i) {
        if low == header.first_usable {
            if unoccupied(table, low as int) {
                lemma_count_ends(header, table, low as int);
                lemma_count_is_place(bounds, low as int);
                assert(bounds[1] > low);
                assert(bounds[1] <= bounds[2 * i]);
            }
        } else {
            lemma_boundary_is_occupied(header, table, 2 * i);
        }
    }
}

/// Behind each partition in use a stretch starts, as long as there is more than
/// one usable block.
pub proof fn lemma_stretch_behind(header: Header, table: Map<u32, Partition>, id: u32) -> (i: int)
    requires
        laid_out(header, table),
        header.first_usable < header.last_usable,
        sections_in_range(header, table),
        in_use(table, id),
    ensures
        0 <= i < sections(header, table).len(),
        sections(header, table)[i].0 == table[id].last_lba + 1,
{
    let bounds = boundaries(header, table);
    let ids = used_ids(table);
    let ends = endpoints(table, ids);
    let last = table[id].last_lba as int;
    lemma_boundaries(header, table);
    lemma_boundaries_usable(header, table);
    lemma_used_ids(table);
    assert(ids.contains(id));
    let k = choose|k: int| 0 <= k < ids.len() && ids[k] == id;
    lemma_endpoints_at(table, ids, k);
    if last == header.last_usable {
        let i = sections(header, table).len() - 1;
        let below = last - 1;
        lemma_count_boundaries(header, table, below);
        lemma_count_single(header.first_usable, below);
        lemma_count_single(header.last_usable, below);
        lemma_count_remove(ends, 2 * k + 1, below);
        lemma_count_bound(ends.remove(2 * k + 1), below);
        lemma_count_is_place(bounds, below);
        assert(bounds[bounds.len() - 2] == last);
        assert(sections(header, table)[i] == section(header.first_usable, bounds, i));
        i
    } else {
        assert forall|j: int| 0 <= j < ids.len() implies {
            &&& table[#[trigger] ids[j]].first_lba <= table[ids[j]].last_lba
            &&& !straddles(table[ids[j]], last)
        } by {
            assert(ids.contains(ids[j]));
            assert(in_use(table, ids[j]));
            if ids[j] != id {
                assert(apart(table[ids[j]], table[id]));
            }
        }
        lemma_endpoints_parity(table, ids, last);
        lemma_no_straddlers(table, ids, last);
        lemma_count_boundaries(header, table, last);
        lemma_count_single(header.first_usable, last);
        lemma_count_single(header.last_usable, last);
        lemma_count_is_place(bounds, last);
        lemma_count_remove(ends, 2 * k + 1, last);
        let m = count_upto(bounds, last) as int;
        let i = m / 2;
        assert(m == 2 * i + 1);
        assert(m >= 2);
        assert(bounds[2 * i] <= last);
        assert(bounds[2 * i + 1] > last);
        lemma_last_is_boundary(header, table, id, i, last);
        assert(bounds[2 * i] <= bounds[bounds.len() - 2]);
        assert(sections(header, table)[i] == section(header.first_usable, bounds, i));
        assert(bounds[2 * i - 1] >= header.first_usable);
        i
    }
}

/// The boundaries are the only list that never falls and holds the usable blocks'
/// ends and those of the partitions in use.
pub proof fn lemma_boundaries_are(
    header: Header,
    table: Map<u32, Partition>,
    ends: Seq<u64>,
    bounds: Seq<u64>,
)
    requires
        ends.len() == 2 * used_ids(table).len(),
        forall|k: int|
            0 <= k < used_ids(table).len() ==> ends[2 * k] == table[#[trigger] used_ids(
                table,
            )[k]].first_lba && ends[2 * k + 1] == table[used_ids(table)[k]].last_lba,
        nondecreasing(bounds),
        bounds.to_multiset() == (seq![header.first_usable] + ends + seq![
            header.last_usable,
        ]).to_multiset(),
    ensures
        bounds == boundaries(header, table),
{
    let ids = used_ids(table);
    lemma_endpoints_len(table, ids);
    assert forall|k: int| 0 <= k < ends.len() implies ends[k] == endpoints(table, ids)[k] by {
        lemma_endpoints_in(table, ids, k);
        let j = k / 2;
        assert(ids[j] == used_ids(table)[j]);
        assert(k == 2 * j || k == 2 * j + 1);
    }
    assert(ends =~= endpoints(table, ids));
    lemma_ordered(listed(header, table));
    crate::layout::lemma_nondecreasing_unique(bounds, boundaries(header, table));
}

} // verus!

//! Where on the disk there is room, and where a new partition goes.

use vstd::prelude::*;

use std::collections::BTreeMap;

use crate::disk::LogicalBlockSize;
use crate::header::Header;
use crate::partition::{in_use, list_used_ids, lists_used, Partition, used_ids};

verus! {

/// Whether the numbers in `s` never fall.
pub open spec fn nondecreasing(s: Seq<u64>) -> bool {
    forall|i: int, j: int| 0 <= i < j < s.len() ==> s[i] <= s[j]
}

/// The numbers in `s`, from the smallest to the largest.
pub open spec fn ordered(s: Seq<u64>) -> Seq<u64> {
    s.sort_by(|a: u64, b: u64| a <= b)
}

/// The first and the last block of each partition that `ids` names.
pub open spec fn endpoints(table: Map<u32, Partition>, ids: Seq<u32>) -> Seq<u64>
    decreases ids.len(),
{
    if ids.len() == 0 {
        Seq::empty()
    } else {
        endpoints(table, ids.drop_last()) + seq![
            table[ids.last()].first_lba,
            table[ids.last()].last_lba,
        ]
    }
}

/// The blocks that bound the free stretches, in order: the first usable block,
/// the first and last block of each partition in use, and the last usable
/// block.
pub open spec fn boundaries(header: Header, table: Map<u32, Partition>) -> Seq<u64> {
    ordered(
        seq![header.first_usable] + endpoints(table, used_ids(table)) + seq![header.last_usable],
    )
}

/// Whether the partition occupies the block `lba`.
pub open spec fn occupies(partition: Partition, lba: int) -> bool {
    partition.first_lba <= lba <= partition.last_lba
}

/// Whether no partition in use occupies the block `lba`.
pub open spec fn unoccupied(table: Map<u32, Partition>, lba: int) -> bool {
    forall|id: u32| #[trigger] in_use(table, id) ==> !occupies(table[id], lba)
}

/// Whether the stretch number `i` keeps its lower boundary: that is the first
/// usable block, and no partition ends there, or the stretch is empty anyway.
pub open spec fn keeps_low(first_usable: u64, bounds: Seq<u64>, i: int) -> bool {
    &&& bounds[2 * i] == first_usable
    &&& i == 0 || bounds[2 * i - 1] < first_usable || bounds[2 * i + 1] == first_usable
}

/// The stretch number `i` between the boundaries `bounds`: its first block and
/// its length. It starts behind its lower boundary, unless it keeps that block.
/// The upper boundary is left out.
pub open spec fn section(first_usable: u64, bounds: Seq<u64>, i: int) -> (u64, u64) {
    let high = bounds[2 * i + 1];
    let start = if keeps_low(first_usable, bounds, i) {
        bounds[2 * i] as int
    } else {
        bounds[2 * i] + 1
    };
    (
        start as u64,
        if high > start {
            (high - start) as u64
        } else {
            0
        },
    )
}

/// The free stretches that a header and a table leave: each pair of boundaries
/// bounds one.
pub open spec fn sections(header: Header, table: Map<u32, Partition>) -> Seq<(u64, u64)> {
    let bounds = boundaries(header, table);
    Seq::new(bounds.len() / 2, |i: int| section(header.first_usable, bounds, i))
}

/// The blocks that may be taken from the start of the stretch number `i` on: the
/// start and how many. The upper boundary is taken with the stretch where no
/// partition in use occupies it, as is the case with the last usable block.
pub open spec fn room(header: Header, table: Map<u32, Partition>, i: int) -> (u64, u64) {
    let bounds = boundaries(header, table);
    let (start, length) = section(header.first_usable, bounds, i);
    let high = bounds[2 * i + 1];
    if start <= high && length < u64::MAX && unoccupied(table, high as int) {
        (start, (length + 1) as u64)
    } else {
        (start, length)
    }
}

/// The room that each free stretch has.
pub open spec fn rooms(header: Header, table: Map<u32, Partition>) -> Seq<(u64, u64)> {
    Seq::new(boundaries(header, table).len() / 2, |i: int| room(header, table, i))
}

/// Whether every free stretch starts at a block that has a number: no stretch
/// starts behind the largest one.
pub open spec fn sections_in_range(header: Header, table: Map<u32, Partition>) -> bool {
    let bounds = boundaries(header, table);
    header.first_usable < u64::MAX ==> bounds[bounds.len() - 2] < u64::MAX
}

/// Sorts with the `sort_unstable` of slices.
///
/// Trusted: the numbers stay the same ones, each as often as before, and no
/// number is larger than a later one.
#[verifier::external_body]
fn sort_numbers(numbers: &mut Vec<u64>)
    ensures
        nondecreasing(final(numbers)@),
        final(numbers)@.to_multiset() == old(numbers)@.to_multiset(),
{
    numbers.sort_unstable();
}

/// A list that never falls is told by what it holds.
pub proof fn lemma_nondecreasing_unique(a: Seq<u64>, b: Seq<u64>)
    requires
        nondecreasing(a),
        nondecreasing(b),
        a.to_multiset() == b.to_multiset(),
    ensures
        a == b,
    decreases a.len(),
{
    broadcast use vstd::seq_lib::group_to_multiset_ensures;

    assert(a.len() == a.to_multiset().len());
    assert(b.len() == b.to_multiset().len());
    if a.len() == 0 {
        assert(a =~= b);
    } else {
        let x = a.last();
        let y = b.last();
        assert(a.contains(x) && b.contains(y));
        assert(b.to_multiset().contains(x) && a.to_multiset().contains(y));
        assert(b.contains(x) && a.contains(y));
        assert(x == y);
        let a1 = a.drop_last();
        let b1 = b.drop_last();
        assert(a =~= a1.push(x));
        assert(b =~= b1.push(x));
        assert(a.to_multiset() == a1.to_multiset().insert(x));
        assert(b.to_multiset() == b1.to_multiset().insert(x));
        assert forall|v: u64| a1.to_multiset().count(v) == b1.to_multiset().count(v) by {
            assert(a1.to_multiset().insert(x).count(v) == b1.to_multiset().insert(x).count(v));
        }
        assert(a1.to_multiset() =~= b1.to_multiset());
        lemma_nondecreasing_unique(a1, b1);
    }
}

/// Putting numbers in order keeps them, and leaves none larger than a later one.
pub proof fn lemma_ordered(s: Seq<u64>)
    ensures
        nondecreasing(ordered(s)),
        ordered(s).to_multiset() == s.to_multiset(),
        ordered(s).len() == s.len(),
{
    broadcast use vstd::seq_lib::group_to_multiset_ensures;

    let leq = |a: u64, b: u64| a <= b;
    assert(vstd::relations::total_ordering(leq));
    s.lemma_sort_by_ensures(leq);
    let t = ordered(s);
    assert forall|i: int, j: int| 0 <= i < j < t.len() implies t[i] <= t[j] by {
        assert(leq(t[i], t[j]));
    }
    assert(t.len() == t.to_multiset().len());
    assert(s.len() == s.to_multiset().len());
}

/// Each partition has two ends.
pub proof fn lemma_endpoints_len(table: Map<u32, Partition>, ids: Seq<u32>)
    ensures
        endpoints(table, ids).len() == 2 * ids.len(),
    decreases ids.len(),
{
    if ids.len() > 0 {
        lemma_endpoints_len(table, ids.drop_last());
    }
}

/// The boundaries come in pairs, and there is at least one pair.
pub proof fn lemma_boundaries(header: Header, table: Map<u32, Partition>)
    ensures
        nondecreasing(boundaries(header, table)),
        boundaries(header, table).len() == 2 * used_ids(table).len() + 2,
        sections(header, table).len() == used_ids(table).len() + 1,
{
    lemma_endpoints_len(table, used_ids(table));
    lemma_ordered(
        seq![header.first_usable] + endpoints(table, used_ids(table)) + seq![header.last_usable],
    );
}

/// The blocks that bound the free stretches, in order.
fn boundary_blocks(header: &Header, table: &BTreeMap<u32, Partition>) -> (r: Vec<u64>)
    ensures
        r@ == boundaries(*header, table@),
{
    let ids: Vec<u32> = list_used_ids(table);
    let mut positions: Vec<u64> = Vec::new();
    positions.push(header.first_usable);
    assert(ids@.take(0) =~= Seq::empty());
    assert(positions@ =~= seq![header.first_usable] + endpoints(table@, ids@.take(0)));
    for n in 0..ids.len()
        invariant
            ids@ == used_ids(table@),
            lists_used(table@, ids@),
            positions@ == seq![header.first_usable] + endpoints(table@, ids@.take(n as int)),
    {
        let id: u32 = ids[n];
        assert(ids@.contains(id));
        assert(in_use(table@, id));
        assert(ids@.take(n + 1).drop_last() =~= ids@.take(n as int));
        if let Some(partition) = table.get(&id) {
            positions.push(partition.first_lba);
            positions.push(partition.last_lba);
        }
        assert(positions@ =~= seq![header.first_usable] + endpoints(table@, ids@.take(n + 1)));
    }
    assert(ids@.take(ids@.len() as int) =~= ids@);
    positions.push(header.last_usable);
    let ghost listed: Seq<u64> = seq![header.first_usable] + endpoints(table@, ids@) + seq![
        header.last_usable,
    ];
    assert(positions@ =~= listed);
    sort_numbers(&mut positions);
    proof {
        lemma_ordered(listed);
        lemma_nondecreasing_unique(positions@, ordered(listed));
    }
    positions
}

/// Whether the free stretches that a header and a table leave can be told in
/// numbers of 64 bits.
pub fn are_sections_in_range(header: &Header, table: &BTreeMap<u32, Partition>) -> (r: bool)
    ensures
        r == sections_in_range(*header, table@),
{
    let bounds: Vec<u64> = boundary_blocks(header, table);
    proof {
        lemma_boundaries(*header, table@);
    }
    header.first_usable == u64::MAX || bounds[bounds.len() - 2] < u64::MAX
}

/// The free stretches that a header and a table leave.
pub fn free_sections(header: &Header, table: &BTreeMap<u32, Partition>) -> (r: Vec<(u64, u64)>)
    requires
        sections_in_range(*header, table@),
    ensures
        r@ == sections(*header, table@),
{
    let positions: Vec<u64> = boundary_blocks(header, table);
    proof {
        lemma_boundaries(*header, table@);
    }
    let mut found: Vec<(u64, u64)> = Vec::new();
    let mut k: usize = 0;
    while k < positions.len()
        invariant
            positions@ == boundaries(*header, table@),
            nondecreasing(positions@),
            positions@.len() >= 2,
            positions@.len() % 2 == 0,
            k % 2 == 0,
            k <= positions@.len(),
            found@.len() == k / 2,
            sections_in_range(*header, table@),
            found@ == sections(*header, table@).take(k as int / 2),
        decreases positions@.len() - k,
    {
        let low: u64 = positions[k];
        let high: u64 = positions[k + 1];
        let keeps: bool = low == header.first_usable && (k == 0 || positions[k - 1] < low || high
            == low);
        assert(keeps == keeps_low(header.first_usable, positions@, k as int / 2));
        let start: u64 = if keeps {
            low
        } else {
            low + 1
        };
        found.push((start, high.saturating_sub(start)));
        assert(found@ =~= sections(*header, table@).take(k as int / 2 + 1));
        k = k + 2;
    }
    assert(sections(*header, table@).take(positions@.len() as int / 2) =~= sections(*header, table@));
    found
}

/// Whether no partition in use occupies the block `lba`.
fn is_unoccupied(table: &BTreeMap<u32, Partition>, lba: u64) -> (r: bool)
    ensures
        r == unoccupied(table@, lba as int),
{
    let ids: Vec<u32> = list_used_ids(table);
    for n in 0..ids.len()
        invariant
            lists_used(table@, ids@),
            forall|j: int| 0 <= j < n ==> !occupies(table@[#[trigger] ids@[j]], lba as int),
    {
        let id: u32 = ids[n];
        assert(ids@.contains(id));
        assert(in_use(table@, id));
        if let Some(partition) = table.get(&id) {
            if partition.first_lba <= lba && lba <= partition.last_lba {
                assert(occupies(table@[id], lba as int));
                return false;
            }
        }
    }
    assert forall|id: u32| #[trigger] in_use(table@, id) implies !occupies(
        table@[id],
        lba as int,
    ) by {
        assert(ids@.contains(id));
    }
    true
}

/// The room that each free stretch has.
pub fn free_rooms(header: &Header, table: &BTreeMap<u32, Partition>) -> (r: Vec<(u64, u64)>)
    requires
        sections_in_range(*header, table@),
    ensures
        r@ == rooms(*header, table@),
{
    let bounds: Vec<u64> = boundary_blocks(header, table);
    let free: Vec<(u64, u64)> = free_sections(header, table);
    proof {
        lemma_boundaries(*header, table@);
    }
    let count: usize = bounds.len();
    let mut found: Vec<(u64, u64)> = Vec::new();
    for i in 0..free.len()
        invariant
            bounds@ == boundaries(*header, table@),
            bounds@.len() == 2 * free@.len(),
            count == bounds@.len(),
            free@ == sections(*header, table@),
            found@ == rooms(*header, table@).take(i as int),
    {
        let start: u64 = free[i].0;
        let length: u64 = free[i].1;
        let high: u64 = bounds[2 * i + 1];
        if start <= high && length < u64::MAX && is_unoccupied(table, high) {
            found.push((start, length + 1));
        } else {
            found.push((start, length));
        }
        assert(found@ =~= rooms(*header, table@).take(i + 1));
    }
    assert(rooms(*header, table@).take(free@.len() as int) =~= rooms(*header, table@));
    found
}

/// The number of blocks that `size` bytes take, rounded up.
pub open spec fn blocks_for(size: u64, lb_size: LogicalBlockSize) -> int {
    (size - 1) / (lb_size.bytes() as int) + 1
}

/// How far behind `start` the next aligned block lies.
pub open spec fn alignment_gap(start: u64, alignment: Option<u64>) -> int {
    match alignment {
        Some(a) => (a - start % a) % (a as int),
        None => 0,
    }
}

/// Whether there is room for `blocks` blocks from the first aligned one on, where
/// `free` tells a start and how many blocks may be taken from there on.
pub open spec fn has_room(free: (u64, u64), blocks: int, alignment: Option<u64>) -> bool {
    alignment_gap(free.0, alignment) + blocks <= free.1
}

/// The lowest of the free stretches, from number `from` on, that has room for
/// `blocks` blocks.
pub open spec fn first_with_room(
    free: Seq<(u64, u64)>,
    blocks: int,
    alignment: Option<u64>,
    from: int,
) -> Option<int>
    decreases free.len() - from,
{
    if from >= free.len() {
        None
    } else if has_room(free[from], blocks, alignment) {
        Some(from)
    } else {
        first_with_room(free, blocks, alignment, from + 1)
    }
}

/// Whether the block numbers that the search for room computes exist: in each
/// stretch that is looked at, from number `from` on, the blocks and the gap
/// before them are a number of 64 bits, and so is the number of the block behind
/// the ones that are taken.
pub open spec fn search_in_range(
    free: Seq<(u64, u64)>,
    blocks: int,
    alignment: Option<u64>,
    from: int,
) -> bool
    decreases free.len() - from,
{
    if from >= free.len() {
        true
    } else {
        let gap = alignment_gap(free[from].0, alignment);
        &&& gap + blocks <= u64::MAX
        &&& if has_room(free[from], blocks, alignment) {
            free[from].0 + gap + blocks <= u64::MAX
        } else {
            search_in_range(free, blocks, alignment, from + 1)
        }
    }
}

/// The block at which `blocks` blocks are put: the first aligned one of the
/// lowest free stretch with room.
pub open spec fn placement(free: Seq<(u64, u64)>, blocks: int, alignment: Option<u64>) -> Option<
    u64,
> {
    match first_with_room(free, blocks, alignment, 0) {
        Some(i) => Some((free[i].0 + alignment_gap(free[i].0, alignment)) as u64),
        None => None,
    }
}

/// How far behind `start` the next aligned block lies.
fn aligned_gap(start: u64, alignment: Option<u64>) -> (r: u64)
    requires
        alignment != Some(0u64),
    ensures
        r == alignment_gap(start, alignment),
{
    match alignment {
        Some(a) => (a - (start % a)) % a,
        None => 0,
    }
}

/// Finds where `blocks` blocks are put, given the room that each free stretch has.
pub fn place(free: &Vec<(u64, u64)>, blocks: u64, alignment: Option<u64>) -> (r: Option<u64>)
    requires
        blocks > 0,
        free@.len() > 0 ==> alignment != Some(0u64),
        search_in_range(free@, blocks as int, alignment, 0),
    ensures
        r == placement(free@, blocks as int, alignment),
        r matches Some(first) ==> first + blocks <= u64::MAX,
{
    for i in 0..free.len()
        invariant
            blocks > 0,
            free@.len() > 0 ==> alignment != Some(0u64),
            search_in_range(free@, blocks as int, alignment, i as int),
            first_with_room(free@, blocks as int, alignment, 0) == first_with_room(
                free@,
                blocks as int,
                alignment,
                i as int,
            ),
    {
        let start: u64 = free[i].0;
        let gap: u64 = aligned_gap(start, alignment);
        if gap + blocks <= free[i].1 {
            return Some(start + gap);
        }
    }
    None
}

/// Whether the block numbers that the search for room computes exist.
pub fn is_search_in_range(free: &Vec<(u64, u64)>, blocks: u64, alignment: Option<u64>) -> (r: bool)
    requires
        blocks > 0,
        free@.len() > 0 ==> alignment != Some(0u64),
    ensures
        r == search_in_range(free@, blocks as int, alignment, 0),
{
    for i in 0..free.len()
        invariant
            blocks > 0,
            free@.len() > 0 ==> alignment != Some(0u64),
            search_in_range(free@, blocks as int, alignment, 0) == search_in_range(
                free@,
                blocks as int,
                alignment,
                i as int,
            ),
    {
        let start: u64 = free[i].0;
        let gap: u64 = aligned_gap(start, alignment);
        match gap.checked_add(blocks) {
            None => return false,
            Some(taken) => {
                if taken <= free[i].1 {
                    return start.checked_add(taken).is_some();
                }
            },
        }
    }
    true
}

/// The number of blocks that `size` bytes take, rounded up.
pub fn block_count(size: u64, lb_size: LogicalBlockSize) -> (r: u64)
    requires
        size > 0,
    ensures
        r == blocks_for(size, lb_size),
        r > 0,
{
    let bytes: u64 = lb_size.into();
    (size - 1) / bytes + 1
}

} // verus!

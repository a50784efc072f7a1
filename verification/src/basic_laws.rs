//! The small pieces in plain terms: identifiers, block sizes, entries, errors, and
//! the search for room among given stretches.

use vstd::prelude::*;

use std::collections::BTreeMap;

use crate::disk::LogicalBlockSize;
use crate::error::{GptError, io_message, other_io_error, told_as_io};
use crate::gpt_disk::GptDisk;
use crate::guid::Guid;
use crate::header::{Header, HeaderError};
use crate::layout::{
    are_sections_in_range, block_count, boundaries, first_with_room, free_rooms, free_sections,
    has_room, is_search_in_range, lemma_boundaries, place, room, search_in_range, section,
    unoccupied,
};
use crate::layout_laws::{lemma_first_with_room, lemma_gap_aligns, lemma_in_range};
use crate::partition::{in_use, Partition};
use crate::partition_types::Type;
use crate::space_laws::{
    aligned, below_the_largest, just_holds, lemma_next_aligned, next_aligned,
};
use crate::table_laws::same_but_table;
use crate::terms::{block_bytes, lemma_terms, live, vacant};

verus! {

/// A random identifier is one whose thirteenth hexadecimal digit is four and whose
/// seventeenth is eight, nine, `a` or `b`.
pub proof fn law_random_guid(guid: Guid, head: int, digit: int, mid: int, variant: int, tail: int)
    requires
        guid.value == head * 0x1_0000_0000_0000_0000_0000 + digit * 0x1000_0000_0000_0000_0000
            + mid * 0x1_0000_0000_0000_0000 + variant * 0x1000_0000_0000_0000 + tail,
        0 <= head,
        0 <= digit < 16,
        0 <= mid < 0x1000,
        0 <= variant < 16,
        0 <= tail < 0x1000_0000_0000_0000,
    ensures
        guid.is_random() <==> digit == 4 && 8 <= variant <= 11,
{
    let v = guid.value as int;
    let low = mid * 0x1_0000_0000_0000_0000 + variant * 0x1000_0000_0000_0000 + tail;
    assert(v / 0x1000_0000_0000_0000_0000 == head * 16 + digit);
    assert(v / 0x4000_0000_0000_0000 == (head * 16 + digit) * 0x4000 + mid * 4 + variant / 4);
}

/// A block has 512 bytes or 4096, as its size says.
pub proof fn law_block_sizes(lb_size: LogicalBlockSize, r: u64)
    requires
        call_ensures(<u64 as From<LogicalBlockSize>>::from, (lb_size,), r),
    ensures
        r == block_bytes(lb_size),
        lb_size.bytes() == block_bytes(lb_size),
{
}

/// An entry is in use just where its type is not the all-zero one.
pub proof fn law_is_used(partition: Partition, r: bool)
    requires
        call_ensures(Partition::is_used, (&partition,), r),
    ensures
        r <==> partition.part_type_guid.guid.value != 0,
{
}

/// As many blocks are counted as just hold the size.
pub proof fn law_block_count(size: u64, lb_size: LogicalBlockSize, r: u64)
    requires
        call_ensures(block_count, (size, lb_size), r),
        size > 0,
    ensures
        call_requires(block_count, (size, lb_size)),
        just_holds(lb_size, r as int, size),
{
    let bytes = block_bytes(lb_size);
    let n = size as int;
    let q = r as int;
    assert(bytes == lb_size.bytes());
    assert((q - 1) * bytes < n <= q * bytes) by (nonlinear_arith)
        requires
            bytes == 512 || bytes == 4096,
            n > 0,
            q == (n - 1) / bytes + 1,
    ;
}

/// The place that is found among given rooms is the first aligned block of one that
/// holds the blocks from there on, and no earlier one would hold them. It is found
/// where any would.
pub proof fn law_place(
    free: Vec<(u64, u64)>,
    blocks: u64,
    alignment: Option<u64>,
    r: Option<u64>,
    in_range: bool,
    j: int,
    other: int,
)
    requires
        call_ensures(place, (&free, blocks, alignment), r),
        call_ensures(is_search_in_range, (&free, blocks, alignment), in_range),
        blocks > 0,
        alignment != Some(0u64),
        forall|i: int| 0 <= i < free@.len() ==> (#[trigger] free@[i]).0 + free@[i].1 <= u64::MAX,
        0 <= j < free@.len(),
        next_aligned(free@[j].0 as int, alignment, other),
    ensures
        alignment is None || alignment->0 + blocks <= u64::MAX ==> in_range && call_requires(
            place,
            (&free, blocks, alignment),
        ),
        match r {
            Some(first) => {
                &&& aligned(first as int, alignment)
                &&& exists|i: int|
                    {
                        &&& 0 <= i < free@.len()
                        &&& next_aligned((#[trigger] free@[i]).0 as int, alignment, first as int)
                        &&& first + blocks <= free@[i].0 + free@[i].1
                        &&& j < i ==> other + blocks > free@[j].0 + free@[j].1
                    }
            },
            None => other + blocks > free@[j].0 + free@[j].1,
        },
{
    let all = free@;
    if alignment is None || alignment->0 + blocks <= u64::MAX {
        lemma_searchable(all, blocks, alignment, 0);
    }
    lemma_first_with_room(all, blocks as int, alignment, 0);
    lemma_next_aligned(all[j].0, alignment, other);
    if other + blocks <= all[j].0 + all[j].1 {
        assert(has_room(all[j], blocks as int, alignment));
    }
    if let Some(i) = first_with_room(all, blocks as int, alignment, 0) {
        assert(all[i].0 + all[i].1 <= u64::MAX);
        if let Some(a) = alignment {
            lemma_gap_aligns(all[i].0, a);
        }
        assert(next_aligned(all[i].0 as int, alignment, r->0 as int));
    }
}

proof fn lemma_searchable(free: Seq<(u64, u64)>, blocks: u64, alignment: Option<u64>, from: int)
    requires
        blocks > 0,
        alignment != Some(0u64),
        alignment is None || alignment->0 + blocks <= u64::MAX,
        forall|i: int| 0 <= i < free.len() ==> (#[trigger] free[i]).0 + free[i].1 <= u64::MAX,
        0 <= from,
    ensures
        search_in_range(free, blocks as int, alignment, from),
    decreases free.len() - from,
{
    if from < free.len() {
        assert(free[from].0 + free[from].1 <= u64::MAX);
        if let Some(a) = alignment {
            lemma_gap_aligns(free[from].0, a);
        }
        lemma_searchable(free, blocks, alignment, from + 1);
    }
}

/// The rooms are the free stretches, each with the block behind it where that bounds
/// the stretch and is vacant.
pub proof fn law_free_rooms(
    header: Header,
    table: BTreeMap<u32, Partition>,
    free: Vec<(u64, u64)>,
    r: Vec<(u64, u64)>,
    in_range: bool,
    i: int,
)
    requires
        call_ensures(free_sections, (&header, &table), free),
        call_ensures(free_rooms, (&header, &table), r),
        call_ensures(are_sections_in_range, (&header, &table), in_range),
        below_the_largest(header, table@),
        0 <= i < free@.len(),
    ensures
        in_range,
        call_requires(free_sections, (&header, &table)),
        call_requires(free_rooms, (&header, &table)),
        r@.len() == free@.len(),
        r@[i].0 == free@[i].0,
        r@[i].1 == free@[i].1 || r@[i].1 == free@[i].1 + 1,
        r@[i].1 == free@[i].1 + 1 ==> vacant(table@, free@[i].0 + free@[i].1),
        0 < free@[i].1 < u64::MAX && vacant(table@, free@[i].0 + free@[i].1) ==> r@[i].1
            == free@[i].1 + 1,
{
    let bounds = boundaries(header, table@);
    lemma_terms(table@);
    assert forall|id: u32| #[trigger] in_use(table@, id) implies live(table@, id) by {}
    lemma_in_range(header, table@);
    lemma_boundaries(header, table@);
    assert(bounds[2 * i] <= bounds[bounds.len() - 2]);
    assert(free@[i] == section(header.first_usable, bounds, i));
    assert(r@[i] == room(header, table@, i));
    assert(vacant(table@, free@[i].0 + free@[i].1) == unoccupied(
        table@,
        free@[i].0 + free@[i].1,
    ));
}

/// A label in front of a text, and nothing else.
pub open spec fn labels(message: Seq<char>, label: Seq<char>, text: Seq<char>) -> bool {
    &&& message.len() == label.len() + text.len()
    &&& forall|i: int| 0 <= i < label.len() ==> #[trigger] message[i] == label[i]
    &&& forall|i: int| 0 <= i < text.len() ==> message[label.len() + i] == #[trigger] text[i]
}

/// An error that holds a text is told as that text behind a label of its own; every
/// other error has words of its own.
pub proof fn law_messages(error: GptError, r: String)
    requires
        call_ensures(GptError::message, (&error,), r),
    ensures
        match error {
            GptError::Io(e) => {
                &&& exists|text: Seq<char>| #[trigger] labels(r@, "GPT IO Error: "@, text)
                &&& forall|t: Seq<char>|
                    e == #[trigger] other_io_error(t) ==> labels(r@, "GPT IO Error: "@, t)
            },
            GptError::Header(e) => labels(r@, "GPT Header Error: "@, e.text@),
            GptError::Overflow(m) => labels(r@, "GTP error Overflow: "@, m@),
            GptError::CreatingInitializedDisk => r@
                == "we were expecting to read an existing partition table, but instead we're attempting to create a new blank table"@,
            GptError::NotEnoughSpace => r@ == "Unable to find enough space on drive"@,
            GptError::ReadOnly => r@ == "disk not opened in writable mode"@,
            GptError::NotInitialized => r@ == "try to initialize the disk first"@,
            GptError::OverflowPartitionCount => r@ == "not enough partition slots"@,
        },
{
    if let GptError::Io(e) = error {
        let text = choose|text: Seq<char>|
            {
                &&& r@ == #[trigger] told_as_io(text)
                &&& forall|t: Seq<char>| e == #[trigger] other_io_error(t) ==> text == t
            };
        assert(labels(r@, "GPT IO Error: "@, text));
    }
}

/// The words for an I/O error are its own text behind the label.
pub proof fn law_io_message(text: &str, r: String)
    requires
        call_ensures(io_message, (text,), r),
    ensures
        labels(r@, "GPT IO Error: "@, text@),
{
}

/// An error of a device or of a header is passed on as it is.
pub proof fn law_errors_are_passed_on(
    io: std::io::Error,
    header: HeaderError,
    a: GptError,
    b: GptError,
)
    requires
        call_ensures(<GptError as From<std::io::Error>>::from, (io,), a),
        call_ensures(<GptError as From<HeaderError>>::from, (header,), b),
    ensures
        a == GptError::Io(io),
        b == GptError::Header(header),
{
}

/// Removing the partition that was just added gives the table before back, unless
/// an entry that was not live had its number.
pub proof fn law_remove_undoes_add<D>(
    before: &mut GptDisk<D>,
    after: &mut GptDisk<D>,
    name: &str,
    size: u64,
    part_type: Type,
    flags: u64,
    alignment: Option<u64>,
    id: u32,
    r: Result<u32, std::io::Error>,
)
    requires
        size > 0,
        call_ensures(
            GptDisk::<D>::add_partition,
            (before, name, size, part_type, flags, alignment),
            Ok(id),
        ),
        *old(after) == *final(before),
        call_ensures(GptDisk::<D>::remove_partition, (after, Some(id), None::<Guid>), r),
        !old(before)@.partitions.contains_key(id),
    ensures
        final(after)@.partitions == old(before)@.partitions,
        same_but_table(old(before)@, final(after)@),
{
    assert(final(after)@.partitions =~= old(before)@.partitions);
}

} // verus!

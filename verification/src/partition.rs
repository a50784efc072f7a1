//! Partitions, and the table that holds them by number.

use vstd::prelude::*;

use std::collections::BTreeMap;
use vstd::std_specs::cmp::OrdSpec;
use vstd::std_specs::iter::IteratorSpec;

use crate::guid::Guid;
use crate::partition_types::Type;

verus! {

/// One entry of the partition table.
#[derive(Debug)]
pub struct Partition {
    /// What the partition is for.
    pub part_type_guid: Type,
    /// Identifier of the partition.
    pub part_guid: Guid,
    /// The first block of the partition.
    pub first_lba: u64,
    /// The last block of the partition.
    pub last_lba: u64,
    /// Attribute bits.
    pub flags: u64,
    /// Name of the partition.
    pub name: String,
}

impl Clone for Partition {
    fn clone(&self) -> (r: Partition)
        ensures
            r == *self,
    {
        Partition {
            part_type_guid: self.part_type_guid,
            part_guid: self.part_guid,
            first_lba: self.first_lba,
            last_lba: self.last_lba,
            flags: self.flags,
            name: self.name.clone(),
        }
    }
}

impl Partition {
    /// Whether the entry is in use: its type is not the all-zero one.
    pub open spec fn used(self) -> bool {
        self.part_type_guid.guid.value != 0
    }

    /// Whether the entry is in use.
    pub fn is_used(&self) -> (r: bool)
        ensures
            r == self.used(),
    {
        self.part_type_guid.guid.value != 0
    }
}

/// Whether `id` is the number of a partition in use.
pub open spec fn in_use(table: Map<u32, Partition>, id: u32) -> bool {
    table.contains_key(id) && table[id].used()
}

/// Whether the numbers in `ids` rise strictly.
pub open spec fn rising(ids: Seq<u32>) -> bool {
    forall|i: int, j: int| 0 <= i < j < ids.len() ==> ids[i] < ids[j]
}

/// Whether `ids` lists the numbers of the partitions in use, each once and in
/// rising order.
pub open spec fn lists_used(table: Map<u32, Partition>, ids: Seq<u32>) -> bool {
    &&& rising(ids)
    &&& forall|id: u32|
        #![trigger ids.contains(id)]
        #![trigger in_use(table, id)]
        ids.contains(id) <==> in_use(table, id)
}

/// The numbers below `bound` of partitions in use, in rising order.
pub open spec fn used_ids_below(table: Map<u32, Partition>, bound: nat) -> Seq<u32>
    decreases bound,
{
    if bound == 0 {
        Seq::empty()
    } else {
        let lower = used_ids_below(table, (bound - 1) as nat);
        let id = (bound - 1) as u32;
        if in_use(table, id) {
            lower.push(id)
        } else {
            lower
        }
    }
}

/// The numbers of the partitions in use, in rising order.
pub open spec fn used_ids(table: Map<u32, Partition>) -> Seq<u32> {
    used_ids_below(table, 0x1_0000_0000)
}

/// All numbers in the table, in rising order.
pub(crate) fn all_ids(table: &BTreeMap<u32, Partition>) -> (ids: Vec<u32>)
    ensures
        rising(ids@),
        forall|id: u32| ids@.contains(id) <==> table@.contains_key(id),
{
    broadcast use vstd::laws_cmp::group_laws_cmp;
    broadcast use vstd::std_specs::btree::group_btree_axioms;

    let mut ids: Vec<u32> = Vec::new();
    let entries = table.iter();
    let ghost pairs: Seq<(&u32, &Partition)> = entries.remaining();
    let ghost keys: Seq<u32> = pairs.map_values(|kv: (&u32, &Partition)| *kv.0);
    assert(vstd::std_specs::btree::increasing_seq(keys));
    for entry in it: entries
        invariant
            it.seq() == pairs,
            keys == pairs.map_values(|kv: (&u32, &Partition)| *kv.0),
            ids@ == keys.take(it.index()),
    {
        ids.push(*entry.0);
        assert(ids@ =~= keys.take(it.index() + 1));
    }
    assert(ids@ =~= keys);
    assert(rising(ids@)) by {
        assert forall|i: int, j: int| 0 <= i < j < ids@.len() implies ids@[i] < ids@[j] by {
            assert(keys[i].cmp_spec(&keys[j]) is Less);
        }
    }
    assert forall|id: u32| ids@.contains(id) <==> table@.contains_key(id) by {
        if ids@.contains(id) {
            let i = choose|i: int| 0 <= i < keys.len() && keys[i] == id;
            assert(table@.contains_key(*pairs[i].0));
        }
        if table@.contains_key(id) {
            assert(pairs.contains((&id, &table@[id])));
            let i = choose|i: int| 0 <= i < pairs.len() && pairs[i] == (&id, &table@[id]);
            assert(keys[i] == id);
        }
    }
    ids
}

/// A rising list is told by what it holds.
proof fn lemma_rising_unique(a: Seq<u32>, b: Seq<u32>)
    requires
        rising(a),
        rising(b),
        forall|id: u32| a.contains(id) <==> b.contains(id),
    ensures
        a == b,
    decreases a.len(),
{
    if a.len() == 0 {
        if b.len() > 0 {
            assert(b.contains(b[0]));
        }
        assert(a =~= b);
    } else {
        assert(a.contains(a.last()));
        let j = choose|j: int| 0 <= j < b.len() && b[j] == a.last();
        assert(b.contains(b.last()));
        let i = choose|i: int| 0 <= i < a.len() && a[i] == b.last();
        assert(a.last() == b.last());
        let a1 = a.drop_last();
        let b1 = b.drop_last();
        assert forall|id: u32| a1.contains(id) <==> b1.contains(id) by {
            if a1.contains(id) {
                let k = choose|k: int| 0 <= k < a1.len() && a1[k] == id;
                assert(a[k] == id);
                assert(b.contains(id));
                let l = choose|l: int| 0 <= l < b.len() && b[l] == id;
                assert(b1[l] == id);
            }
            if b1.contains(id) {
                let k = choose|k: int| 0 <= k < b1.len() && b1[k] == id;
                assert(b[k] == id);
                assert(a.contains(id));
                let l = choose|l: int| 0 <= l < a.len() && a[l] == id;
                assert(a1[l] == id);
            }
        }
        lemma_rising_unique(a1, b1);
        assert(a =~= a1.push(a.last()));
        assert(b =~= b1.push(b.last()));
    }
}

proof fn lemma_used_ids_below(table: Map<u32, Partition>, bound: nat)
    requires
        bound <= 0x1_0000_0000,
    ensures
        rising(used_ids_below(table, bound)),
        forall|id: u32|
            #![trigger used_ids_below(table, bound).contains(id)]
            #![trigger in_use(table, id)]
            used_ids_below(table, bound).contains(id) <==> (in_use(table, id) && id < bound),
    decreases bound,
{
    let ids = used_ids_below(table, bound);
    if bound > 0 {
        let below = (bound - 1) as nat;
        let lower = used_ids_below(table, below);
        let last = (bound - 1) as u32;
        lemma_used_ids_below(table, below);
        assert forall|i: int| 0 <= i < lower.len() implies #[trigger] lower[i] < last by {
            assert(lower.contains(lower[i]));
            assert(lower[i] < below);
        }
        assert forall|id: u32| ids.contains(id) <==> (in_use(table, id) && id < bound) by {
            if ids.contains(id) {
                let k = choose|k: int| 0 <= k < ids.len() && ids[k] == id;
                if k < lower.len() {
                    assert(lower[k] == id);
                    assert(lower.contains(id));
                }
            }
            if in_use(table, id) && id < bound {
                if id == last {
                    assert(ids.last() == id);
                } else {
                    assert(lower.contains(id));
                    let k = choose|k: int| 0 <= k < lower.len() && lower[k] == id;
                    assert(ids[k] == id);
                }
            }
        }
    }
}

/// The numbers of the partitions in use are listed by [`used_ids`], and by no
/// other list.
pub proof fn lemma_used_ids(table: Map<u32, Partition>)
    ensures
        lists_used(table, used_ids(table)),
        forall|ids: Seq<u32>| #[trigger] lists_used(table, ids) ==> ids == used_ids(table),
{
    lemma_used_ids_below(table, 0x1_0000_0000);
    assert forall|ids: Seq<u32>| #[trigger] lists_used(table, ids) implies ids == used_ids(
        table,
    ) by {
        lemma_rising_unique(ids, used_ids(table));
    }
}

/// The numbers of the partitions in use, in rising order.
pub(crate) fn list_used_ids(table: &BTreeMap<u32, Partition>) -> (used: Vec<u32>)
    ensures
        used@ == used_ids(table@),
        lists_used(table@, used@),
{
    let ids: Vec<u32> = all_ids(table);
    let mut used: Vec<u32> = Vec::new();
    for n in 0..ids.len()
        invariant
            rising(ids@),
            forall|id: u32| ids@.contains(id) <==> table@.contains_key(id),
            rising(used@),
            forall|i: int| 0 <= i < used@.len() ==> in_use(table@, #[trigger] used@[i]),
            forall|i: int, j: int|
                0 <= i < used@.len() && n <= j < ids@.len() ==> used@[i] < ids@[j],
            forall|j: int|
                0 <= j < n && in_use(table@, #[trigger] ids@[j]) ==> used@.contains(ids@[j]),
    {
        let id: u32 = ids[n];
        let ghost before: Seq<u32> = used@;
        assert(ids@.contains(id));
        if let Some(partition) = table.get(&id) {
            if partition.is_used() {
                used.push(id);
                assert(used@.last() == id);
            }
        }
        assert forall|j: int| 0 <= j < n + 1 && in_use(table@, #[trigger] ids@[j]) implies used@.contains(ids@[j]) by {
            if j < n {
                let k = choose|k: int| 0 <= k < before.len() && before[k] == ids@[j];
                assert(used@[k] == ids@[j]);
            }
        }
    }
    proof {
        assert forall|id: u32| used@.contains(id) <==> in_use(table@, id) by {
            if in_use(table@, id) {
                assert(ids@.contains(id));
            }
        }
        assert(lists_used(table@, used@));
        lemma_used_ids(table@);
    }
    used
}

} // verus!

//! A disk and its partition table.

use vstd::prelude::*;

use std::collections::BTreeMap;

use crate::config::{ConfigView, GptConfig};
use crate::disk::LogicalBlockSize;
use crate::error::{GptError, io_error_from_text, other_io_error};
use crate::guid::{Guid, random_guid};
use crate::header::{Header, HeaderError, HeaderRequest};
use crate::layout::{
    are_sections_in_range, block_count, blocks_for, free_rooms, free_sections, is_search_in_range,
    place, placement, rooms, search_in_range, sections, sections_in_range,
};
use crate::partition::{all_ids, list_used_ids, Partition, rising, used_ids};
use crate::partition_types::Type;

verus! {

/// A GPT disk backed by a device of type `D`.
#[derive(Debug)]
pub struct GptDisk<D> {
    /// Once the configuration says that the disk holds a table, there is a
    /// primary header.
    config: GptConfig,
    device: D,
    guid: Guid,
    primary_header: Option<Header>,
    backup_header: Option<Header>,
    partitions: BTreeMap<u32, Partition>,
}

/// What a disk holds in memory.
#[verifier::ext_equal]
pub struct DiskView<D> {
    /// The configuration that the disk was opened with, as it stands now.
    pub config: ConfigView,
    /// The device.
    pub device: D,
    /// Identifier of the disk.
    pub guid: Guid,
    /// The primary header, if any.
    pub primary_header: Option<Header>,
    /// The backup header, if any.
    pub backup_header: Option<Header>,
    /// The partition entries by number.
    pub partitions: Map<u32, Partition>,
}

impl<D> View for GptDisk<D> {
    type V = DiskView<D>;

    closed spec fn view(&self) -> DiskView<D> {
        DiskView {
            config: self.config@,
            device: self.device,
            guid: self.guid,
            primary_header: self.primary_header,
            backup_header: self.backup_header,
            partitions: self.partitions@,
        }
    }
}

/// The number after the highest one in use, unless a lower one from `from` on is
/// free: then the lowest such.
pub open spec fn lowest_free_id(table: Map<u32, Partition>, from: int, highest: int) -> int
    decreases highest - from,
{
    if from >= highest {
        highest + 1
    } else if !table.contains_key(from as u32) {
        from
    } else {
        lowest_free_id(table, from + 1, highest)
    }
}

/// The number that the next partition gets.
pub open spec fn next_id(table: Map<u32, Partition>) -> int {
    let used = used_ids(table);
    if used.len() == 0 {
        1
    } else {
        lowest_free_id(table, 1, used.last() as int)
    }
}

/// Whether the entry with the number `id` has the identifier `guid`.
pub open spec fn has_guid(table: Map<u32, Partition>, id: u32, guid: Guid) -> bool {
    table.contains_key(id) && table[id].part_guid == guid
}

impl<D> DiskView<D> {
    /// What holds of every disk: one that is said to hold a table has a primary
    /// header.
    pub open spec fn valid(self) -> bool {
        self.config.initialized ==> self.primary_header is Some
    }

    /// The header that tells which blocks may be used: the primary one, else the
    /// backup.
    pub open spec fn table_header(self) -> Option<Header> {
        match self.primary_header {
            Some(header) => Some(header),
            None => self.backup_header,
        }
    }

    /// The free stretches of the disk. Without a header there are none.
    pub open spec fn free(self) -> Seq<(u64, u64)> {
        match self.table_header() {
            Some(header) => sections(header, self.partitions),
            None => Seq::empty(),
        }
    }

    /// The room that each free stretch has.
    pub open spec fn rooms(self) -> Seq<(u64, u64)> {
        match self.table_header() {
            Some(header) => rooms(header, self.partitions),
            None => Seq::empty(),
        }
    }

    /// The number of entries that a table of `len` partitions is given: that of
    /// the primary header, which is kept, else as many as there are partitions.
    /// That number is cut off behind 32 bits.
    pub open spec fn num_parts_for(self, len: nat) -> u32 {
        match self.primary_header {
            Some(header) => header.num_parts,
            None => (len % 0x1_0000_0000) as u32,
        }
    }

    /// What a new primary header is built from.
    pub open spec fn primary_request(self, num_parts: u32, backup_lba: u64) -> HeaderRequest {
        HeaderRequest {
            base: self.primary_header,
            num_parts,
            backup_lba,
            disk_guid: self.guid,
            primary: true,
            lb_size: self.config.lb_size,
        }
    }

    /// What a new backup header is built from.
    pub open spec fn backup_request(self, num_parts: u32, backup_lba: u64) -> HeaderRequest {
        HeaderRequest {
            base: self.backup_header,
            num_parts,
            backup_lba,
            disk_guid: self.guid,
            primary: false,
            lb_size: self.config.lb_size,
        }
    }

    /// The disk with a new table and new headers, which makes it initialized.
    pub open spec fn with_table(
        self,
        partitions: Map<u32, Partition>,
        primary: Header,
        backup: Option<Header>,
    ) -> DiskView<D> {
        DiskView {
            config: ConfigView { initialized: true, ..self.config },
            primary_header: Some(primary),
            backup_header: backup,
            partitions,
            ..self
        }
    }

    /// Whether the free stretches can be told in numbers of 64 bits.
    pub open spec fn free_in_range(self) -> bool {
        self.table_header() matches Some(header) ==> sections_in_range(header, self.partitions)
    }

    /// Where a partition of `size` bytes is put. Without a header it is put nowhere.
    pub open spec fn placement(self, size: u64, alignment: Option<u64>) -> Option<u64> {
        placement(self.rooms(), blocks_for(size, self.config.lb_size), alignment)
    }

    /// Whether a partition of `size` bytes can be looked room for in numbers of
    /// 64 bits. Where blocks are to be had, the alignment is not zero.
    pub open spec fn placement_in_range(self, size: u64, alignment: Option<u64>) -> bool {
        &&& self.free_in_range()
        &&& self.table_header() is Some ==> alignment != Some(0u64)
        &&& search_in_range(self.rooms(), blocks_for(size, self.config.lb_size), alignment, 0)
        &&& self.placement(size, alignment) is Some ==> next_id(self.partitions) <= u32::MAX
    }
}

/// The smallest number of entries that a partition array of chosen size has.
pub const MIN_NUM_PARTS: u32 = 128;

/// A number of entries, raised to the smallest one that is allowed.
pub open spec fn at_least_min_parts(num_parts: u32) -> u32 {
    if num_parts < MIN_NUM_PARTS {
        MIN_NUM_PARTS
    } else {
        num_parts
    }
}

/// Whether `outcome` is what comes of building both headers with `build`, the
/// primary one first: the first failure, or both headers.
pub open spec fn headers_built<D, F: Fn(HeaderRequest) -> Result<Header, HeaderError>>(
    build: F,
    disk: DiskView<D>,
    num_parts: u32,
    backup_lba: u64,
    outcome: Result<(Header, Header), HeaderError>,
) -> bool {
    exists|h1: Result<Header, HeaderError>|
        {
            &&& #[trigger] call_ensures(
                build,
                (disk.primary_request(num_parts, backup_lba),),
                h1,
            )
            &&& match h1 {
                Err(e) => outcome == Err::<(Header, Header), HeaderError>(e),
                Ok(primary) => exists|h2: Result<Header, HeaderError>|
                    {
                        &&& #[trigger] call_ensures(
                            build,
                            (disk.backup_request(num_parts, backup_lba),),
                            h2,
                        )
                        &&& outcome == match h2 {
                            Err(e) => Err::<(Header, Header), HeaderError>(e),
                            Ok(backup) => Ok((primary, backup)),
                        }
                    },
            }
        }
}

/// A failure to build a header, told as an I/O error.
pub open spec fn build_failure(e: HeaderError) -> GptError {
    GptError::Io(other_io_error(e.text@))
}

/// Whether `new` is `old` with one more partition: the one that `size` bytes,
/// `name`, `part_type`, `flags` and `alignment` ask for, under the number `id`
/// and with the identifier `part_guid`.
pub open spec fn partition_added<D>(
    old: DiskView<D>,
    new: DiskView<D>,
    id: u32,
    name: Seq<char>,
    size: u64,
    part_type: Type,
    flags: u64,
    alignment: Option<u64>,
    part_guid: Guid,
) -> bool {
    let first = old.placement(size, alignment);
    let added = new.partitions[id];
    &&& first is Some
    &&& id == next_id(old.partitions)
    &&& new == DiskView { partitions: old.partitions.insert(id, added), ..old }
    &&& added.part_type_guid == part_type
    &&& added.part_guid == part_guid
    &&& added.first_lba == first->0
    &&& added.last_lba == first->0 + blocks_for(size, old.config.lb_size) - 1
    &&& added.flags == flags
    &&& added.name@ == name
}

impl<D> GptDisk<D> {
    /// A disk made of its parts.
    pub(crate) fn from_parts(
        config: GptConfig,
        device: D,
        guid: Guid,
        primary_header: Option<Header>,
        backup_header: Option<Header>,
        partitions: BTreeMap<u32, Partition>,
    ) -> (r: GptDisk<D>)
        ensures
            r@ == (DiskView {
                config: config@,
                device,
                guid,
                primary_header,
                backup_header,
                partitions: partitions@,
            }),
    {
        GptDisk { config, device, guid, primary_header, backup_header, partitions }
    }

    /// Whether the table may be written.
    pub(crate) fn is_writable(&self) -> (r: bool)
        ensures
            r == self@.config.writable,
    {
        self.config.is_writable()
    }

    /// Whether there is a table to write.
    pub(crate) fn is_initialized(&self) -> (r: bool)
        ensures
            r == self@.config.initialized,
    {
        self.config.is_initialized()
    }

    /// The device, to read from and write to.
    pub fn device_mut(&mut self) -> (r: &mut D)
        ensures
            *r == old(self)@.device,
            final(self)@ == (DiskView { device: *final(r), ..old(self)@ }),
    {
        &mut self.device
    }

    /// Add another partition to this disk, at the lowest place with room for
    /// it. Size is specified in bytes. Returns the new partition id.
    ///
    /// The partition gets a random identifier, see
    /// [`GptDisk::add_partition_with_guid`] for a chosen one.
    pub fn add_partition(
        &mut self,
        name: &str,
        size: u64,
        part_type: Type,
        flags: u64,
        part_alignment: Option<u64>,
    ) -> (r: Result<u32, GptError>)
        requires
            size > 0 ==> old(self)@.placement_in_range(size, part_alignment),
        ensures
            match r {
                Ok(id) => size > 0 && exists|part_guid: Guid|
                    #![trigger part_guid.is_random()]
                    part_guid.is_random() && partition_added(
                        old(self)@,
                        final(self)@,
                        id,
                        name@,
                        size,
                        part_type,
                        flags,
                        part_alignment,
                        part_guid,
                    ),
                Err(e) => final(self)@ == old(self)@ && if size == 0 {
                    e == GptError::Overflow("size must be greater than zero bytes")
                } else {
                    &&& e == GptError::NotEnoughSpace
                    &&& old(self)@.placement(size, part_alignment) is None
                },
            },
    {
        match self.find_place(size, part_alignment) {
            Ok(range) => Ok(self.store_partition(name, range, part_type, flags, random_guid())),
            Err(e) => Err(e),
        }
    }

    /// Add another partition to this disk as [`GptDisk::add_partition`] does,
    /// with the identifier `part_guid`.
    pub fn add_partition_with_guid(
        &mut self,
        name: &str,
        size: u64,
        part_type: Type,
        flags: u64,
        part_alignment: Option<u64>,
        part_guid: Guid,
    ) -> (r: Result<u32, GptError>)
        requires
            size > 0 ==> old(self)@.placement_in_range(size, part_alignment),
        ensures
            match r {
                Ok(id) => size > 0 && partition_added(
                    old(self)@,
                    final(self)@,
                    id,
                    name@,
                    size,
                    part_type,
                    flags,
                    part_alignment,
                    part_guid,
                ),
                Err(e) => final(self)@ == old(self)@ && if size == 0 {
                    e == GptError::Overflow("size must be greater than zero bytes")
                } else {
                    &&& e == GptError::NotEnoughSpace
                    &&& old(self)@.placement(size, part_alignment) is None
                },
            },
    {
        match self.find_place(size, part_alignment) {
            Ok(range) => Ok(self.store_partition(name, range, part_type, flags, part_guid)),
            Err(e) => Err(e),
        }
    }

    /// The first and last block of a new partition of `size` bytes.
    fn find_place(&self, size: u64, alignment: Option<u64>) -> (r: Result<(u64, u64), GptError>)
        requires
            size > 0 ==> self@.placement_in_range(size, alignment),
        ensures
            match r {
                Ok((first, last)) => {
                    &&& size > 0
                    &&& self@.placement(size, alignment) == Some(first)
                    &&& last == first + blocks_for(size, self@.config.lb_size) - 1
                },
                Err(e) => if size == 0 {
                    e == GptError::Overflow("size must be greater than zero bytes")
                } else {
                    &&& e == GptError::NotEnoughSpace
                    &&& self@.placement(size, alignment) is None
                },
            },
    {
        if size == 0 {
            return Err(GptError::Overflow("size must be greater than zero bytes"));
        }
        let header: &Header = match self.table_header() {
            Some(header) => header,
            None => return Err(GptError::NotEnoughSpace),
        };
        let blocks: u64 = block_count(size, *self.logical_block_size());
        let free: Vec<(u64, u64)> = free_rooms(header, &self.partitions);
        match place(&free, blocks, alignment) {
            Some(first) => Ok((first, first + blocks - 1)),
            None => Err(GptError::NotEnoughSpace),
        }
    }

    /// Puts a partition with the blocks `range` into the table, under the next
    /// number.
    fn store_partition(
        &mut self,
        name: &str,
        range: (u64, u64),
        part_type: Type,
        flags: u64,
        part_guid: Guid,
    ) -> (id: u32)
        requires
            next_id(old(self)@.partitions) <= u32::MAX,
        ensures
            id == next_id(old(self)@.partitions),
            final(self)@ == (DiskView {
                partitions: old(self)@.partitions.insert(id, final(self)@.partitions[id]),
                ..old(self)@
            }),
            final(self)@.partitions[id].part_type_guid == part_type,
            final(self)@.partitions[id].part_guid == part_guid,
            final(self)@.partitions[id].first_lba == range.0,
            final(self)@.partitions[id].last_lba == range.1,
            final(self)@.partitions[id].flags == flags,
            final(self)@.partitions[id].name@ == name@,
    {
        let id: u32 = self.find_next_partition_id();
        let partition = Partition {
            part_type_guid: part_type,
            part_guid,
            first_lba: range.0,
            last_lba: range.1,
            flags,
            name: name.to_owned(),
        };
        self.partitions.insert(id, partition);
        id
    }

    /// Remove a partition from this disk, found by its number (id) or by its
    /// identifier. Returns the partition id.
    ///
    /// Exactly one of the two is given. Where several partitions have the
    /// identifier, the one with the lowest number is removed; where none has it,
    /// nothing is removed and an error returned. A number need not be in the
    /// table.
    pub fn remove_partition(&mut self, id: Option<u32>, partguid: Option<Guid>) -> (r: Result<
        u32,
        std::io::Error,
    >)
        requires
            id is Some <==> partguid is None,
        ensures
            match r {
                Ok(removed) => {
                    &&& final(self)@ == (DiskView {
                        partitions: old(self)@.partitions.remove(removed),
                        ..old(self)@
                    })
                    &&& id matches Some(given) ==> removed == given
                    &&& partguid matches Some(guid) ==> {
                        &&& has_guid(old(self)@.partitions, removed, guid)
                        &&& forall|k: u32|
                            k < removed ==> !#[trigger] has_guid(old(self)@.partitions, k, guid)
                    }
                },
                Err(e) => {
                    &&& final(self)@ == old(self)@
                    &&& partguid matches Some(guid) && forall|k: u32|
                        !#[trigger] has_guid(old(self)@.partitions, k, guid)
                    &&& e == other_io_error("no partition has this identifier"@)
                },
            },
    {
        let removed: u32 = match id {
            Some(part_id) => part_id,
            None => match self.find_partition_by_guid(partguid.unwrap()) {
                Some(part_id) => part_id,
                None => {
                    let text: String = "no partition has this identifier".to_owned();
                    return Err(io_error_from_text(text));
                },
            },
        };
        self.partitions.remove(&removed);
        Ok(removed)
    }

    /// The lowest number of an entry with the identifier `guid`, if there is one.
    fn find_partition_by_guid(&self, guid: Guid) -> (r: Option<u32>)
        ensures
            match r {
                Some(id) => {
                    &&& has_guid(self@.partitions, id, guid)
                    &&& forall|k: u32|
                        k < id ==> !#[trigger] has_guid(self@.partitions, k, guid)
                },
                None => forall|k: u32| !#[trigger] has_guid(self@.partitions, k, guid),
            },
    {
        let ids: Vec<u32> = all_ids(&self.partitions);
        for n in 0..ids.len()
            invariant
                rising(ids@),
                forall|k: u32| ids@.contains(k) <==> self.partitions@.contains_key(k),
                forall|j: int|
                    0 <= j < n ==> !has_guid(self@.partitions, #[trigger] ids@[j], guid),
        {
            let key: u32 = ids[n];
            assert(ids@.contains(key));
            if self.partitions.get(&key).unwrap().part_guid == guid {
                assert forall|k: u32| k < key implies !#[trigger] has_guid(
                    self@.partitions,
                    k,
                    guid,
                ) by {
                    if self@.partitions.contains_key(k) {
                        assert(ids@.contains(k));
                    }
                }
                return Some(key);
            }
        }
        assert forall|k: u32| !#[trigger] has_guid(self@.partitions, k, guid) by {
            if self@.partitions.contains_key(k) {
                assert(ids@.contains(k));
            }
        }
        None
    }

    /// Retrieve partition entries.
    pub fn partitions(&self) -> (r: &BTreeMap<u32, Partition>)
        ensures
            r@ == self@.partitions,
    {
        &self.partitions
    }

    /// Retrieve disk UUID.
    pub fn guid(&self) -> (r: &Guid)
        ensures
            *r == self@.guid,
    {
        &self.guid
    }

    /// Retrieve disk logical block size.
    pub fn logical_block_size(&self) -> (r: &LogicalBlockSize)
        ensures
            *r == self@.config.lb_size,
    {
        self.config.block_size()
    }

    /// Change the disk device that we are reading/writing from/to.
    /// Returns the previous disk device.
    pub fn update_disk_device(&mut self, device: D, writable: bool) -> (r: D)
        ensures
            r == old(self)@.device,
            final(self)@ == (DiskView {
                device,
                config: ConfigView { writable, ..old(self)@.config },
                ..old(self)@
            }),
    {
        self.config.set_writable(writable);
        let mut other: D = device;
        std::mem::swap(&mut self.device, &mut other);
        other
    }

    /// Update disk UUID.
    ///
    /// If no UUID is specified, a new random one is generated.
    /// No changes are recorded to disk until the table is written.
    pub fn update_guid(&mut self, uuid: Option<Guid>) -> (r: &mut GptDisk<D>)
        ensures
            r@ == (DiskView { guid: r@.guid, ..old(self)@ }),
            match uuid {
                Some(guid) => r@.guid == guid,
                None => r@.guid.is_random(),
            },
            *final(self) == *final(r),
    {
        let guid: Guid = match uuid {
            Some(u) => u,
            None => random_guid(),
        };
        self.guid = guid;
        self
    }

    /// The number of entries that the partition array has, or is to have when
    /// there is no primary header yet.
    fn header_num_parts(&self, partitions_len: usize) -> (r: u32)
        ensures
            r == self@.num_parts_for(partitions_len as nat),
    {
        match self.primary_header.as_ref() {
            Some(header) => header.num_parts,
            None => {
                let len: u64 = partitions_len as u64;
                assert(len as u32 == len % 0x1_0000_0000) by (bit_vector);
                #[verifier::truncate]
                (len as u32)
            },
        }
    }

    /// Replaces the table and the headers.
    fn install_table(
        &mut self,
        pp: BTreeMap<u32, Partition>,
        primary: Header,
        backup: Option<Header>,
    )
        ensures
            final(self)@ == old(self)@.with_table(pp@, primary, backup),
    {
        self.primary_header = Some(primary);
        self.backup_header = backup;
        self.partitions = pp;
        self.config.set_initialized();
    }

    /// Builds both headers, the primary one first. The backup one is not built
    /// where the primary one cannot be.
    fn build_headers<F: Fn(HeaderRequest) -> Result<Header, HeaderError>>(
        &self,
        num_parts: u32,
        backup_lba: u64,
        build: &F,
    ) -> (r: Result<(Header, Header), HeaderError>)
        requires
            forall|request: HeaderRequest| call_requires(*build, (request,)),
        ensures
            headers_built(*build, self@, num_parts, backup_lba, r),
    {
        let primary: Header = match build(self.request_primary(num_parts, backup_lba)) {
            Ok(header) => header,
            Err(e) => return Err(e),
        };
        match build(self.request_backup(num_parts, backup_lba)) {
            Ok(backup) => Ok((primary, backup)),
            Err(e) => Err(e),
        }
    }

    /// Update current partition table.
    ///
    /// `bak` is the block of the backup header as the device tells it, `build`
    /// builds a header. Where one of them fails the disk stays as it was.
    /// No changes are recorded to disk until the table is written.
    pub fn update_partitions<F: Fn(HeaderRequest) -> Result<Header, HeaderError>>(
        &mut self,
        pp: BTreeMap<u32, Partition>,
        bak: Result<u64, GptError>,
        build: F,
    ) -> (r: Result<&mut GptDisk<D>, GptError>)
        requires
            forall|request: HeaderRequest| call_requires(build, (request,)),
        ensures
            match bak {
                Err(e) => r matches Err(got) && got == e && final(self)@ == old(self)@,
                Ok(lba) => exists|outcome: Result<(Header, Header), HeaderError>|
                    {
                        &&& #[trigger] headers_built(
                            build,
                            old(self)@,
                            old(self)@.num_parts_for(pp@.len()),
                            lba,
                            outcome,
                        )
                        &&& match outcome {
                            Err(e) => {
                                &&& r matches Err(got) && got == GptError::Header(e)
                                &&& final(self)@ == old(self)@
                            },
                            Ok((primary, backup)) => r matches Ok(updated) && {
                                &&& updated@ == old(self)@.with_table(pp@, primary, Some(backup))
                                &&& *final(self) == *final(updated)
                            },
                        }
                    },
            },
    {
        let lba: u64 = match bak {
            Ok(lba) => lba,
            Err(e) => return Err(e),
        };
        let num_parts: u32 = self.header_num_parts(pp.len());
        let built = self.build_headers(num_parts, lba, &build);
        assert(headers_built(
            build,
            old(self)@,
            old(self)@.num_parts_for(pp@.len()),
            lba,
            built,
        ));
        match built {
            Ok((primary, backup)) => {
                self.install_table(pp, primary, Some(backup));
                Ok(self)
            },
            Err(e) => Err(GptError::from(e)),
        }
    }

    /// Update current partition table without touching backups: the disk has no
    /// backup header afterwards, so that none is written.
    ///
    /// `bak` is the block of the backup header as the device tells it, `build`
    /// builds a header. Where one of them fails the disk stays as it was.
    /// No changes are recorded to disk until the table is written.
    pub fn update_partitions_safe<F: Fn(HeaderRequest) -> Result<Header, HeaderError>>(
        &mut self,
        pp: BTreeMap<u32, Partition>,
        bak: Result<u64, GptError>,
        build: F,
    ) -> (r: Result<&mut GptDisk<D>, GptError>)
        requires
            forall|request: HeaderRequest| call_requires(build, (request,)),
        ensures
            match bak {
                Err(e) => r matches Err(got) && got == e && final(self)@ == old(self)@,
                Ok(lba) => exists|outcome: Result<Header, HeaderError>|
                    {
                        &&& #[trigger] call_ensures(
                            build,
                            (old(self)@.primary_request(
                                old(self)@.num_parts_for(pp@.len()),
                                lba,
                            ),),
                            outcome,
                        )
                        &&& match outcome {
                            Err(e) => {
                                &&& r matches Err(got) && got == build_failure(e)
                                &&& final(self)@ == old(self)@
                            },
                            Ok(primary) => r matches Ok(updated) && {
                                &&& updated@ == old(self)@.with_table(pp@, primary, None)
                                &&& *final(self) == *final(updated)
                            },
                        }
                    },
            },
    {
        let lba: u64 = match bak {
            Ok(lba) => lba,
            Err(e) => return Err(e),
        };
        let num_parts: u32 = self.header_num_parts(pp.len());
        match build(self.request_primary(num_parts, lba)) {
            Ok(primary) => {
                self.install_table(pp, primary, None);
                Ok(self)
            },
            Err(e) => Err(GptError::from(io_error_from_text(e.text))),
        }
    }

    /// Update current partition table.
    /// Allows for changing the partition count, use with caution.
    /// No changes are recorded to disk until the table is written.
    ///
    /// At least 128 entries are always asked for. `bak` is the block of the
    /// backup header as the device tells it, `build` builds a header. Where one
    /// of them fails the disk stays as it was.
    pub fn update_partitions_embedded<F: Fn(HeaderRequest) -> Result<Header, HeaderError>>(
        &mut self,
        pp: BTreeMap<u32, Partition>,
        num_parts: u32,
        bak: Result<u64, GptError>,
        build: F,
    ) -> (r: Result<&mut GptDisk<D>, GptError>)
        requires
            forall|request: HeaderRequest| call_requires(build, (request,)),
        ensures
            match bak {
                Err(e) => r matches Err(got) && got == e && final(self)@ == old(self)@,
                Ok(lba) => exists|outcome: Result<(Header, Header), HeaderError>|
                    {
                        &&& #[trigger] headers_built(
                            build,
                            old(self)@,
                            at_least_min_parts(num_parts),
                            lba,
                            outcome,
                        )
                        &&& match outcome {
                            Err(e) => {
                                &&& r matches Err(got) && got == build_failure(e)
                                &&& final(self)@ == old(self)@
                            },
                            Ok((primary, backup)) => r matches Ok(updated) && {
                                &&& updated@ == old(self)@.with_table(pp@, primary, Some(backup))
                                &&& *final(self) == *final(updated)
                            },
                        }
                    },
            },
    {
        let lba: u64 = match bak {
            Ok(lba) => lba,
            Err(e) => return Err(e),
        };
        let entries: u32 = if num_parts < MIN_NUM_PARTS {
            MIN_NUM_PARTS
        } else {
            num_parts
        };
        let built = self.build_headers(entries, lba, &build);
        assert(headers_built(build, old(self)@, at_least_min_parts(num_parts), lba, built));
        match built {
            Ok((primary, backup)) => {
                self.install_table(pp, primary, Some(backup));
                Ok(self)
            },
            Err(e) => Err(GptError::from(io_error_from_text(e.text))),
        }
    }

    /// What a new primary header is built from.
    fn request_primary(&self, num_parts: u32, backup_lba: u64) -> (r: HeaderRequest)
        ensures
            r == self@.primary_request(num_parts, backup_lba),
    {
        HeaderRequest {
            base: self.primary_header,
            num_parts,
            backup_lba,
            disk_guid: self.guid,
            primary: true,
            lb_size: *self.config.block_size(),
        }
    }

    /// What a new backup header is built from.
    fn request_backup(&self, num_parts: u32, backup_lba: u64) -> (r: HeaderRequest)
        ensures
            r == self@.backup_request(num_parts, backup_lba),
    {
        HeaderRequest {
            base: self.backup_header,
            num_parts,
            backup_lba,
            disk_guid: self.guid,
            primary: false,
            lb_size: *self.config.block_size(),
        }
    }

    /// Take the underlying device object and force
    /// self to drop out of scope.
    ///
    /// Caution: this will abandon any changes that where not written.
    pub fn take_device(self) -> (r: D)
        ensures
            r == self@.device,
    {
        self.device
    }

    /// Find free space on the disk.
    /// Returns tuples of (starting_lba, length in lba's).
    pub fn find_free_sectors(&self) -> (r: Vec<(u64, u64)>)
        requires
            self@.free_in_range(),
        ensures
            r@ == self@.free(),
    {
        match self.table_header() {
            Some(header) => free_sections(header, &self.partitions),
            None => Vec::new(),
        }
    }

    /// Find next highest partition id: the lowest number from one on that the
    /// table lacks below the highest one in use, else the one after it. With no
    /// partition in use it is one.
    pub fn find_next_partition_id(&self) -> (r: u32)
        requires
            next_id(self@.partitions) <= u32::MAX,
        ensures
            r == next_id(self@.partitions),
    {
        self.checked_next_partition_id().unwrap()
    }

    /// The next highest partition id, unless the number after the highest one
    /// in use is wanted and does not exist.
    pub fn checked_next_partition_id(&self) -> (r: Option<u32>)
        ensures
            match r {
                Some(id) => id == next_id(self@.partitions),
                None => next_id(self@.partitions) > u32::MAX,
            },
    {
        let used: Vec<u32> = list_used_ids(&self.partitions);
        if used.len() == 0 {
            return Some(1);
        }
        let max: u32 = used[used.len() - 1];
        let mut i: u32 = 1;
        while i < max
            invariant
                i >= 1,
                next_id(self@.partitions) == lowest_free_id(self@.partitions, i as int, max as int),
            decreases max - i,
        {
            if self.partitions.get(&i).is_none() {
                return Some(i);
            }
            i = i + 1;
        }
        max.checked_add(1)
    }

    /// Whether the free stretches can be told in numbers of 64 bits, which
    /// [`GptDisk::find_free_sectors`] asks for.
    pub fn is_free_in_range(&self) -> (r: bool)
        ensures
            r == self@.free_in_range(),
    {
        match self.table_header() {
            Some(header) => are_sections_in_range(header, &self.partitions),
            None => true,
        }
    }

    /// Whether a partition of `size` bytes can be looked room for in numbers of
    /// 64 bits, which [`GptDisk::add_partition`] asks for.
    pub fn is_placement_in_range(&self, size: u64, alignment: Option<u64>) -> (r: bool)
        requires
            size > 0,
        ensures
            r == self@.placement_in_range(size, alignment),
    {
        if !self.is_free_in_range() {
            return false;
        }
        let header: &Header = match self.table_header() {
            Some(header) => header,
            None => return true,
        };
        if let Some(a) = alignment {
            if a == 0 {
                return false;
            }
        }
        let blocks: u64 = block_count(size, *self.logical_block_size());
        let free: Vec<(u64, u64)> = free_rooms(header, &self.partitions);
        is_search_in_range(&free, blocks, alignment) && (place(&free, blocks, alignment).is_none()
            || self.checked_next_partition_id().is_some())
    }

    /// The header that tells which blocks may be used: the primary one, else the
    /// backup.
    fn table_header(&self) -> (r: Option<&Header>)
        ensures
            match r {
                Some(header) => self@.table_header() == Some(*header),
                None => self@.table_header() is None,
            },
    {
        match self.primary_header() {
            Some(header) => Some(header),
            None => self.backup_header(),
        }
    }

    /// Retrieve primary header, if any.
    pub fn primary_header(&self) -> (r: Option<&Header>)
        ensures
            match r {
                Some(header) => self@.primary_header == Some(*header),
                None => self@.primary_header is None,
            },
    {
        self.primary_header.as_ref()
    }

    /// Retrieve backup header, if any.
    pub fn backup_header(&self) -> (r: Option<&Header>)
        ensures
            match r {
                Some(header) => self@.backup_header == Some(*header),
                None => self@.backup_header is None,
            },
    {
        self.backup_header.as_ref()
    }
}

} // verus!

use gpt::disk::LogicalBlockSize;
use gpt::guid::Guid;
use gpt::header::{Header, HeaderError, HeaderRequest};
use gpt::layout::{
    are_sections_in_range, block_count, free_rooms, free_sections, is_search_in_range, place,
};
use gpt::partition::Partition;
use gpt::partition_types::Type;
use gpt::{GptConfig, GptDisk, GptError};
use std::cell::RefCell;
use std::collections::BTreeMap;

const LINUX_FS: Type = Type { guid: Guid { value: 0x0FC63DAF_8483_4772_8E79_3D69D8477DE4 } };
const BASIC: Type = Type { guid: Guid { value: 0xEBD0A0A2_B9E5_4433_87C0_68B6B72699C7 } };
const UNUSED: Type = Type { guid: Guid { value: 0 } };

fn header(first_usable: u64, last_usable: u64) -> Header {
    Header {
        revision: 0x10000,
        header_size: 92,
        crc32: 0,
        current_lba: 1,
        backup_lba: 127,
        first_usable,
        last_usable,
        disk_guid: Guid { value: 1 },
        part_start: 2,
        num_parts: 128,
        part_size: 128,
        crc32_parts: 0,
    }
}

fn partition(part_type_guid: Type, part_guid: u128, first_lba: u64, last_lba: u64) -> Partition {
    Partition {
        part_type_guid,
        part_guid: Guid { value: part_guid },
        first_lba,
        last_lba,
        flags: 0,
        name: String::new(),
    }
}

fn blank() -> GptDisk<&'static str> {
    GptConfig::new()
        .initialized(false)
        .writable(true)
        .create_from_device("device", Some(Guid { value: 99 }))
        .unwrap()
}

fn disk_with(
    first_usable: u64,
    last_usable: u64,
    table: BTreeMap<u32, Partition>,
) -> GptDisk<&'static str> {
    let mut disk = blank();
    disk.update_partitions(table, Ok(127), |_request| Ok(header(first_usable, last_usable)))
        .unwrap();
    disk
}

fn entries(list: &[(u32, Partition)]) -> BTreeMap<u32, Partition> {
    let mut table = BTreeMap::new();
    for (id, p) in list {
        table.insert(*id, p.clone());
    }
    table
}

#[test]
fn partitions_in_a_small_memory_disk() {
    let mut disk = GptConfig::default()
        .initialized(false)
        .writable(true)
        .logical_block_size(LogicalBlockSize::Lb512)
        .create_from_device("memory", None)
        .unwrap();
    disk.update_partitions(BTreeMap::new(), Ok(127), |_request| Ok(header(34, 94))).unwrap();
    assert!(disk.primary_header().is_some());
    assert!(disk.backup_header().is_some());
    assert_eq!(disk.add_partition("test1", 1024 * 12, BASIC, 0, None).unwrap(), 1);
    assert_eq!(disk.add_partition("test2", 1024 * 18, LINUX_FS, 0, None).unwrap(), 2);
    let one = &disk.partitions()[&1];
    let two = &disk.partitions()[&2];
    assert_eq!((one.first_lba, one.last_lba), (34, 57));
    assert_eq!((two.first_lba, two.last_lba), (58, 93));
    assert_eq!(one.name, "test1");
    assert_eq!(one.part_type_guid, BASIC);
    assert_eq!(two.part_type_guid, LINUX_FS);
    assert_ne!(one.part_guid, two.part_guid);
    assert_eq!((one.part_guid.value >> 76) & 0xf, 4);
    assert_eq!((one.part_guid.value >> 62) & 0x3, 2);
}

#[test]
fn added_partition_has_what_was_asked_for() {
    let mut disk = disk_with(34, 94, BTreeMap::new());
    let id = disk
        .add_partition_with_guid("name", 513, LINUX_FS, 7, None, Guid { value: 1234 })
        .unwrap();
    let p = &disk.partitions()[&id];
    assert_eq!(p.name, "name");
    assert_eq!(p.flags, 7);
    assert_eq!(p.part_guid, Guid { value: 1234 });
    assert_eq!(p.part_type_guid, LINUX_FS);
    assert_eq!((p.first_lba, p.last_lba), (34, 35));
    assert!(p.is_used());
}

#[test]
fn size_zero_is_refused() {
    let mut disk = disk_with(34, 94, BTreeMap::new());
    match disk.add_partition("none", 0, LINUX_FS, 0, None) {
        Err(GptError::Overflow(text)) => assert_eq!(text, "size must be greater than zero bytes"),
        _ => panic!("a size of zero should be refused"),
    }
    assert!(disk.partitions().is_empty());
}

#[test]
fn full_disk_has_no_room() {
    let mut disk = disk_with(34, 94, BTreeMap::new());
    assert!(matches!(
        disk.add_partition("large", 62 * 512, LINUX_FS, 0, None),
        Err(GptError::NotEnoughSpace)
    ));
    assert_eq!(disk.add_partition("all", 61 * 512, LINUX_FS, 0, None).unwrap(), 1);
    assert_eq!(disk.partitions()[&1].last_lba, 94);
}

#[test]
fn no_header_means_no_room() {
    let mut disk = blank();
    assert!(matches!(
        disk.add_partition("any", 512, LINUX_FS, 0, Some(0)),
        Err(GptError::NotEnoughSpace)
    ));
}

#[test]
fn partitions_start_at_aligned_blocks() {
    let mut disk = disk_with(34, 10000, BTreeMap::new());
    let one = disk.add_partition("one", 512, LINUX_FS, 0, Some(2048)).unwrap();
    let two = disk.add_partition("two", 512 * 3, LINUX_FS, 0, Some(2048)).unwrap();
    let three = disk.add_partition("three", 512, LINUX_FS, 0, Some(1)).unwrap();
    assert_eq!((disk.partitions()[&one].first_lba, disk.partitions()[&one].last_lba), (2048, 2048));
    assert_eq!((disk.partitions()[&two].first_lba, disk.partitions()[&two].last_lba), (4096, 4098));
    assert_eq!(disk.partitions()[&three].first_lba, 34);
}

#[test]
fn lowest_gap_with_room_is_taken() {
    let mut disk = disk_with(
        34,
        200,
        entries(&[(1, partition(LINUX_FS, 1, 40, 49)), (2, partition(LINUX_FS, 2, 80, 89))]),
    );
    assert_eq!(disk.find_free_sectors(), vec![(34, 6), (50, 30), (90, 110)]);
    let id = disk.add_partition("mid", 512 * 20, LINUX_FS, 0, None).unwrap();
    assert_eq!(id, 3);
    assert_eq!(disk.partitions()[&id].first_lba, 50);
    assert_eq!(disk.partitions()[&id].last_lba, 69);
}

#[test]
fn free_sectors_ignore_unused_entries() {
    let table = entries(&[
        (5, partition(UNUSED, 1, 40, 49)),
        (1, partition(BASIC, 2, 60, 69)),
        (9, partition(LINUX_FS, 3, 50, 59)),
    ]);
    assert_eq!(free_sections(&header(34, 94), &table), vec![(34, 16), (60, 0), (70, 24)]);
}

#[test]
fn free_sectors_start_behind_a_lone_first_block() {
    let table = entries(&[(1, partition(LINUX_FS, 1, 34, 34))]);
    assert_eq!(free_sections(&header(34, 94), &table), vec![(34, 0), (35, 59)]);
    let mut disk = disk_with(34, 94, table);
    assert_eq!(disk.add_partition("next", 512, LINUX_FS, 0, None).unwrap(), 2);
    assert_eq!((disk.partitions()[&2].first_lba, disk.partitions()[&2].last_lba), (35, 35));
}

#[test]
fn free_sectors_at_the_edges() {
    let before = entries(&[(1, partition(LINUX_FS, 1, 10, 20))]);
    assert_eq!(free_sections(&header(34, 94), &before)[1], (34, 60));
    let single = entries(&[(1, partition(LINUX_FS, 1, 34, 34))]);
    assert_eq!(free_sections(&header(34, 34), &single), vec![(34, 0), (34, 0)]);
    let mut disk = disk_with(34, 34, single);
    assert!(matches!(
        disk.add_partition("none", 512, LINUX_FS, 0, None),
        Err(GptError::NotEnoughSpace)
    ));
    let last = u64::MAX;
    let full = entries(&[(1, partition(LINUX_FS, 1, last, last))]);
    assert_eq!(free_sections(&header(last, last), &full), vec![(last, 0), (last, 0)]);
}

#[test]
fn room_takes_the_last_usable_block() {
    let table = entries(&[(1, partition(LINUX_FS, 1, 40, 49))]);
    assert_eq!(free_rooms(&header(34, 94), &table), vec![(34, 6), (50, 45)]);
    let full = entries(&[(1, partition(LINUX_FS, 1, 40, 94))]);
    assert_eq!(free_rooms(&header(34, 94), &full), vec![(34, 6), (95, 0)]);
}

#[test]
fn all_usable_blocks_are_taken_before_a_partition_behind_them() {
    for behind in [95u64, 100] {
        let mut disk = disk_with(34, 94, entries(&[(1, partition(LINUX_FS, 1, behind, 200))]));
        let id = disk.add_partition("all", 61 * 512, LINUX_FS, 0, None).unwrap();
        assert_eq!((disk.partitions()[&id].first_lba, disk.partitions()[&id].last_lba), (34, 94));
    }
}

#[test]
fn usable_blocks_the_wrong_way_round() {
    let mut disk = disk_with(94, 34, BTreeMap::new());
    assert_eq!(disk.find_free_sectors(), vec![(35, 59)]);
    assert!(matches!(
        disk.add_partition("large", 61 * 512, LINUX_FS, 0, None),
        Err(GptError::NotEnoughSpace)
    ));
    let id = disk.add_partition("all", 60 * 512, LINUX_FS, 0, None).unwrap();
    assert_eq!((disk.partitions()[&id].first_lba, disk.partitions()[&id].last_lba), (35, 94));
}

#[test]
fn gap_that_is_too_short_is_skipped() {
    let mut disk = disk_with(
        34,
        94,
        entries(&[(1, partition(LINUX_FS, 1, 40, 49)), (2, partition(LINUX_FS, 2, 60, 69))]),
    );
    assert_eq!(disk.add_partition("y", 11 * 512, LINUX_FS, 0, None).unwrap(), 3);
    assert_eq!((disk.partitions()[&3].first_lba, disk.partitions()[&3].last_lba), (70, 80));
    assert_eq!(disk.add_partition("z", 10 * 512, LINUX_FS, 0, None).unwrap(), 4);
    assert_eq!((disk.partitions()[&4].first_lba, disk.partitions()[&4].last_lba), (50, 59));
}

#[test]
fn one_block_goes_behind_a_partition_at_the_start() {
    let mut disk = disk_with(34, 94, BTreeMap::new());
    assert_eq!(disk.add_partition("test1", 1024 * 12, BASIC, 0, None).unwrap(), 1);
    assert_eq!(disk.add_partition("one", 512, BASIC, 0, None).unwrap(), 2);
    assert_eq!((disk.partitions()[&2].first_lba, disk.partitions()[&2].last_lba), (58, 58));
}

#[test]
fn last_usable_block_is_taken_and_none_behind_it() {
    let mut disk = disk_with(34, 94, entries(&[(1, partition(LINUX_FS, 1, 34, 93))]));
    assert_eq!(disk.add_partition("last", 512, LINUX_FS, 0, None).unwrap(), 2);
    assert_eq!((disk.partitions()[&2].first_lba, disk.partitions()[&2].last_lba), (94, 94));
    assert!(matches!(
        disk.add_partition("none", 512, LINUX_FS, 0, None),
        Err(GptError::NotEnoughSpace)
    ));
}

#[test]
fn added_partitions_never_overlap() {
    for sizes in [[1u64, 1, 1, 1, 1], [3, 1, 20, 7, 30], [11, 10, 9, 1, 2]] {
        for alignment in [None, Some(1), Some(4), Some(7)] {
            let mut disk = disk_with(
                34,
                94,
                entries(&[
                    (1, partition(LINUX_FS, 1, 34, 34)),
                    (2, partition(LINUX_FS, 2, 45, 52)),
                ]),
            );
            for blocks in sizes {
                let _ = disk.add_partition("p", blocks * 512, LINUX_FS, 0, alignment);
            }
            let all: Vec<&Partition> = disk.partitions().values().collect();
            for (i, a) in all.iter().enumerate() {
                assert!(34 <= a.first_lba && a.first_lba <= a.last_lba && a.last_lba <= 94);
                for b in all.iter().skip(i + 1) {
                    assert!(a.last_lba < b.first_lba || b.last_lba < a.first_lba);
                }
            }
        }
    }
}

#[test]
fn place_and_block_count() {
    assert_eq!(block_count(1, LogicalBlockSize::Lb512), 1);
    assert_eq!(block_count(512, LogicalBlockSize::Lb512), 1);
    assert_eq!(block_count(513, LogicalBlockSize::Lb512), 2);
    assert_eq!(block_count(4097, LogicalBlockSize::Lb4096), 2);
    assert_eq!(block_count(u64::MAX, LogicalBlockSize::Lb512), 1 << 55);
    assert_eq!(place(&vec![(10, 4), (20, 30)], 5, None), Some(20));
    assert_eq!(place(&vec![(10, 5), (20, 30)], 5, None), Some(10));
    assert_eq!(place(&vec![(10, 4)], 5, None), None);
    assert_eq!(place(&vec![(10, 20)], 5, Some(8)), Some(16));
    assert_eq!(place(&vec![(16, 20)], 5, Some(8)), Some(16));
    assert_eq!(place(&Vec::new(), 5, Some(0)), None);
}

#[test]
fn next_id_fills_the_lowest_hole() {
    let used = |first: u64| partition(LINUX_FS, 1, first, first);
    let disk = disk_with(34, 94, entries(&[(1, used(40)), (2, used(41)), (5, used(42))]));
    assert_eq!(disk.find_next_partition_id(), 3);
    let disk = disk_with(34, 94, entries(&[(1, used(40)), (2, used(41))]));
    assert_eq!(disk.find_next_partition_id(), 3);
    let disk = disk_with(34, 94, entries(&[(0, used(40))]));
    assert_eq!(disk.find_next_partition_id(), 1);
    let disk = disk_with(34, 94, entries(&[(1, partition(UNUSED, 1, 0, 0))]));
    assert_eq!(disk.find_next_partition_id(), 1);
    let disk = disk_with(
        34,
        94,
        entries(&[(1, partition(UNUSED, 1, 0, 0)), (2, used(41))]),
    );
    assert_eq!(disk.find_next_partition_id(), 3);
}

#[test]
fn partitions_are_removed_by_number() {
    let mut disk = disk_with(34, 94, entries(&[(1, partition(LINUX_FS, 1, 40, 49))]));
    assert_eq!(disk.remove_partition(Some(7), None).unwrap(), 7);
    assert_eq!(disk.partitions().len(), 1);
    assert_eq!(disk.remove_partition(Some(1), None).unwrap(), 1);
    assert!(disk.partitions().is_empty());
}

#[test]
fn partitions_are_removed_by_identifier() {
    let mut disk = disk_with(
        34,
        94,
        entries(&[
            (4, partition(LINUX_FS, 11, 40, 49)),
            (2, partition(LINUX_FS, 12, 50, 59)),
            (3, partition(LINUX_FS, 11, 60, 69)),
        ]),
    );
    assert_eq!(disk.remove_partition(None, Some(Guid { value: 11 })).unwrap(), 3);
    assert_eq!(disk.partitions().len(), 2);
    assert!(disk.partitions().get(&3).is_none());
}

#[test]
fn unknown_identifier_removes_nothing() {
    let mut disk = disk_with(34, 94, entries(&[(1, partition(LINUX_FS, 1, 40, 49))]));
    let e = disk.remove_partition(None, Some(Guid { value: 9 })).unwrap_err();
    assert_eq!(e.kind(), std::io::ErrorKind::Other);
    assert_eq!(e.to_string(), "no partition has this identifier");
    assert_eq!(
        GptError::from(e).message(),
        "GPT IO Error: no partition has this identifier"
    );
    assert_eq!(disk.partitions().len(), 1);
}

#[test]
fn removing_undoes_adding() {
    let mut disk = disk_with(34, 94, entries(&[(1, partition(LINUX_FS, 1, 40, 49))]));
    let before = disk.find_free_sectors();
    let id = disk.add_partition("again", 512, LINUX_FS, 0, None).unwrap();
    assert_ne!(disk.find_free_sectors(), before);
    disk.remove_partition(Some(id), None).unwrap();
    assert_eq!(disk.find_free_sectors(), before);
    assert_eq!(disk.partitions().len(), 1);
}

#[test]
fn guid_is_replaced() {
    let mut disk = blank();
    disk.update_guid(Some(Guid { value: 5 }));
    assert_eq!(disk.guid(), &Guid { value: 5 });
    disk.update_guid(None);
    assert_eq!((disk.guid().value >> 76) & 0xf, 4);
    disk.update_guid(Some(Guid { value: 6 })).update_guid(Some(Guid { value: 7 }));
    assert_eq!(disk.guid(), &Guid { value: 7 });
}

#[test]
fn device_is_replaced() {
    let mut disk = blank();
    assert_eq!(disk.update_disk_device("other", false), "device");
    assert_eq!(*disk.device_mut(), "other");
    assert_eq!(disk.take_device(), "other");
}

#[test]
fn new_table_builds_both_headers() {
    let requests: RefCell<Vec<HeaderRequest>> = RefCell::new(Vec::new());
    let mut disk = blank();
    let table = entries(&[(1, partition(LINUX_FS, 1, 40, 49)), (2, partition(LINUX_FS, 2, 50, 59))]);
    disk.update_partitions(table, Ok(127), |request| {
        requests.borrow_mut().push(request);
        Ok(Header { part_start: if request.primary { 2 } else { 95 }, ..header(34, 94) })
    })
    .unwrap();
    let asked = requests.into_inner();
    let expected = HeaderRequest {
        base: None,
        num_parts: 2,
        backup_lba: 127,
        disk_guid: Guid { value: 99 },
        primary: true,
        lb_size: LogicalBlockSize::Lb512,
    };
    assert_eq!(asked, vec![expected, HeaderRequest { primary: false, ..expected }]);
    assert_eq!(disk.primary_header().unwrap().part_start, 2);
    assert_eq!(disk.backup_header().unwrap().part_start, 95);
    assert_eq!(disk.partitions().len(), 2);
}

#[test]
fn new_table_keeps_the_number_of_entries() {
    let requests: RefCell<Vec<HeaderRequest>> = RefCell::new(Vec::new());
    let mut disk = disk_with(34, 94, BTreeMap::new());
    disk.update_partitions(entries(&[(1, partition(LINUX_FS, 1, 40, 49))]), Ok(127), |request| {
        requests.borrow_mut().push(request);
        Ok(header(34, 94))
    })
    .unwrap();
    let asked = requests.into_inner();
    assert_eq!(asked[0].num_parts, 128);
    assert_eq!(asked[0].base, Some(header(34, 94)));
    assert_eq!(asked[1].num_parts, 128);
    assert_eq!(asked[1].base, Some(header(34, 94)));
}

#[test]
fn embedded_table_asks_for_at_least_128_entries() {
    for (wanted, expected) in [(4u32, 128u32), (128, 128), (256, 256)] {
        let requests: RefCell<Vec<HeaderRequest>> = RefCell::new(Vec::new());
        let mut disk = disk_with(34, 94, BTreeMap::new());
        disk.update_partitions_embedded(BTreeMap::new(), wanted, Ok(127), |request| {
            requests.borrow_mut().push(request);
            Ok(header(34, 94))
        })
        .unwrap();
        let asked = requests.into_inner();
        assert_eq!(asked.len(), 2);
        assert_eq!(asked[0].num_parts, expected);
        assert_eq!(asked[1].num_parts, expected);
    }
}

#[test]
fn safe_table_drops_the_backup_header() {
    let mut disk = disk_with(34, 94, BTreeMap::new());
    assert!(disk.backup_header().is_some());
    disk.update_partitions_safe(
        entries(&[(1, partition(LINUX_FS, 1, 40, 49))]),
        Ok(127),
        |_request| Ok(header(34, 94)),
    )
    .unwrap();
    assert!(disk.backup_header().is_none());
    assert_eq!(disk.primary_header(), Some(&header(34, 94)));
    assert_eq!(disk.partitions().len(), 1);
}

#[test]
fn failed_header_keeps_the_table() {
    let fail = |_request: HeaderRequest| -> Result<Header, HeaderError> {
        Err(HeaderError { text: "no room for a header".to_string() })
    };
    let mut disk = disk_with(34, 94, entries(&[(1, partition(LINUX_FS, 1, 40, 49))]));
    match disk.update_partitions(BTreeMap::new(), Ok(127), fail) {
        Err(e) => assert_eq!(e.message(), "GPT Header Error: no room for a header"),
        Ok(_) => panic!("the failure should be told"),
    }
    match disk.update_partitions_safe(BTreeMap::new(), Ok(127), fail) {
        Err(e) => assert_eq!(e.message(), "GPT IO Error: no room for a header"),
        Ok(_) => panic!("the failure should be told"),
    }
    match disk.update_partitions_embedded(BTreeMap::new(), 128, Ok(127), fail) {
        Err(GptError::Io(e)) => {
            assert_eq!(e.kind(), std::io::ErrorKind::Other);
            assert_eq!(e.to_string(), "no room for a header");
        }
        _ => panic!("the failure should be told as an I/O error"),
    }
    assert_eq!(disk.partitions().len(), 1);
    assert!(disk.backup_header().is_some());
}

#[test]
fn failed_backup_header_keeps_the_table() {
    let mut disk = blank();
    let r = disk.update_partitions(BTreeMap::new(), Ok(127), |request| {
        if request.primary {
            Ok(header(34, 94))
        } else {
            Err(HeaderError { text: "no backup".to_string() })
        }
    });
    assert!(matches!(r, Err(GptError::Header(_))));
    assert!(disk.primary_header().is_none());
}

#[test]
fn unknown_backup_place_keeps_the_table() {
    let mut disk = disk_with(34, 94, entries(&[(1, partition(LINUX_FS, 1, 40, 49))]));
    let r = disk.update_partitions(BTreeMap::new(), Err(GptError::NotEnoughSpace), |_request| {
        panic!("no header should be built")
    });
    assert!(matches!(r, Err(GptError::NotEnoughSpace)));
    assert_eq!(disk.partitions().len(), 1);
}

#[test]
fn largest_number_leaves_lower_ones_free() {
    let disk = disk_with(34, 94, entries(&[(u32::MAX, partition(LINUX_FS, 1, 40, 40))]));
    assert_eq!(disk.checked_next_partition_id(), Some(1));
    assert_eq!(disk.find_next_partition_id(), 1);
}

#[test]
fn every_free_block_is_in_a_stretch() {
    let table = entries(&[
        (1, partition(LINUX_FS, 1, 34, 39)),
        (2, partition(LINUX_FS, 2, 45, 45)),
        (3, partition(LINUX_FS, 3, 50, 60)),
    ]);
    let free = free_sections(&header(34, 70), &table);
    for lba in 34..70u64 {
        let taken = table.values().any(|p| p.first_lba <= lba && lba <= p.last_lba);
        let found = free.iter().any(|f| f.0 <= lba && lba < f.0 + f.1);
        assert_eq!(found, !taken);
    }
}

#[test]
fn block_numbers_that_do_not_exist_are_told() {
    let disk = disk_with(34, 94, BTreeMap::new());
    assert!(disk.is_free_in_range());
    assert!(disk.is_placement_in_range(512, None));
    assert!(disk.is_placement_in_range(512, Some(2048)));
    assert!(!disk.is_placement_in_range(512, Some(0)));
    assert!(blank().is_placement_in_range(512, Some(0)));
    let last = u64::MAX;
    let disk = disk_with(34, last, entries(&[(1, partition(LINUX_FS, 1, 40, last))]));
    assert!(!disk.is_free_in_range());
    assert!(!disk.is_placement_in_range(512, None));
    assert!(!are_sections_in_range(&header(34, last), disk.partitions()));
    assert!(are_sections_in_range(&header(last, last), disk.partitions()));
    assert!(!is_search_in_range(&vec![(last - 1, 2)], 2, None));
    assert!(is_search_in_range(&vec![(last - 2, 2)], 2, None));
    assert!(is_search_in_range(&vec![(last - 1, 1)], 2, None));
    assert!(!is_search_in_range(&vec![(1, 5)], 2, Some(last)));
}

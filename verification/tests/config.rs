use gpt::disk::{LogicalBlockSize, DEFAULT_SECTOR_SIZE};
use gpt::guid::Guid;
use gpt::header::Header;
use gpt::open::{OpenMode, OpenStep, ReadRequest};
use gpt::partition::Partition;
use gpt::partition_types::Type;
use gpt::{GptConfig, GptError};
use std::collections::BTreeMap;

fn header(disk_guid: u128) -> Header {
    Header {
        revision: 0x10000,
        header_size: 92,
        crc32: 0,
        current_lba: 1,
        backup_lba: 127,
        first_usable: 34,
        last_usable: 94,
        disk_guid: Guid { value: disk_guid },
        part_start: 2,
        num_parts: 128,
        part_size: 128,
        crc32_parts: 0,
    }
}

fn io_error(text: &str) -> GptError {
    GptError::from(std::io::Error::new(std::io::ErrorKind::Other, text.to_string()))
}

fn is_version_four(guid: &Guid) -> bool {
    (guid.value >> 76) & 0xf == 4 && (guid.value >> 62) & 0x3 == 2
}

#[test]
fn new_is_the_default_configuration() {
    assert_eq!(GptConfig::new(), GptConfig::default());
    assert_eq!(DEFAULT_SECTOR_SIZE, LogicalBlockSize::Lb512);
    assert_eq!(GptConfig::new().open_mode(), OpenMode { read: true, write: false });
}

#[test]
fn options_are_set_independently() {
    let one = GptConfig::new().writable(true).initialized(false);
    let other = GptConfig::new().initialized(false).writable(true);
    assert_eq!(one, other);
    assert_ne!(one, GptConfig::new().writable(true));
    assert_ne!(
        GptConfig::new(),
        GptConfig::new().logical_block_size(LogicalBlockSize::Lb4096)
    );
    assert_eq!(one.open_mode(), OpenMode { read: true, write: true });
}

#[test]
fn block_sizes_in_bytes() {
    assert_eq!(u64::from(LogicalBlockSize::Lb512), 512);
    assert_eq!(u64::from(LogicalBlockSize::Lb4096), 4096);
}

#[test]
fn creating_on_an_initialized_disk_is_refused() {
    let r = GptConfig::new().create_from_device("device", None);
    assert!(matches!(r, Err(GptError::CreatingInitializedDisk)));
}

#[test]
fn created_disk_is_blank() {
    let disk = GptConfig::new()
        .initialized(false)
        .logical_block_size(LogicalBlockSize::Lb4096)
        .create_from_device("device", Some(Guid { value: 77 }))
        .unwrap();
    assert_eq!(disk.guid(), &Guid { value: 77 });
    assert_eq!(disk.logical_block_size(), &LogicalBlockSize::Lb4096);
    assert!(disk.primary_header().is_none());
    assert!(disk.backup_header().is_none());
    assert!(disk.partitions().is_empty());
    assert!(disk.find_free_sectors().is_empty());
    assert_eq!(disk.find_next_partition_id(), 1);
    assert_eq!(disk.take_device(), "device");
}

#[test]
fn created_disk_without_guid_gets_a_random_one() {
    let one = GptConfig::new().initialized(false).create_from_device(0u8, None).unwrap();
    let two = GptConfig::new().initialized(false).create_from_device(0u8, None).unwrap();
    assert!(is_version_four(one.guid()));
    assert!(is_version_four(two.guid()));
    assert_ne!(one.guid(), two.guid());
}

#[test]
fn opening_an_uninitialized_disk_reads_nothing() {
    match GptConfig::new().initialized(false).open_from_device(9u8) {
        OpenStep::Done(Ok(disk)) => {
            assert!(is_version_four(disk.guid()));
            assert!(disk.primary_header().is_none());
            assert_eq!(disk.take_device(), 9);
        }
        _ => panic!("the disk should be there at once"),
    }
}

#[test]
fn opening_reads_headers_then_partitions() {
    let lb_size = LogicalBlockSize::Lb512;
    let session = match GptConfig::new().open_from_device(9u8) {
        OpenStep::Read(session) => session,
        _ => panic!("the primary header should be read"),
    };
    assert_eq!(session.request(), ReadRequest::PrimaryHeader { lb_size });
    let session = match session.on_header(Ok(header(5))) {
        OpenStep::Read(session) => session,
        _ => panic!("the backup header should be read"),
    };
    assert_eq!(session.request(), ReadRequest::BackupHeader { lb_size });
    let mut session = match session.on_header(Ok(header(6))) {
        OpenStep::Read(session) => session,
        _ => panic!("the partitions should be read"),
    };
    assert_eq!(session.request(), ReadRequest::Partitions { header: header(5), lb_size });
    assert_eq!(*session.device_mut(), 9);
    let mut table = BTreeMap::new();
    table.insert(
        3,
        Partition {
            part_type_guid: Type { guid: Guid { value: 1 } },
            part_guid: Guid { value: 2 },
            first_lba: 40,
            last_lba: 50,
            flags: 0,
            name: "three".to_string(),
        },
    );
    match session.on_partitions(Ok(table)) {
        OpenStep::Done(Ok(disk)) => {
            assert_eq!(disk.guid(), &Guid { value: 5 });
            assert_eq!(disk.primary_header(), Some(&header(5)));
            assert_eq!(disk.backup_header(), Some(&header(6)));
            assert_eq!(disk.partitions().len(), 1);
            assert_eq!(disk.partitions()[&3].name, "three");
        }
        _ => panic!("the disk should be open"),
    }
}

#[test]
fn opening_stops_at_the_first_failure() {
    let session = match GptConfig::new().open_from_device(9u8) {
        OpenStep::Read(session) => session,
        _ => panic!("the primary header should be read"),
    };
    match session.on_header(Err(io_error("unreadable"))) {
        OpenStep::Done(Err(e)) => assert_eq!(e.message(), "GPT IO Error: unreadable"),
        _ => panic!("the failure should end the opening"),
    }
}

#[test]
fn opening_fails_on_unreadable_partitions() {
    let session = match GptConfig::new().open_from_device(9u8) {
        OpenStep::Read(session) => session,
        _ => panic!("the primary header should be read"),
    };
    let session = match session.on_header(Ok(header(5))) {
        OpenStep::Read(session) => session,
        _ => panic!("the backup header should be read"),
    };
    let session = match session.on_header(Ok(header(5))) {
        OpenStep::Read(session) => session,
        _ => panic!("the partitions should be read"),
    };
    match session.on_partitions(Err(io_error("bad array"))) {
        OpenStep::Done(Err(e)) => assert_eq!(e.message(), "GPT IO Error: bad array"),
        _ => panic!("the failure should end the opening"),
    }
}

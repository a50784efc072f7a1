use gpt::disk::LogicalBlockSize;
use gpt::guid::Guid;
use gpt::header::Header;
use gpt::open::OpenStep;
use gpt::partition::Partition;
use gpt::partition_types::Type;
use gpt::write::{DeviceOp, WriteStep};
use gpt::{GptConfig, GptDisk, GptError};
use std::collections::BTreeMap;

fn header(part_start: u64, num_parts: u32) -> Header {
    Header {
        revision: 0x10000,
        header_size: 92,
        crc32: 0,
        current_lba: 1,
        backup_lba: 127,
        first_usable: 34,
        last_usable: 94,
        disk_guid: Guid { value: 1 },
        part_start,
        num_parts,
        part_size: 128,
        crc32_parts: 0,
    }
}

fn disk_with(primary: Header, backup: Option<Header>, ids: &[u32]) -> GptDisk<u8> {
    let mut disk = GptConfig::new()
        .initialized(false)
        .writable(true)
        .create_from_device(3u8, Some(Guid { value: 1 }))
        .unwrap();
    let mut table = BTreeMap::new();
    for id in ids {
        table.insert(
            *id,
            Partition {
                part_type_guid: Type { guid: Guid { value: if *id == 9 { 0 } else { 1 } } },
                part_guid: Guid { value: 1 },
                first_lba: 40 + *id as u64,
                last_lba: 40 + *id as u64,
                flags: 0,
                name: format!("p{}", id),
            },
        );
    }
    match backup {
        Some(backup) => disk
            .update_partitions(table, Ok(127), |request| {
                Ok(if request.primary { primary } else { backup })
            })
            .unwrap(),
        None => disk.update_partitions_safe(table, Ok(127), |_request| Ok(primary)).unwrap(),
    };
    disk
}

/// Performs all operations and tells them in short, with the outcome.
fn run(disk: &GptDisk<u8>, fail_at: Option<usize>) -> (Vec<String>, Result<(), GptError>) {
    let mut told = Vec::new();
    let mut step = disk.write_inplace();
    loop {
        let session = match step {
            WriteStep::Perform(session) => session,
            WriteStep::Done(outcome) => return (told, outcome),
        };
        let words = match session.next_op() {
            DeviceOp::FindBackupLba { .. } => "find".to_string(),
            DeviceOp::WriteEntry { partition, index, part_start, .. } => {
                format!("{}->{}:{}", partition.name, part_start, index)
            }
            DeviceOp::ZeroEntries { index, count, part_start, .. } => {
                format!("zero {}:{}+{}", part_start, index, count)
            }
            DeviceOp::WriteBackupHeader { header, .. } => format!("backup {}", header.part_start),
            DeviceOp::WritePrimaryHeader { header, .. } => format!("primary {}", header.part_start),
            DeviceOp::Flush => "flush".to_string(),
        };
        told.push(words);
        let reply = if fail_at == Some(told.len()) {
            Err(GptError::from(std::io::Error::new(std::io::ErrorKind::Other, "broken".to_string())))
        } else {
            Ok(())
        };
        step = session.on_performed(reply);
    }
}

#[test]
fn read_only_disk_is_not_written() {
    let mut disk = disk_with(header(2, 128), Some(header(95, 128)), &[1]);
    disk.update_disk_device(4, false);
    let (told, outcome) = run(&disk, None);
    assert!(told.is_empty());
    assert!(matches!(outcome, Err(GptError::ReadOnly)));
}

#[test]
fn uninitialized_disk_is_not_written() {
    let disk = GptConfig::new()
        .initialized(false)
        .writable(true)
        .create_from_device(3u8, None)
        .unwrap();
    let (told, outcome) = run(&disk, None);
    assert!(told.is_empty());
    assert!(matches!(outcome, Err(GptError::NotInitialized)));
}

#[test]
fn both_arrays_and_headers_are_written() {
    let disk = disk_with(header(2, 128), Some(header(95, 128)), &[5, 1, 9]);
    let (told, outcome) = run(&disk, None);
    assert_eq!(
        told,
        vec![
            "find",
            "p1->2:0",
            "p1->95:0",
            "p5->2:1",
            "p5->95:1",
            "zero 2:2+126",
            "zero 95:2+126",
            "backup 95",
            "primary 2",
            "flush",
        ]
    );
    assert!(outcome.is_ok());
}

#[test]
fn shared_array_is_written_once() {
    let disk = disk_with(header(2, 128), Some(header(2, 128)), &[1]);
    let (told, outcome) = run(&disk, None);
    assert_eq!(
        told,
        vec!["find", "p1->2:0", "zero 2:1+127", "zero 2:1+127", "backup 2", "primary 2", "flush"]
    );
    assert!(outcome.is_ok());
}

#[test]
fn without_backup_header_no_backup_is_written() {
    let disk = disk_with(header(2, 128), None, &[1]);
    let (told, outcome) = run(&disk, None);
    assert_eq!(told, vec!["find", "p1->2:0", "zero 2:1+127", "primary 2", "flush"]);
    assert!(outcome.is_ok());
}

#[test]
fn too_many_partitions_for_the_primary_array() {
    let disk = disk_with(header(2, 1), Some(header(95, 128)), &[1, 2]);
    let (told, outcome) = run(&disk, None);
    assert_eq!(told, vec!["find", "p1->2:0", "p1->95:0"]);
    assert!(matches!(outcome, Err(GptError::OverflowPartitionCount)));
}

#[test]
fn too_many_partitions_for_the_backup_array() {
    let disk = disk_with(header(2, 128), Some(header(95, 1)), &[1, 2]);
    let (told, outcome) = run(&disk, None);
    assert_eq!(told, vec!["find", "p1->2:0", "p1->95:0", "p2->2:1"]);
    assert!(matches!(outcome, Err(GptError::OverflowPartitionCount)));
}

#[test]
fn failing_operation_ends_the_write() {
    let disk = disk_with(header(2, 128), None, &[1]);
    let (told, outcome) = run(&disk, Some(2));
    assert_eq!(told, vec!["find", "p1->2:0"]);
    assert_eq!(outcome.unwrap_err().message(), "GPT IO Error: broken");
}

#[test]
fn operations_carry_the_block_size() {
    let disk = disk_with(header(2, 128), None, &[1]);
    match disk.write_inplace() {
        WriteStep::Perform(session) => match session.next_op() {
            DeviceOp::FindBackupLba { lb_size } => assert_eq!(*lb_size, LogicalBlockSize::Lb512),
            _ => panic!("the backup header should be looked for first"),
        },
        WriteStep::Done(_) => panic!("the disk should be written"),
    }
}

#[test]
fn writing_hands_out_the_device() {
    let disk = disk_with(header(2, 128), None, &[1]);
    assert_eq!(disk.write(Ok(())).unwrap(), 3);
    let disk = disk_with(header(2, 128), None, &[1]);
    assert!(matches!(disk.write(Err(GptError::ReadOnly)), Err(GptError::ReadOnly)));
}

/// The headers that a write hands out, the backup one first.
fn written_headers(disk: &GptDisk<u8>) -> Vec<Header> {
    let mut headers = Vec::new();
    let mut step = disk.write_inplace();
    loop {
        let session = match step {
            WriteStep::Perform(session) => session,
            WriteStep::Done(_) => return headers,
        };
        match session.next_op() {
            DeviceOp::WriteBackupHeader { header, .. } => headers.push(*header),
            DeviceOp::WritePrimaryHeader { header, .. } => headers.push(*header),
            _ => {}
        }
        step = session.on_performed(Ok(()));
    }
}

#[test]
fn new_identifier_is_written() {
    let mut disk = disk_with(header(2, 128), Some(header(95, 128)), &[1]);
    assert_eq!(written_headers(&disk), vec![header(95, 128), header(2, 128)]);
    disk.update_guid(Some(Guid { value: 77 }));
    let renamed = |h: Header| Header { disk_guid: Guid { value: 77 }, ..h };
    assert_eq!(
        written_headers(&disk),
        vec![renamed(header(95, 128)), renamed(header(2, 128))]
    );
    assert_eq!(disk.primary_header(), Some(&header(2, 128)));
}

#[test]
fn headers_keep_their_own_identifiers() {
    let other = Header { disk_guid: Guid { value: 2 }, ..header(95, 128) };
    let mut disk = disk_with(header(2, 128), Some(other), &[1]);
    assert_eq!(written_headers(&disk), vec![other, header(2, 128)]);
    disk.update_guid(Some(Guid { value: 77 }));
    assert_eq!(written_headers(&disk)[0].disk_guid, Guid { value: 77 });
    disk.update_guid(Some(Guid { value: 1 }));
    assert_eq!(written_headers(&disk), vec![other, header(2, 128)]);
}

#[test]
fn reopened_disk_has_what_was_written() {
    let mut disk = disk_with(header(2, 4), Some(header(95, 4)), &[3, 7, 9]);
    disk.update_guid(Some(Guid { value: 77 }));
    let mut slots: Vec<Option<Partition>> = vec![None, None, None, None];
    let mut headers = Vec::new();
    let mut step = disk.write_inplace();
    while let WriteStep::Perform(session) = step {
        match session.next_op() {
            DeviceOp::WriteEntry { partition, index, part_start: 2, .. } => {
                slots[*index as usize] = Some(partition.clone());
            }
            DeviceOp::ZeroEntries { index, count, part_start: 2, .. } => {
                for slot in *index..*index + *count {
                    slots[slot as usize] = None;
                }
            }
            DeviceOp::WriteBackupHeader { header, .. } => headers.push(*header),
            DeviceOp::WritePrimaryHeader { header, .. } => headers.push(*header),
            _ => {}
        }
        step = session.on_performed(Ok(()));
    }
    let mut table = BTreeMap::new();
    for (slot, entry) in slots.into_iter().enumerate() {
        if let Some(partition) = entry {
            table.insert(slot as u32 + 1, partition);
        }
    }
    let session = match GptConfig::new().open_from_device(3u8) {
        OpenStep::Read(session) => session,
        OpenStep::Done(_) => panic!("the primary header should be read"),
    };
    let session = match session.on_header(Ok(headers[1])) {
        OpenStep::Read(session) => session,
        OpenStep::Done(_) => panic!("the backup header should be read"),
    };
    let session = match session.on_header(Ok(headers[0])) {
        OpenStep::Read(session) => session,
        OpenStep::Done(_) => panic!("the partitions should be read"),
    };
    match session.on_partitions(Ok(table)) {
        OpenStep::Done(Ok(opened)) => {
            assert_eq!(opened.guid(), &Guid { value: 77 });
            let names: Vec<&str> = opened.partitions().values().map(|p| p.name.as_str()).collect();
            assert_eq!(names, vec!["p3", "p7"]);
        }
        _ => panic!("the disk should be open"),
    }
}

//! Opening a disk: what is read from the device, in which order, and what disk
//! comes of it.

use vstd::prelude::*;

use std::collections::BTreeMap;

use crate::config::{ConfigView, GptConfig};
use crate::disk::LogicalBlockSize;
use crate::error::GptError;
use crate::gpt_disk::{DiskView, GptDisk};
use crate::guid::{Guid, random_guid};
use crate::header::Header;
use crate::partition::Partition;

verus! {

/// How the file of a disk is to be opened.
#[derive(Clone, Copy, Debug, PartialEq, Eq, Structural)]
pub struct OpenMode {
    /// Open for reading.
    pub read: bool,
    /// Open for writing.
    pub write: bool,
}

/// What is to be read from the device next.
#[derive(Clone, Copy, Debug, PartialEq, Eq, Structural)]
pub enum ReadRequest {
    /// The primary header.
    PrimaryHeader {
        /// The block size of the disk.
        lb_size: LogicalBlockSize,
    },
    /// The backup header.
    BackupHeader {
        /// The block size of the disk.
        lb_size: LogicalBlockSize,
    },
    /// The partition array that a header tells of.
    Partitions {
        /// The header.
        header: Header,
        /// The block size of the disk.
        lb_size: LogicalBlockSize,
    },
}

/// A disk that is being opened: parts of its table are still to be read.
#[derive(Debug)]
pub struct OpenSession<D> {
    config: GptConfig,
    device: D,
    primary_header: Option<Header>,
    backup_header: Option<Header>,
}

/// What is known of a disk that is being opened.
#[verifier::ext_equal]
pub struct OpenView<D> {
    /// The configuration that the disk is opened with.
    pub config: ConfigView,
    /// The device.
    pub device: D,
    /// The primary header, once it is read.
    pub primary_header: Option<Header>,
    /// The backup header, once it is read.
    pub backup_header: Option<Header>,
}

/// How far the opening of a disk has come.
#[derive(Debug)]
pub enum OpenStep<D> {
    /// Something is to be read.
    Read(OpenSession<D>),
    /// The disk is open, or cannot be opened.
    Done(Result<GptDisk<D>, GptError>),
}

impl<D> View for OpenSession<D> {
    type V = OpenView<D>;

    closed spec fn view(&self) -> OpenView<D> {
        OpenView {
            config: self.config@,
            device: self.device,
            primary_header: self.primary_header,
            backup_header: self.backup_header,
        }
    }
}

impl<D> OpenView<D> {
    /// The headers are read in order.
    pub open spec fn valid(self) -> bool {
        self.backup_header is Some ==> self.primary_header is Some
    }

    /// What is to be read next: the primary header, then the backup header, then
    /// the partitions by the primary header.
    pub open spec fn request(self) -> ReadRequest {
        match self.primary_header {
            None => ReadRequest::PrimaryHeader { lb_size: self.config.lb_size },
            Some(header) => if self.backup_header is None {
                ReadRequest::BackupHeader { lb_size: self.config.lb_size }
            } else {
                ReadRequest::Partitions { header, lb_size: self.config.lb_size }
            },
        }
    }

    /// What is known after one more header.
    pub open spec fn with_header(self, header: Header) -> OpenView<D> {
        if self.primary_header is None {
            OpenView { primary_header: Some(header), ..self }
        } else {
            OpenView { backup_header: Some(header), ..self }
        }
    }

    /// The disk once the partitions are read too. The primary header tells the
    /// identifier of the disk.
    pub open spec fn opened(self, partitions: Map<u32, Partition>) -> DiskView<D> {
        DiskView {
            config: self.config,
            device: self.device,
            guid: self.primary_header->0.disk_guid,
            primary_header: self.primary_header,
            backup_header: self.backup_header,
            partitions,
        }
    }
}

impl<D> OpenSession<D> {
    /// What is to be read next.
    pub fn request(&self) -> (r: ReadRequest)
        ensures
            r == self@.request(),
    {
        let lb_size: LogicalBlockSize = *self.config.block_size();
        match self.primary_header {
            None => ReadRequest::PrimaryHeader { lb_size },
            Some(header) => match self.backup_header {
                None => ReadRequest::BackupHeader { lb_size },
                Some(_) => ReadRequest::Partitions { header, lb_size },
            },
        }
    }

    /// The device, to read from.
    pub fn device_mut(&mut self) -> (r: &mut D)
        ensures
            *r == old(self)@.device,
            final(self)@ == (OpenView { device: *final(r), ..old(self)@ }),
    {
        &mut self.device
    }

    /// Takes the header that was to be read. A failure ends the opening.
    pub fn on_header(self, reply: Result<Header, GptError>) -> (r: OpenStep<D>)
        requires
            self@.valid(),
            self@.backup_header is None,
        ensures
            match reply {
                Ok(header) => r matches OpenStep::Read(next) && next@ == self@.with_header(header)
                    && next@.valid(),
                Err(e) => r == OpenStep::<D>::Done(Err(e)),
            },
    {
        match reply {
            Ok(header) => {
                if self.primary_header.is_none() {
                    OpenStep::Read(OpenSession { primary_header: Some(header), ..self })
                } else {
                    OpenStep::Read(OpenSession { backup_header: Some(header), ..self })
                }
            },
            Err(e) => OpenStep::Done(Err(e)),
        }
    }

    /// Takes the partitions that were to be read, which ends the opening.
    pub fn on_partitions(self, reply: Result<BTreeMap<u32, Partition>, GptError>) -> (r: OpenStep<
        D,
    >)
        requires
            self@.valid(),
            self@.backup_header is Some,
        ensures
            match reply {
                Ok(partitions) => r matches OpenStep::Done(Ok(disk)) && disk@ == self@.opened(
                    partitions@,
                ) && disk@.valid(),
                Err(e) => r == OpenStep::<D>::Done(Err(e)),
            },
    {
        match reply {
            Ok(partitions) => {
                let guid: Guid = self.primary_header.unwrap().disk_guid;
                OpenStep::Done(
                    Ok(
                        GptDisk::from_parts(
                            self.config,
                            self.device,
                            guid,
                            self.primary_header,
                            self.backup_header,
                            partitions,
                        ),
                    ),
                )
            },
            Err(e) => OpenStep::Done(Err(e)),
        }
    }
}

/// A blank disk: no headers and no partitions.
pub open spec fn blank_disk<D>(config: ConfigView, device: D, guid: Guid) -> DiskView<D> {
    DiskView {
        config,
        device,
        guid,
        primary_header: None,
        backup_header: None,
        partitions: Map::empty(),
    }
}

impl GptConfig {
    /// How the file of the disk is to be opened: for reading, and for writing
    /// where the table may be written.
    pub fn open_mode(&self) -> (r: OpenMode)
        ensures
            r == (OpenMode { read: true, write: self@.writable }),
    {
        OpenMode { read: true, write: self.is_writable() }
    }

    /// Open the GPT disk from the given device and inspect it according to
    /// configuration options.
    ///
    /// A disk that holds no table yet is there at once, blank and with a random
    /// identifier. Of any other the table is to be read first.
    pub fn open_from_device<D>(self, device: D) -> (r: OpenStep<D>)
        ensures
            if self@.initialized {
                r matches OpenStep::Read(session) && {
                    &&& session@ == (OpenView {
                        config: self@,
                        device,
                        primary_header: None,
                        backup_header: None,
                    })
                    &&& session@.valid()
                }
            } else {
                r matches OpenStep::Done(Ok(disk)) && {
                    &&& disk@ == blank_disk(self@, device, disk@.guid)
                    &&& disk@.guid.is_random()
                    &&& disk@.valid()
                }
            },
    {
        if !self.is_initialized() {
            return OpenStep::Done(self.create_from_device(device, Some(random_guid())));
        }
        OpenStep::Read(
            OpenSession { config: self, device, primary_header: None, backup_header: None },
        )
    }

    /// Create a disk with no headers and an empty partition table.
    /// If guid is None then it will generate a new random guid.
    pub fn create_from_device<D>(self, device: D, guid: Option<Guid>) -> (r: Result<
        GptDisk<D>,
        GptError,
    >)
        ensures
            if self@.initialized {
                r == Err::<GptDisk<D>, GptError>(GptError::CreatingInitializedDisk)
            } else {
                r matches Ok(disk) && {
                    &&& disk@ == blank_disk(self@, device, disk@.guid)
                    &&& match guid {
                        Some(given) => disk@.guid == given,
                        None => disk@.guid.is_random(),
                    }
                    &&& disk@.valid()
                }
            },
    {
        if self.is_initialized() {
            Err(GptError::CreatingInitializedDisk)
        } else {
            let guid: Guid = match guid {
                Some(given) => given,
                None => random_guid(),
            };
            Ok(GptDisk::from_parts(self, device, guid, None, None, BTreeMap::new()))
        }
    }
}

} // verus!

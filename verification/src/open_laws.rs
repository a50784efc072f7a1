//! How a disk comes to be, told by the calls: what is configured, what is read and
//! what disk comes of it.

use vstd::prelude::*;

use std::collections::BTreeMap;

use crate::config::GptConfig;
use crate::disk::LogicalBlockSize;
use crate::error::GptError;
use crate::gpt_disk::GptDisk;
use crate::guid::Guid;
use crate::header::Header;
use crate::open::{OpenMode, OpenSession, OpenStep, ReadRequest};
use crate::partition::Partition;

verus! {

/// A new configuration is the default one: blocks of 512 bytes, not writable, and a
/// table on the disk already.
pub proof fn law_default_config(new: GptConfig, default: GptConfig)
    requires
        call_ensures(GptConfig::new, (), new),
        call_ensures(<GptConfig as Default>::default, (), default),
    ensures
        new@ == default@,
        new@.lb_size == LogicalBlockSize::Lb512,
        !new@.writable,
        new@.initialized,
{
}

/// Each option is set by its own call and by no other, whatever was set before.
pub proof fn law_options_are_independent(
    config: GptConfig,
    writable: bool,
    initialized: bool,
    lb_size: LogicalBlockSize,
    a: GptConfig,
    b: GptConfig,
    c: GptConfig,
)
    requires
        call_ensures(GptConfig::writable, (config, writable), a),
        call_ensures(GptConfig::initialized, (config, initialized), b),
        call_ensures(GptConfig::logical_block_size, (config, lb_size), c),
    ensures
        a@.writable == writable,
        a@.initialized == config@.initialized,
        a@.lb_size == config@.lb_size,
        b@.initialized == initialized,
        b@.writable == config@.writable,
        b@.lb_size == config@.lb_size,
        c@.lb_size == lb_size,
        c@.writable == config@.writable,
        c@.initialized == config@.initialized,
{
}

/// The file of a disk is opened for reading, and for writing just where the disk
/// may be written.
pub proof fn law_open_mode(config: GptConfig, r: OpenMode)
    requires
        call_ensures(GptConfig::open_mode, (&config,), r),
    ensures
        r.read,
        r.write == config@.writable,
{
}

/// Whether the disk has neither headers nor entries, and what it was made of.
pub open spec fn is_blank<D>(disk: GptDisk<D>, config: GptConfig, device: D) -> bool {
    &&& disk@.config.lb_size == config@.lb_size
    &&& disk@.config.writable == config@.writable
    &&& disk@.config.initialized == config@.initialized
    &&& disk@.device == device
    &&& disk@.primary_header is None
    &&& disk@.backup_header is None
    &&& forall|id: u32| !#[trigger] disk@.partitions.contains_key(id)
}

/// A blank disk is made just where the disk is said to have no table. It has the
/// given identifier, else a random one.
pub proof fn law_create_from_device<D>(
    config: GptConfig,
    device: D,
    guid: Option<Guid>,
    r: Result<GptDisk<D>, GptError>,
)
    requires
        call_ensures(GptConfig::create_from_device::<D>, (config, device, guid), r),
    ensures
        config@.initialized ==> (r matches Err(e) && e == GptError::CreatingInitializedDisk),
        !config@.initialized ==> (r matches Ok(disk) && {
            &&& is_blank(disk, config, device)
            &&& guid matches Some(given) ==> disk@.guid == given
            &&& guid is None ==> disk@.guid.is_random()
        }),
{
}

/// A disk that is said to have no table is opened blank at once, with a random
/// identifier. Of any other nothing is known before it is read.
pub proof fn law_open_from_device<D>(config: GptConfig, device: D, r: OpenStep<D>)
    requires
        call_ensures(GptConfig::open_from_device::<D>, (config, device), r),
    ensures
        !config@.initialized ==> (r matches OpenStep::Done(Ok(disk)) && is_blank(
            disk,
            config,
            device,
        ) && disk@.guid.is_random()),
        config@.initialized ==> (r matches OpenStep::Read(session) && {
            &&& session@.config.lb_size == config@.lb_size
            &&& session@.config.writable == config@.writable
            &&& session@.config.initialized
            &&& session@.device == device
            &&& session@.primary_header is None
            &&& session@.backup_header is None
        }),
{
}

/// Opening a disk that has a table reads the primary header, then the backup
/// header, then the partitions by the primary header, all with the block size that
/// was configured. The disk has just what was read, the identifier of the primary
/// header, and what was configured.
pub proof fn law_opening<D>(
    config: GptConfig,
    device: D,
    primary: Header,
    backup: Header,
    table: BTreeMap<u32, Partition>,
    sessions: (OpenSession<D>, OpenSession<D>, OpenSession<D>),
    requests: (ReadRequest, ReadRequest, ReadRequest),
    last: OpenStep<D>,
)
    requires
        config@.initialized,
        call_ensures(
            GptConfig::open_from_device::<D>,
            (config, device),
            OpenStep::Read(sessions.0),
        ),
        call_ensures(OpenSession::<D>::request, (&sessions.0,), requests.0),
        call_ensures(
            OpenSession::<D>::on_header,
            (sessions.0, Ok(primary)),
            OpenStep::Read(sessions.1),
        ),
        call_ensures(OpenSession::<D>::request, (&sessions.1,), requests.1),
        call_ensures(
            OpenSession::<D>::on_header,
            (sessions.1, Ok(backup)),
            OpenStep::Read(sessions.2),
        ),
        call_ensures(OpenSession::<D>::request, (&sessions.2,), requests.2),
        call_ensures(OpenSession::<D>::on_partitions, (sessions.2, Ok(table)), last),
    ensures
        call_requires(OpenSession::<D>::on_header, (sessions.0, Ok(primary))),
        call_requires(OpenSession::<D>::on_header, (sessions.1, Ok(backup))),
        call_requires(OpenSession::<D>::on_partitions, (sessions.2, Ok(table))),
        requests.0 == (ReadRequest::PrimaryHeader { lb_size: config@.lb_size }),
        requests.1 == (ReadRequest::BackupHeader { lb_size: config@.lb_size }),
        requests.2 == (ReadRequest::Partitions { header: primary, lb_size: config@.lb_size }),
        last matches OpenStep::Done(Ok(disk)) && {
            &&& disk@.config.lb_size == config@.lb_size
            &&& disk@.config.writable == config@.writable
            &&& disk@.config.initialized
            &&& disk@.device == device
            &&& disk@.guid == primary.disk_guid
            &&& disk@.primary_header == Some(primary)
            &&& disk@.backup_header == Some(backup)
            &&& disk@.partitions == table@
        },
{
}

/// A reply is taken the same whatever was read before: a header fills the first
/// gap, and the rest of what is known stays.
pub proof fn law_header_fills_gap<D>(session: OpenSession<D>, header: Header, r: OpenStep<D>)
    requires
        call_ensures(OpenSession::<D>::on_header, (session, Ok(header)), r),
        session@.backup_header is None,
    ensures
        r matches OpenStep::Read(next) && {
            &&& next@.config == session@.config
            &&& next@.device == session@.device
            &&& session@.primary_header is None ==> next@.primary_header == Some(header)
                && next@.backup_header is None
            &&& session@.primary_header is Some ==> next@.primary_header
                == session@.primary_header && next@.backup_header == Some(header)
        },
{
}

/// A failure to read ends the opening with that failure, at every step.
pub proof fn law_failure_ends_opening<D>(
    session: OpenSession<D>,
    e: GptError,
    header: OpenStep<D>,
    partitions: OpenStep<D>,
)
    requires
        call_ensures(OpenSession::<D>::on_header, (session, Err(e)), header),
        call_ensures(OpenSession::<D>::on_partitions, (session, Err(e)), partitions),
    ensures
        header == OpenStep::<D>::Done(Err(e)),
        partitions == OpenStep::<D>::Done(Err(e)),
{
}

/// Working on the device of a disk, or of one that is being opened, changes nothing
/// but the device.
pub proof fn law_device_access<D>(
    disk: &mut GptDisk<D>,
    session: &mut OpenSession<D>,
    a: &mut D,
    b: &mut D,
)
    requires
        call_ensures(GptDisk::<D>::device_mut, (disk,), a),
        call_ensures(OpenSession::<D>::device_mut, (session,), b),
    ensures
        *old(a) == old(disk)@.device,
        final(disk)@.device == *final(a),
        final(disk)@.config == old(disk)@.config,
        final(disk)@.guid == old(disk)@.guid,
        final(disk)@.primary_header == old(disk)@.primary_header,
        final(disk)@.backup_header == old(disk)@.backup_header,
        final(disk)@.partitions == old(disk)@.partitions,
        *old(b) == old(session)@.device,
        final(session)@.device == *final(b),
        final(session)@.config == old(session)@.config,
        final(session)@.primary_header == old(session)@.primary_header,
        final(session)@.backup_header == old(session)@.backup_header,
{
}

} // verus!

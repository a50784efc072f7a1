//! How a disk is to be opened.

use vstd::prelude::*;

use crate::disk::{DEFAULT_SECTOR_SIZE, LogicalBlockSize};

verus! {

/// Configuration options to open a GPT disk.
#[derive(Debug, PartialEq, Eq, Structural)]
pub struct GptConfig {
    /// Logical block size.
    lb_size: LogicalBlockSize,
    /// Whether the table may be written.
    writable: bool,
    /// Whether the disk holds a table already.
    initialized: bool,
}

/// What a configuration says.
pub struct ConfigView {
    /// Logical block size.
    pub lb_size: LogicalBlockSize,
    /// Whether the table may be written.
    pub writable: bool,
    /// Whether the disk holds a table already.
    pub initialized: bool,
}

impl View for GptConfig {
    type V = ConfigView;

    closed spec fn view(&self) -> ConfigView {
        ConfigView {
            lb_size: self.lb_size,
            writable: self.writable,
            initialized: self.initialized,
        }
    }
}

impl Default for GptConfig {
    fn default() -> (r: GptConfig)
        ensures
            r@ == (ConfigView {
                lb_size: DEFAULT_SECTOR_SIZE,
                writable: false,
                initialized: true,
            }),
    {
        GptConfig { lb_size: DEFAULT_SECTOR_SIZE, writable: false, initialized: true }
    }
}

impl GptConfig {
    /// Creates a new default configuration: blocks of the default size, not
    /// writable, and a table on the disk already.
    pub fn new() -> (r: GptConfig)
        ensures
            r@ == (ConfigView {
                lb_size: DEFAULT_SECTOR_SIZE,
                writable: false,
                initialized: true,
            }),
    {
        GptConfig::default()
    }

    /// Whether to open a GPT partition table in writable mode.
    pub fn writable(self, writable: bool) -> (r: GptConfig)
        ensures
            r@ == (ConfigView { writable, ..self@ }),
    {
        GptConfig { writable, ..self }
    }

    /// Whether to assume an initialized GPT disk and read its partition table
    /// on open.
    pub fn initialized(self, initialized: bool) -> (r: GptConfig)
        ensures
            r@ == (ConfigView { initialized, ..self@ }),
    {
        GptConfig { initialized, ..self }
    }

    /// Size of logical blocks (sectors) for this disk.
    pub fn logical_block_size(self, lb_size: LogicalBlockSize) -> (r: GptConfig)
        ensures
            r@ == (ConfigView { lb_size, ..self@ }),
    {
        GptConfig { lb_size, ..self }
    }

    /// Whether the table may be written.
    pub(crate) fn is_writable(&self) -> (r: bool)
        ensures
            r == self@.writable,
    {
        self.writable
    }

    /// Whether the disk holds a table already.
    pub(crate) fn is_initialized(&self) -> (r: bool)
        ensures
            r == self@.initialized,
    {
        self.initialized
    }

    /// Sets whether the table may be written.
    pub(crate) fn set_writable(&mut self, writable: bool)
        ensures
            final(self)@ == (ConfigView { writable, ..old(self)@ }),
    {
        self.writable = writable;
    }

    /// Notes that the disk holds a table now.
    pub(crate) fn set_initialized(&mut self)
        ensures
            final(self)@ == (ConfigView { initialized: true, ..old(self)@ }),
    {
        self.initialized = true;
    }

    /// The size of logical blocks that is set.
    pub(crate) fn block_size(&self) -> (r: &LogicalBlockSize)
        ensures
            *r == self@.lb_size,
    {
        &self.lb_size
    }
}

} // verus!

//! Working with GPT partition tables: the rules by which a table is opened,
//! changed and written back.

pub mod basic_laws;
pub mod config;
pub mod device_laws;
pub mod disk;
pub mod disk_laws;
pub mod error;
pub mod gpt_disk;
pub mod guid;
pub mod header;
pub mod layout;
pub mod layout_laws;
pub mod open;
pub mod open_laws;
pub mod partition;
pub mod partition_types;
pub mod space_laws;
pub mod table_laws;
pub mod terms;
pub mod write;
pub mod write_laws;

pub use config::GptConfig;
pub use error::GptError;
pub use gpt_disk::GptDisk;

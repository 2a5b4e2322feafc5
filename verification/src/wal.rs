pub mod checkpoint;
pub mod checksum;
pub mod errors;
pub mod log_entry;
pub mod wal_config;
pub mod wal_files;
pub mod wal_header;
pub mod wal_manager;
pub mod wal_position;
pub mod wal_reader;
pub mod types;

pub use errors::WalError;

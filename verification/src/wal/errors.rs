pub mod wal_error;

pub use wal_error::WalError;

use vstd::prelude::*;

verus! {

/// Where the log lives and how it is kept. The directory is held as its text.
#[derive(Debug, Clone)]
pub struct WalConfig {
    pub wal_dir: String,
    pub max_file_size: u64,
    pub checkpoint_interval: u64,
    pub max_retained_files: usize,
}

impl Default for WalConfig {
    fn default() -> (r: Self)
        ensures
            r.wal_dir@ == "./data/wal"@,
            r.max_file_size == 1024 * 1024 * 64,
            r.checkpoint_interval == 1000,
            r.max_retained_files == 10,
    {
        WalConfig {
            wal_dir: "./data/wal".to_owned(),
            max_file_size: 1024 * 1024 * 64,
            checkpoint_interval: 1000,
            max_retained_files: 10,
        }
    }
}

impl WalConfig {
    /// The default settings with the log in `wal_dir`.
    pub fn new(wal_dir: &str) -> (r: Self)
        ensures
            r.wal_dir@ == wal_dir@,
            r.max_file_size == 1024 * 1024 * 64,
            r.checkpoint_interval == 1000,
            r.max_retained_files == 10,
    {
        WalConfig {
            wal_dir: wal_dir.to_owned(),
            max_file_size: 1024 * 1024 * 64,
            checkpoint_interval: 1000,
            max_retained_files: 10,
        }
    }

    pub fn with_max_file_size(self, max_file_size: u64) -> (r: Self)
        ensures
            r == (WalConfig { max_file_size, ..self }),
    {
        WalConfig { max_file_size, ..self }
    }

    pub fn with_checkpoint_interval(self, interval: u64) -> (r: Self)
        ensures
            r == (WalConfig { checkpoint_interval: interval, ..self }),
    {
        WalConfig { checkpoint_interval: interval, ..self }
    }

    pub fn with_max_retained_files(self, count: usize) -> (r: Self)
        ensures
            r == (WalConfig { max_retained_files: count, ..self }),
    {
        WalConfig { max_retained_files: count, ..self }
    }
}

} // verus!

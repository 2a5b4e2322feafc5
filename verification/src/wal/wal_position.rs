use vstd::prelude::*;
use crate::wal::checksum::crc32_spec;
use crate::wal::log_entry::{entry_bytes, entry_data, LogEntry};
use crate::wal::types::entry_type::EntryType;
use crate::wal::types::opration_type::OprationType;
use crate::wal::wal_files::should_roll;
use crate::wal::wal_header::HEADER_SIZE;

verus! {

/// Where a log writer stands: its current file, the sequence of the next record, the
/// offset at which the next record goes, and the first sequence of the log.
pub struct WalPosition {
    pub current_file_number: u64,
    pub current_sequence: u64,
    pub file_offset: u64,
    pub start_sequence: u64,
}

/// The bytes of a record sealed with the checksum of its data.
pub open spec fn sealed_bytes(
    seq: u64,
    et: EntryType,
    op: OprationType,
    key: Seq<u8>,
    value: Seq<u8>,
    timestamp: u64,
) -> Seq<u8> {
    entry_bytes(seq, et, op, key, value, crc32_spec(entry_data(seq, key, value, timestamp)), timestamp)
}

impl WalPosition {
    /// A new log: file 1, whose header is written first and whose first sequence is 1.
    pub fn fresh() -> (r: WalPosition)
        ensures
            r.current_file_number == 1,
            r.current_sequence == 1,
            r.file_offset == HEADER_SIZE,
            r.start_sequence == 1,
    {
        WalPosition {
            current_file_number: 1,
            current_sequence: 1,
            file_offset: HEADER_SIZE as u64,
            start_sequence: 1,
        }
    }

    /// Resuming log file `file_number`, whose header gives `start_sequence`, at its end.
    pub fn resumed(file_number: u64, start_sequence: u64, file_size: u64) -> (r: WalPosition)
        ensures
            r.current_file_number == file_number,
            r.current_sequence == start_sequence,
            r.file_offset == file_size,
            r.start_sequence == start_sequence,
    {
        WalPosition {
            current_file_number: file_number,
            current_sequence: start_sequence,
            file_offset: file_size,
            start_sequence,
        }
    }

    /// After the scan of the log found `last` as its highest sequence, the next record
    /// follows it.
    pub fn continue_after(&mut self, last: u64)
        requires
            last < u64::MAX,
        ensures
            final(self).current_sequence == last + 1,
            final(self).current_file_number == old(self).current_file_number,
            final(self).file_offset == old(self).file_offset,
            final(self).start_sequence == old(self).start_sequence,
    {
        self.current_sequence = last + 1;
    }

    /// The bytes of the next record (with this position's sequence, sealed with its
    /// checksum), and whether it would pass `max_file_size` so that a new file comes first.
    pub fn prepare(
        &self,
        entry_type: EntryType,
        opration_type: OprationType,
        key: &[u8],
        value: &[u8],
        timestamp: u64,
        max_file_size: u64,
    ) -> (r: (Vec<u8>, bool))
        ensures
            r.0@ == sealed_bytes(self.current_sequence, entry_type, opration_type, key@, value@, timestamp),
            r.1 == (self.file_offset + r.0@.len() > max_file_size),
    {
        let entry = LogEntry::sealed(self.current_sequence, entry_type, opration_type, key, value, timestamp);
        let bytes = entry.to_bytes();
        let roll = should_roll(self.file_offset, bytes.len() as u64, max_file_size);
        (bytes, roll)
    }

    /// After starting the next file, whose header is written first.
    pub fn rolled(&mut self)
        requires
            old(self).current_file_number < u64::MAX,
        ensures
            final(self).current_file_number == old(self).current_file_number + 1,
            final(self).file_offset == HEADER_SIZE,
            final(self).current_sequence == old(self).current_sequence,
            final(self).start_sequence == old(self).start_sequence,
    {
        self.current_file_number = self.current_file_number + 1;
        self.file_offset = HEADER_SIZE as u64;
    }

    /// After appending one record of `len` bytes: the next record takes the next sequence.
    pub fn appended(&mut self, len: u64)
        requires
            old(self).current_sequence < u64::MAX,
            old(self).file_offset + len <= u64::MAX,
        ensures
            final(self).current_sequence == old(self).current_sequence + 1,
            final(self).file_offset == old(self).file_offset + len,
            final(self).current_file_number == old(self).current_file_number,
            final(self).start_sequence == old(self).start_sequence,
    {
        self.current_sequence = self.current_sequence + 1;
        self.file_offset = self.file_offset + len;
    }
}

} // verus!

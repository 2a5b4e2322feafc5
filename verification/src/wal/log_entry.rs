use vstd::prelude::*;
use crate::byte_order::{
    be_bytes, be_value, lemma_be_bytes_len, lemma_be_value_bound, lemma_be_value_of_bytes,
    lemma_pow256_facts, push_be, read_be,
};
use crate::text::{copy_range, extend_bytes};
use crate::wal::checksum::{crc32, crc32_spec};
use crate::wal::errors::WalError;
use crate::wal::types::entry_type::{entry_type_byte, EntryType};
use crate::wal::types::opration_type::{opration_type_byte, OprationType};

verus! {

/// One record of the write-ahead log.
pub struct LogEntry {
    pub seq: u64,
    pub entry_type: EntryType,
    pub opration_type: OprationType,
    pub key: Vec<u8>,
    pub value: Vec<u8>,
    pub checksum: u32,
    pub timestamp: u64,
}

/// The bytes that the checksum covers: sequence, key length, key, value length, value and
/// timestamp, big-endian, lengths in eight bytes.
pub open spec fn entry_data(seq: u64, key: Seq<u8>, value: Seq<u8>, timestamp: u64) -> Seq<u8> {
    be_bytes(seq as nat, 8) + be_bytes(key.len(), 8) + key + be_bytes(value.len(), 8) + value
        + be_bytes(timestamp as nat, 8)
}

/// The bytes of a record: sequence, entry type, operation, key length, key, value length,
/// value, checksum and timestamp, big-endian, lengths in four bytes (their low 32 bits).
pub open spec fn entry_bytes(
    seq: u64,
    et: EntryType,
    op: OprationType,
    key: Seq<u8>,
    value: Seq<u8>,
    checksum: u32,
    timestamp: u64,
) -> Seq<u8> {
    be_bytes(seq as nat, 8) + seq![entry_type_byte(et), opration_type_byte(op)] + be_bytes(
        key.len(),
        4,
    ) + key + be_bytes(value.len(), 4) + value + be_bytes(checksum as nat, 4) + be_bytes(
        timestamp as nat,
        8,
    )
}

/// Length of the key, read at offset 10 of a record.
pub open spec fn rec_key_len(b: Seq<u8>) -> nat {
    be_value(b.subrange(10, 14))
}

/// Length of the value, read just after the key.
pub open spec fn rec_value_len(b: Seq<u8>) -> nat {
    let k = rec_key_len(b) as int;
    be_value(b.subrange(14 + k, 18 + k))
}

/// Whether the key and value lengths that `b` declares fit inside `b`.
pub open spec fn record_fits(b: Seq<u8>) -> bool {
    b.len() >= 14 && 14 + rec_key_len(b) + 4 <= b.len() && 30 + rec_key_len(b) + rec_value_len(b)
        <= b.len()
}

/// The size of a record with the given key and value lengths.
pub open spec fn entry_size_spec(key_len: nat, value_len: nat) -> nat {
    8 + 1 + 1 + 4 + key_len + 4 + value_len + 4 + 8
}

impl LogEntry {
    /// Builds a record from all its fields.
    pub fn new(
        seq: u64,
        entry_type: EntryType,
        opration_type: OprationType,
        key: Vec<u8>,
        value: Vec<u8>,
        checksum: u32,
        timestamp: u64,
    ) -> (r: LogEntry)
        ensures
            r.seq == seq,
            r.entry_type == entry_type,
            r.opration_type == opration_type,
            r.key@ == key@,
            r.value@ == value@,
            r.checksum == checksum,
            r.timestamp == timestamp,
    {
        LogEntry { seq, entry_type, opration_type, key, value, checksum, timestamp }
    }

    /// The bytes of this record (see `entry_bytes`).
    pub open spec fn spec_bytes(&self) -> Seq<u8> {
        entry_bytes(
            self.seq,
            self.entry_type,
            self.opration_type,
            self.key@,
            self.value@,
            self.checksum,
            self.timestamp,
        )
    }

    /// Whether the stored checksum is the CRC-32 of the record's data.
    pub open spec fn checksum_ok(&self) -> bool {
        self.checksum == crc32_spec(entry_data(self.seq, self.key@, self.value@, self.timestamp))
    }

    /// The bytes of this record.
    pub fn to_bytes(&self) -> (r: Vec<u8>)
        ensures
            r@ == self.spec_bytes(),
    {
        let mut bytes: Vec<u8> = Vec::new();
        push_be(&mut bytes, self.seq, 8);
        bytes.push(u8::from(self.entry_type));
        bytes.push(u8::from(self.opration_type));
        push_be(&mut bytes, self.key.len() as u64, 4);
        extend_bytes(&mut bytes, self.key.as_slice());
        push_be(&mut bytes, self.value.len() as u64, 4);
        extend_bytes(&mut bytes, self.value.as_slice());
        push_be(&mut bytes, self.checksum as u64, 4);
        push_be(&mut bytes, self.timestamp, 8);
        assert(bytes@ =~= self.spec_bytes());
        bytes
    }

    /// Reads a record from the start of `bytes`. Fewer than 33 bytes give
    /// `UnexpectedEof`; an entry type byte other than 0 or 1, or then an operation byte
    /// other than 0, 1 or 2, gives `Corrupted`. Past valid type bytes, the declared lengths
    /// must fit in `bytes`.
    pub fn from_bytes(bytes: &[u8]) -> (r: Result<LogEntry, WalError>)
        requires
            bytes@.len() >= 33 && bytes@[8] <= 1 && bytes@[9] <= 2 ==> record_fits(bytes@),
        ensures
            bytes@.len() < 33 ==> r matches Err(WalError::UnexpectedEof),
            bytes@.len() >= 33 && bytes@[8] > 1 ==> (r matches Err(WalError::Corrupted(m))
                && m@ == "invalid entry type"@),
            bytes@.len() >= 33 && bytes@[8] <= 1 && bytes@[9] > 2 ==> (r matches Err(
                WalError::Corrupted(m),
            ) && m@ == "invalid operation type"@),
            bytes@.len() >= 33 && bytes@[8] <= 1 && bytes@[9] <= 2 ==> (r matches Ok(e) && {
                let b = bytes@;
                let k = rec_key_len(b) as int;
                let v = rec_value_len(b) as int;
                &&& e.seq as nat == be_value(b.subrange(0, 8))
                &&& entry_type_byte(e.entry_type) == b[8]
                &&& opration_type_byte(e.opration_type) == b[9]
                &&& e.key@ == b.subrange(14, 14 + k)
                &&& e.value@ == b.subrange(18 + k, 18 + k + v)
                &&& e.checksum as nat == be_value(b.subrange(18 + k + v, 22 + k + v))
                &&& e.timestamp as nat == be_value(b.subrange(22 + k + v, 30 + k + v))
            }),
    {
        let len = bytes.len();
        if len < 33 {
            return Err(WalError::UnexpectedEof);
        }
        let seq = read_be(bytes, 0, 8);
        let entry_type = if bytes[8] == 0 {
            EntryType::Log
        } else if bytes[8] == 1 {
            EntryType::Checkpoint
        } else {
            return Err(WalError::Corrupted("invalid entry type".to_owned()));
        };
        let opration_type = if bytes[9] == 0 {
            OprationType::Insert
        } else if bytes[9] == 1 {
            OprationType::Delete
        } else if bytes[9] == 2 {
            OprationType::Update
        } else {
            return Err(WalError::Corrupted("invalid operation type".to_owned()));
        };
        proof {
            lemma_pow256_facts();
            lemma_be_value_bound(bytes@.subrange(10, 14));
        }
        let key_len = read_be(bytes, 10, 4) as usize;
        let key = copy_range(bytes, 14, 14 + key_len);
        let mut offset = 14 + key_len;
        proof {
            lemma_be_value_bound(bytes@.subrange(offset as int, offset + 4));
        }
        let value_len = read_be(bytes, offset, 4) as usize;
        offset = offset + 4;
        let value = copy_range(bytes, offset, offset + value_len);
        offset = offset + value_len;
        proof {
            lemma_be_value_bound(bytes@.subrange(offset as int, offset + 4));
        }
        let checksum = read_be(bytes, offset, 4) as u32;
        offset = offset + 4;
        let timestamp = read_be(bytes, offset, 8);
        Ok(LogEntry { seq, entry_type, opration_type, key, value, checksum, timestamp })
    }

    /// The size of a record with the given key and value lengths.
    pub fn entry_size(key_len: usize, value_len: usize) -> (r: usize)
        requires
            entry_size_spec(key_len as nat, value_len as nat) <= usize::MAX,
        ensures
            r as nat == entry_size_spec(key_len as nat, value_len as nat),
    {
        8 + 1 + 1 + 4 + key_len + 4 + value_len + 4 + 8
    }

    /// Whether the stored checksum matches the record's data.
    pub fn verify_checksum(&self) -> (r: bool)
        ensures
            r == self.checksum_ok(),
    {
        let data = LogEntry::build_entry_data(
            self.seq,
            self.key.as_slice(),
            self.value.as_slice(),
            self.timestamp,
        );
        let computed = LogEntry::crc32(data.as_slice());
        computed == self.checksum
    }

    /// The bytes that a record's checksum covers (see `entry_data`).
    pub fn build_entry_data(seq: u64, key: &[u8], value: &[u8], timestamp: u64) -> (r: Vec<u8>)
        ensures
            r@ == entry_data(seq, key@, value@, timestamp),
    {
        let mut data: Vec<u8> = Vec::new();
        push_be(&mut data, seq, 8);
        push_be(&mut data, key.len() as u64, 8);
        extend_bytes(&mut data, key);
        push_be(&mut data, value.len() as u64, 8);
        extend_bytes(&mut data, value);
        push_be(&mut data, timestamp, 8);
        assert(data@ =~= entry_data(seq, key@, value@, timestamp));
        data
    }

    /// The CRC-32 of `data`.
    pub fn crc32(data: &[u8]) -> (r: u32)
        ensures
            r == crc32_spec(data@),
    {
        crc32(data)
    }

    /// A record whose checksum is computed from its data, as the log writers build them.
    pub fn sealed(
        seq: u64,
        entry_type: EntryType,
        opration_type: OprationType,
        key: &[u8],
        value: &[u8],
        timestamp: u64,
    ) -> (r: LogEntry)
        ensures
            r.seq == seq,
            r.entry_type == entry_type,
            r.opration_type == opration_type,
            r.key@ == key@,
            r.value@ == value@,
            r.timestamp == timestamp,
            r.checksum_ok(),
    {
        let data = LogEntry::build_entry_data(seq, key, value, timestamp);
        let checksum = LogEntry::crc32(data.as_slice());
        proof {
            assert(key@.subrange(0, key@.len() as int) =~= key@);
            assert(value@.subrange(0, value@.len() as int) =~= value@);
        }
        LogEntry::new(
            seq,
            entry_type,
            opration_type,
            copy_range(key, 0, key.len()),
            copy_range(value, 0, value.len()),
            checksum,
            timestamp,
        )
    }
}

/// Reading a record's bytes back gives the same record, when its key and value are shorter
/// than 2^32 bytes and not both nearly empty (a record under 33 bytes is refused as short).
pub proof fn lemma_entry_roundtrip(
    seq: u64,
    et: EntryType,
    op: OprationType,
    key: Seq<u8>,
    value: Seq<u8>,
    checksum: u32,
    timestamp: u64,
)
    requires
        key.len() < 0x1_0000_0000,
        value.len() < 0x1_0000_0000,
        key.len() + value.len() >= 3,
    ensures
        ({
            let b = entry_bytes(seq, et, op, key, value, checksum, timestamp);
            let k = rec_key_len(b) as int;
            let v = rec_value_len(b) as int;
            &&& b.len() == entry_size_spec(key.len(), value.len())
            &&& b.len() >= 33
            &&& record_fits(b)
            &&& b[8] == entry_type_byte(et)
            &&& b[9] == opration_type_byte(op)
            &&& be_value(b.subrange(0, 8)) == seq
            &&& b.subrange(14, 14 + k) == key
            &&& b.subrange(18 + k, 18 + k + v) == value
            &&& be_value(b.subrange(18 + k + v, 22 + k + v)) == checksum
            &&& be_value(b.subrange(22 + k + v, 30 + k + v)) == timestamp
        }),
{
    let b = entry_bytes(seq, et, op, key, value, checksum, timestamp);
    lemma_pow256_facts();
    lemma_be_bytes_len(seq as nat, 8);
    lemma_be_bytes_len(key.len(), 4);
    lemma_be_bytes_len(value.len(), 4);
    lemma_be_bytes_len(checksum as nat, 4);
    lemma_be_bytes_len(timestamp as nat, 8);
    let kl = key.len() as int;
    let vl = value.len() as int;
    assert(b.subrange(0, 8) =~= be_bytes(seq as nat, 8));
    assert(b.subrange(10, 14) =~= be_bytes(key.len(), 4));
    lemma_be_value_of_bytes(key.len(), 4);
    lemma_be_value_of_bytes(seq as nat, 8);
    assert(b.subrange(14, 14 + kl) =~= key);
    assert(b.subrange(14 + kl, 18 + kl) =~= be_bytes(value.len(), 4));
    lemma_be_value_of_bytes(value.len(), 4);
    assert(b.subrange(18 + kl, 18 + kl + vl) =~= value);
    assert(b.subrange(18 + kl + vl, 22 + kl + vl) =~= be_bytes(checksum as nat, 4));
    lemma_be_value_of_bytes(checksum as nat, 4);
    assert(b.subrange(22 + kl + vl, 30 + kl + vl) =~= be_bytes(timestamp as nat, 8));
    lemma_be_value_of_bytes(timestamp as nat, 8);
}

} // verus!

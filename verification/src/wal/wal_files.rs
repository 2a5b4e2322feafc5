use vstd::prelude::*;
use vstd::utf8::*;
use crate::byte_order::{be_value, lemma_be_value_bound, lemma_pow256_facts, read_be};
use crate::decimal::{lemma_digits_ascii, nat_digits, parse_u64_bytes, parse_u64_spec, push_digits};
use crate::text::{copy_range, extend_bytes, lemma_ascii_is_valid_utf8, prefixed, string_from_utf8, all_ascii};
use crate::wal::errors::WalError;
use crate::storage::io_failure::{io_error, IoFailure};
use crate::wal::checksum::crc32_spec;
use crate::wal::log_entry::{entry_data, entry_size_spec, record_fits, rec_key_len, rec_value_len, LogEntry};
use crate::wal::types::entry_type::entry_type_byte;
use crate::wal::types::opration_type::opration_type_byte;
use crate::wal::wal_header::{magic_field_ok, HEADER_SIZE, WalHeader};

verus! {

/// `.wal`
pub open spec fn wal_suffix() -> Seq<u8> {
    seq![46u8, 119u8, 97u8, 108u8]
}

/// The bytes without every trailing `.wal`, as `trim_end_matches(".wal")` leaves them.
pub open spec fn strip_wal_suffixes(b: Seq<u8>) -> Seq<u8>
    decreases b.len(),
{
    if b.len() >= 4 && b.subrange(b.len() - 4, b.len() as int) == wal_suffix() {
        strip_wal_suffixes(b.subrange(0, b.len() - 4))
    } else {
        b
    }
}

/// The name of log file `n`: its number zero-padded to six digits, then `.wal`.
pub open spec fn wal_file_name_bytes(n: u64) -> Seq<u8> {
    let d = nat_digits(n as nat);
    Seq::new(
        if d.len() < 6 {
            (6 - d.len()) as nat
        } else {
            0
        },
        |i: int| 48u8,
    ) + d + wal_suffix()
}

/// The name of log file `n` (see `wal_file_name_bytes`).
pub fn wal_file_name(n: u64) -> (r: String)
    ensures
        encode_utf8(r@) == wal_file_name_bytes(n),
{
    let mut digits: Vec<u8> = Vec::new();
    push_digits(&mut digits, n);
    let ghost d = digits@;
    assert(d =~= nat_digits(n as nat));
    let pad = if digits.len() < 6 {
        6 - digits.len()
    } else {
        0
    };
    let mut out: Vec<u8> = Vec::new();
    let mut i: usize = 0;
    while i < pad
        invariant
            i <= pad,
            out@ == Seq::new(i as nat, |j: int| 48u8),
        decreases pad - i,
    {
        out.push(48u8);
        i = i + 1;
        proof {
            assert(out@ =~= Seq::new(i as nat, |j: int| 48u8));
        }
    }
    extend_bytes(&mut out, digits.as_slice());
    let suffix: [u8; 4] = [46u8, 119u8, 97u8, 108u8];
    extend_bytes(&mut out, suffix.as_slice());
    proof {
        assert(suffix@ =~= wal_suffix());
        assert(out@ =~= wal_file_name_bytes(n));
        lemma_digits_ascii(n as nat);
        assert(all_ascii(out@)) by {
            assert forall|k: int| 0 <= k < out@.len() implies #[trigger] out@[k] < 0x80 by {
                let p = Seq::new(pad as nat, |j: int| 48u8);
                if k < p.len() {
                    assert(out@[k] == p[k]);
                } else if k < p.len() + d.len() {
                    assert(out@[k] == d[k - p.len()]);
                } else {
                    assert(out@[k] == wal_suffix()[k - p.len() - d.len()]);
                }
            }
        }
        lemma_ascii_is_valid_utf8(out@);
    }
    match string_from_utf8(out.as_slice()) {
        Some(s) => s,
        None => {
            proof {
                assert(false);
            }
            String::new()
        },
    }
}

/// The number of a log file from its name: the name without its trailing `.wal`s, read as a
/// `u64`. Another name is refused as `InvalidHeader("invalid wal file name: <name>")`.
pub fn parse_file_number(file_name: &str) -> (r: Result<u64, WalError>)
    ensures
        match parse_u64_spec(strip_wal_suffixes(encode_utf8(file_name@))) {
            Some(v) => r matches Ok(x) && x == v,
            None => r matches Err(WalError::InvalidHeader(m)) && m@ == "invalid wal file name: "@
                + file_name@,
        },
{
    let b = file_name.as_bytes();
    let mut end = b.len();
    proof {
        assert(b@.subrange(0, b@.len() as int) =~= b@);
    }
    while end >= 4 && b[end - 4] == 46u8 && b[end - 3] == 119u8 && b[end - 2] == 97u8 && b[end
        - 1] == 108u8
        invariant
            end <= b@.len(),
            strip_wal_suffixes(b@) == strip_wal_suffixes(b@.subrange(0, end as int)),
        decreases end,
    {
        proof {
            let s = b@.subrange(0, end as int);
            assert(s.subrange(s.len() - 4, s.len() as int) =~= wal_suffix());
            assert(s.subrange(0, s.len() - 4) =~= b@.subrange(0, end - 4));
        }
        end = end - 4;
    }
    proof {
        let s = b@.subrange(0, end as int);
        if s.len() >= 4 {
            assert(s.subrange(s.len() - 4, s.len() as int) != wal_suffix()) by {
                if s.subrange(s.len() - 4, s.len() as int) == wal_suffix() {
                    assert(s.subrange(s.len() - 4, s.len() as int)[0] == b@[end - 4]);
                    assert(s.subrange(s.len() - 4, s.len() as int)[1] == b@[end - 3]);
                    assert(s.subrange(s.len() - 4, s.len() as int)[2] == b@[end - 2]);
                    assert(s.subrange(s.len() - 4, s.len() as int)[3] == b@[end - 1]);
                }
            }
        }
    }
    let body = copy_range(b, 0, end);
    match parse_u64_bytes(body.as_slice()) {
        Some(v) => Ok(v),
        None => Err(WalError::InvalidHeader(prefixed("invalid wal file name: ", file_name))),
    }
}

/// What reading the log at an offset finds.
pub enum FrameStep {
    /// Nothing more in this file: the end, a tail too short for a record, or a record cut
    /// short.
    End,
    /// A record and the offset after it.
    Record(LogEntry, usize),
    /// A record that cannot be read.
    Fault(WalError),
}

/// The key length of the record at `off`.
pub open spec fn frame_key_len(b: Seq<u8>, off: int) -> nat {
    be_value(b.subrange(off + 10, off + 14))
}

/// The value length of the record at `off`.
pub open spec fn frame_value_len(b: Seq<u8>, off: int) -> nat {
    let k = frame_key_len(b, off) as int;
    be_value(b.subrange(off + 14 + k, off + 18 + k))
}

/// The fields of `e` are those that the record bytes `b` hold.
pub open spec fn parsed_from(e: LogEntry, b: Seq<u8>) -> bool {
    let k = rec_key_len(b) as int;
    let v = rec_value_len(b) as int;
    &&& e.seq as nat == be_value(b.subrange(0, 8))
    &&& entry_type_byte(e.entry_type) == b[8]
    &&& opration_type_byte(e.opration_type) == b[9]
    &&& e.key@ == b.subrange(14, 14 + k)
    &&& e.value@ == b.subrange(18 + k, 18 + k + v)
    &&& e.checksum as nat == be_value(b.subrange(18 + k + v, 22 + k + v))
    &&& e.timestamp as nat == be_value(b.subrange(22 + k + v, 30 + k + v))
}

/// What reading the record at `off` of a log file's bytes gives, as a reader does: a tail
/// under 33 bytes, or a record that the file cuts short, ends the file; a value length past
/// the end of the file, or a whole record under 33 bytes, is `UnexpectedEof`; bad type bytes
/// are `Corrupted`, and a record whose checksum does not match its data is
/// `ChecksumMismatch`.
pub open spec fn frame_spec(b: Seq<u8>, off: int, r: FrameStep) -> bool {
    if off >= b.len() || b.len() - off < 33 {
        r is End
    } else if off + 18 + frame_key_len(b, off) > b.len() {
        r matches FrameStep::Fault(WalError::UnexpectedEof)
    } else if b.len() - off < entry_size_spec(frame_key_len(b, off), frame_value_len(b, off)) {
        r is End
    } else {
        let size = entry_size_spec(frame_key_len(b, off), frame_value_len(b, off)) as int;
        let rec = b.subrange(off, off + size);
        if size < 33 {
            r matches FrameStep::Fault(WalError::UnexpectedEof)
        } else if b[off + 8] > 1 {
            r matches FrameStep::Fault(WalError::Corrupted(m)) && m@ == "invalid entry type"@
        } else if b[off + 9] > 2 {
            r matches FrameStep::Fault(WalError::Corrupted(m)) && m@ == "invalid operation type"@
        } else {
            exists|e: LogEntry|
                #[trigger] parsed_from(e, rec) && if e.checksum_ok() {
                    r matches FrameStep::Record(e2, next) && e2 == e && next == off + size
                } else {
                    r matches FrameStep::Fault(WalError::ChecksumMismatch)
                }
        }
    }
}

/// The size of the record at `off`, by its length fields.
pub open spec fn frame_size(b: Seq<u8>, off: int) -> int {
    entry_size_spec(frame_key_len(b, off), frame_value_len(b, off)) as int
}

/// The sequence number of the record at `off`.
pub open spec fn frame_seq(b: Seq<u8>, off: int) -> u64 {
    be_value(b.subrange(off, off + 8)) as u64
}

/// Whether the record at `off` carries the CRC-32 of its data.
pub open spec fn frame_sealed(b: Seq<u8>, off: int) -> bool {
    let k = frame_key_len(b, off) as int;
    let v = frame_value_len(b, off) as int;
    crc32_spec(
        entry_data(
            frame_seq(b, off),
            b.subrange(off + 14, off + 14 + k),
            b.subrange(off + 18 + k, off + 18 + k + v),
            be_value(b.subrange(off + 22 + k + v, off + 30 + k + v)) as u64,
        ),
    ) as nat == be_value(b.subrange(off + 18 + k + v, off + 22 + k + v))
}

/// The three outcomes of reading at an offset.
pub enum FrameKind {
    End,
    Record,
    Fault,
}

/// Which outcome reading the record at `off` has, from the bytes alone.
pub open spec fn frame_kind(b: Seq<u8>, off: int) -> FrameKind {
    if off >= b.len() || b.len() - off < 33 {
        FrameKind::End
    } else if off + 18 + frame_key_len(b, off) > b.len() {
        FrameKind::Fault
    } else if b.len() - off < frame_size(b, off) {
        FrameKind::End
    } else if frame_size(b, off) < 33 || b[off + 8] > 1 || b[off + 9] > 2 {
        FrameKind::Fault
    } else if frame_sealed(b, off) {
        FrameKind::Record
    } else {
        FrameKind::Fault
    }
}

/// The outcome that `frame_spec` describes has the kind that `frame_kind` gives; a record
/// has the sequence number of its bytes and is followed at `off` plus its size.
pub proof fn lemma_frame_kind(b: Seq<u8>, off: int, r: FrameStep)
    requires
        0 <= off,
        frame_spec(b, off, r),
    ensures
        (r is End) == (frame_kind(b, off) is End),
        (r is Record) == (frame_kind(b, off) is Record),
        (r is Fault) == (frame_kind(b, off) is Fault),
        r matches FrameStep::Record(e, next) ==> e.seq == frame_seq(b, off) && next == off
            + frame_size(b, off),
{
    if off >= b.len() || b.len() - off < 33 {
    } else if off + 18 + frame_key_len(b, off) > b.len() {
    } else if b.len() - off < frame_size(b, off) {
    } else if frame_size(b, off) < 33 || b[off + 8] > 1 || b[off + 9] > 2 {
    } else {
        let size = frame_size(b, off);
        let rec = b.subrange(off, off + size);
        let e = choose|e: LogEntry| #[trigger] parsed_from(e, rec) && if e.checksum_ok() {
            r matches FrameStep::Record(e2, next) && e2 == e && next == off + size
        } else {
            r matches FrameStep::Fault(WalError::ChecksumMismatch)
        };
        let k = frame_key_len(b, off) as int;
        let v = frame_value_len(b, off) as int;
        assert(rec.subrange(10, 14) =~= b.subrange(off + 10, off + 14));
        assert(rec_key_len(rec) == k);
        assert(rec.subrange(14 + k, 18 + k) =~= b.subrange(off + 14 + k, off + 18 + k));
        assert(rec_value_len(rec) == v);
        assert(rec.subrange(0, 8) =~= b.subrange(off, off + 8));
        assert(rec.subrange(14, 14 + k) =~= b.subrange(off + 14, off + 14 + k));
        assert(rec.subrange(18 + k, 18 + k + v) =~= b.subrange(off + 18 + k, off + 18 + k + v));
        assert(rec.subrange(18 + k + v, 22 + k + v) =~= b.subrange(off + 18 + k + v, off + 22 + k + v));
        assert(rec.subrange(22 + k + v, 30 + k + v) =~= b.subrange(off + 22 + k + v, off + 30 + k + v));
        assert(e.seq == frame_seq(b, off));
        assert(e.timestamp == be_value(b.subrange(off + 22 + k + v, off + 30 + k + v)) as u64);
        assert(e.checksum_ok() == frame_sealed(b, off));
    }
}

/// Reads the record at `offset` of a log file's bytes (see `frame_spec`).
pub fn next_frame(bytes: &[u8], offset: usize) -> (r: FrameStep)
    ensures
        frame_spec(bytes@, offset as int, r),
{
    let len = bytes.len();
    if offset >= len || len - offset < 33 {
        return FrameStep::End;
    }
    proof {
        lemma_pow256_facts();
        lemma_be_value_bound(bytes@.subrange(offset + 10, offset + 14));
    }
    let key_len = read_be(bytes, offset + 10, 4) as usize;
    if len - offset - 14 < key_len || len - offset - 14 - key_len < 4 {
        return FrameStep::Fault(WalError::UnexpectedEof);
    }
    proof {
        lemma_be_value_bound(bytes@.subrange(offset + 14 + key_len, offset + 18 + key_len));
    }
    let value_len = read_be(bytes, offset + 14 + key_len, 4) as usize;
    if len - offset - 18 - key_len < value_len || len - offset - 18 - key_len - value_len < 12 {
        return FrameStep::End;
    }
    let size = 30 + key_len + value_len;
    let rec = copy_range(bytes, offset, offset + size);
    proof {
        let b = bytes@;
        let r = rec@;
        assert(r.subrange(10, 14) =~= b.subrange(offset + 10, offset + 14));
        assert(r.subrange(14 + key_len, 18 + key_len) =~= b.subrange(
            offset + 14 + key_len,
            offset + 18 + key_len,
        ));
        assert(record_fits(r));
        assert(r[8] == b[offset + 8]);
        assert(r[9] == b[offset + 9]);
    }
    match LogEntry::from_bytes(rec.as_slice()) {
        Err(e) => FrameStep::Fault(e),
        Ok(entry) => {
            proof {
                let b = bytes@;
                let off = offset as int;
                assert(parsed_from(entry, rec@));
                assert(frame_key_len(b, off) == key_len as nat);
                assert(frame_value_len(b, off) == value_len as nat);
                let sz = entry_size_spec(frame_key_len(b, off), frame_value_len(b, off)) as int;
                assert(sz == size as int);
                assert(rec@ == b.subrange(off, off + sz));
                assert(parsed_from(entry, b.subrange(off, off + sz)));
            }
            if !entry.verify_checksum() {
                return FrameStep::Fault(WalError::ChecksumMismatch);
            }
            FrameStep::Record(entry, offset + size)
        },
    }
}

/// Whether an entry of `entry_len` bytes appended at `file_offset` would pass the file's
/// size limit, so that a new file is started first.
pub fn should_roll(file_offset: u64, entry_len: u64, max_file_size: u64) -> (r: bool)
    ensures
        r == (file_offset + entry_len > max_file_size),
{
    entry_len > max_file_size || file_offset > max_file_size - entry_len
}

/// Whether a log file whose first sequence is `start_sequence` lies wholly before a
/// checkpoint at `checkpoint_sequence` (by more than ten thousand records).
pub fn superseded_by_checkpoint(start_sequence: u64, checkpoint_sequence: u64) -> (r: bool)
    ensures
        r == (start_sequence + 10000 < checkpoint_sequence),
{
    start_sequence < checkpoint_sequence && checkpoint_sequence - start_sequence > 10000
}

/// Whether log file `file_number` is older than the `max_retained` files before the
/// current one.
pub fn beyond_retention(file_number: u64, max_retained: usize, current_file_number: u64) -> (r: bool)
    ensures
        r == (file_number + max_retained < current_file_number),
{
    file_number < current_file_number && (current_file_number - file_number) as u128 > max_retained as u128
}

/// How a scan of a log file's records ends: with the highest sequence seen, or at a value
/// length past the end of the file.
pub enum ScanEnd {
    Last(u64),
    Eof,
}

/// Scans the records of a log file from `off`, as a manager does at startup: the highest
/// sequence among the well-formed records, starting from `last`. A tail under 33 bytes or a
/// record cut short ends the scan; a value length past the end of the file is an error.
pub open spec fn scan_records(b: Seq<u8>, off: int, last: u64) -> ScanEnd
    decreases b.len() - off,
{
    if off < 0 || off >= b.len() || b.len() - off < 33 {
        ScanEnd::Last(last)
    } else if off + 18 + frame_key_len(b, off) > b.len() {
        ScanEnd::Eof
    } else {
        let size = entry_size_spec(frame_key_len(b, off), frame_value_len(b, off)) as int;
        if b.len() - off < size {
            ScanEnd::Last(last)
        } else {
            let ok = size >= 33 && b[off + 8] <= 1 && b[off + 9] <= 2;
            let s = be_value(b.subrange(off, off + 8)) as u64;
            scan_records(
                b,
                off + size,
                if ok && s > last {
                    s
                } else {
                    last
                },
            )
        }
    }
}

/// The error of reading past the end of a file: an I/O error of kind `UnexpectedEof`, as
/// `read_exact` reports it.
pub(crate) fn short_read() -> (r: WalError)
    ensures
        r matches WalError::IOError(_),
{
    WalError::IOError(io_error(IoFailure::UnexpectedEof, "failed to fill whole buffer"))
}

/// The highest sequence in a log file starting from `last`, if the file reads (see
/// `last_sequence_in`).
pub open spec fn last_in_file(b: Seq<u8>, last: u64) -> Option<u64> {
    if b.len() < 36 || !magic_field_ok(b.take(16)) {
        None
    } else {
        match scan_records(b, 36, last) {
            ScanEnd::Last(x) => Some(x),
            ScanEnd::Eof => None,
        }
    }
}

/// The highest sequence across log files read in order, starting from `last`; none if any
/// file does not read.
pub open spec fn last_across(files: Seq<Seq<u8>>, last: u64) -> Option<u64>
    decreases files.len(),
{
    if files.len() == 0 {
        Some(last)
    } else {
        match last_across(files.drop_last(), last) {
            Some(x) => last_in_file(files.last(), x),
            None => None,
        }
    }
}

/// The highest sequence across the contents of the log files, in order, starting from
/// `last`: each file goes through `last_sequence_in` with what the ones before gave, and
/// the first error stops the scan.
pub fn last_sequence_across(files: &Vec<Vec<u8>>, last: u64) -> (r: Result<u64, WalError>)
    ensures
        match last_across(files@.map_values(|f: Vec<u8>| f@), last) {
            Some(x) => r == Ok::<u64, WalError>(x),
            None => r is Err,
        },
{
    let ghost fs = files@.map_values(|f: Vec<u8>| f@);
    let mut cur = last;
    let mut i: usize = 0;
    proof {
        assert(fs.take(0) =~= Seq::<Seq<u8>>::empty());
    }
    while i < files.len()
        invariant
            i <= files@.len(),
            fs == files@.map_values(|f: Vec<u8>| f@),
            last_across(fs.take(i as int), last) == Some(cur),
        decreases files@.len() - i,
    {
        proof {
            assert(fs.take(i + 1).drop_last() =~= fs.take(i as int));
            assert(fs.take(i + 1).last() == files@[i as int]@);
        }
        match last_sequence_in(files[i].as_slice(), cur) {
            Ok(x) => {
                cur = x;
            },
            Err(e) => {
                proof {
                    assert(last_across(fs.take(i + 1), last) is None);
                    lemma_last_across_stays_none(fs, last, i + 1);
                    assert(fs.take(fs.len() as int) =~= fs);
                }
                return Err(e);
            },
        }
        i = i + 1;
    }
    proof {
        assert(fs.take(fs.len() as int) =~= fs);
    }
    Ok(cur)
}

/// Once the scan fails it stays failed.
proof fn lemma_last_across_stays_none(fs: Seq<Seq<u8>>, last: u64, n: int)
    requires
        0 <= n <= fs.len(),
        last_across(fs.take(n), last) is None,
    ensures
        last_across(fs.take(fs.len() as int), last) is None,
    decreases fs.len() - n,
{
    if n < fs.len() {
        assert(fs.take(n + 1).drop_last() =~= fs.take(n));
        lemma_last_across_stays_none(fs, last, n + 1);
    }
}

/// The highest sequence in a log file, starting from `last`: the header is read first (a
/// file under 36 bytes is an I/O error of kind `UnexpectedEof`, as reading a whole header
/// from it fails; a bad magic `InvalidHeader`), then the records
/// are scanned (see `scan_records`).
pub fn last_sequence_in(bytes: &[u8], last: u64) -> (r: Result<u64, WalError>)
    ensures
        bytes@.len() < 36 ==> r matches Err(WalError::IOError(_)),
        bytes@.len() >= 36 && !magic_field_ok(bytes@.take(16)) ==> (r matches Err(
            WalError::InvalidHeader(_),
        )),
        bytes@.len() >= 36 && magic_field_ok(bytes@.take(16)) ==> match scan_records(
            bytes@,
            36,
            last,
        ) {
            ScanEnd::Last(x) => r matches Ok(y) && y == x,
            ScanEnd::Eof => r matches Err(WalError::IOError(_)),
        },
{
    if bytes.len() < HEADER_SIZE {
        return Err(short_read());
    }
    let head = copy_range(bytes, 0, HEADER_SIZE);
    proof {
        assert(head@.take(16) =~= bytes@.take(16));
    }
    match WalHeader::from_bytes(head.as_slice()) {
        Err(e) => {
            return Err(e);
        },
        Ok(_) => {},
    }
    let len = bytes.len();
    let mut off: usize = HEADER_SIZE;
    let mut cur = last;
    loop
        invariant
            off <= len == bytes@.len(),
            len >= 36,
            magic_field_ok(bytes@.take(16)),
            scan_records(bytes@, 36, last) == scan_records(bytes@, off as int, cur),
        decreases len - off,
    {
        if off >= len || len - off < 33 {
            return Ok(cur);
        }
        proof {
            lemma_pow256_facts();
            lemma_be_value_bound(bytes@.subrange(off + 10, off + 14));
        }
        let key_len = read_be(bytes, off + 10, 4) as usize;
        if len - off - 14 < key_len || len - off - 14 - key_len < 4 {
            return Err(short_read());
        }
        proof {
            lemma_be_value_bound(bytes@.subrange(off + 14 + key_len, off + 18 + key_len));
        }
        let value_len = read_be(bytes, off + 14 + key_len, 4) as usize;
        if len - off - 18 - key_len < value_len || len - off - 18 - key_len - value_len < 12 {
            return Ok(cur);
        }
        let size = 30 + key_len + value_len;
        let ok = size >= 33 && bytes[off + 8] <= 1 && bytes[off + 9] <= 2;
        let s = read_be(bytes, off, 8);
        if ok && s > cur {
            cur = s;
        }
        off = off + size;
    }
}

} // verus!

use vstd::prelude::*;
use vstd::multiset::Multiset;
use vstd::utf8::*;
use crate::byte_order::be_value;
use crate::decimal::{nat_digits, u64_to_string};
use crate::key_order::{compare_bytes, lemma_lex_flip, lemma_lex_refl, lemma_lex_trans, lex_order, KeyOrder};
use crate::text::{prefixed, utf8_lossy_chars};
use crate::wal::errors::WalError;
use crate::wal::log_entry::LogEntry;
use crate::wal::wal_files::{
    frame_kind, frame_seq, frame_size, frame_spec, lemma_frame_kind, next_frame, wal_suffix,
    FrameKind, FrameStep,
};
use crate::wal::wal_header::{magic_field_ok, trim_zeros, HEADER_SIZE, WalHeader};

verus! {

/// Whether a directory entry names a log file: its name ends with `.wal`.
pub fn is_wal_file_name(name: &str) -> (r: bool)
    ensures
        r == (encode_utf8(name@).len() >= 4 && encode_utf8(name@).subrange(
            encode_utf8(name@).len() - 4,
            encode_utf8(name@).len() as int,
        ) == wal_suffix()),
{
    let b = name.as_bytes();
    let n = b.len();
    if n < 4 {
        return false;
    }
    let r = b[n - 4] == 46u8 && b[n - 3] == 119u8 && b[n - 2] == 97u8 && b[n - 1] == 108u8;
    proof {
        let t = b@.subrange(n - 4, n as int);
        if r {
            assert(t =~= wal_suffix());
        } else if t == wal_suffix() {
            assert(t[0] == b@[n - 4] && t[1] == b@[n - 3] && t[2] == b@[n - 2] && t[3] == b@[n - 1]);
        }
    }
    r
}

/// The name and contents of each file, by view.
pub open spec fn files_view(s: Seq<(String, Vec<u8>)>) -> Seq<(Seq<char>, Seq<u8>)> {
    s.map_values(|f: (String, Vec<u8>)| (f.0@, f.1@))
}

/// `a` comes no later than `b` in the order of `str`.
pub open spec fn name_le(a: Seq<char>, b: Seq<char>) -> bool {
    lex_order(encode_utf8(a), encode_utf8(b)) != KeyOrder::Greater
}

/// The files are in the order of their names.
pub open spec fn sorted_by_name(s: Seq<(Seq<char>, Seq<u8>)>) -> bool {
    forall|i: int, j: int| 0 <= i < j < s.len() ==> name_le(#[trigger] s[i].0, #[trigger] s[j].0)
}

/// File `i` has a name that no other name comes before.
pub open spec fn first_by_name(s: Seq<(Seq<char>, Seq<u8>)>, i: int) -> bool {
    forall|j: int| 0 <= j < s.len() ==> name_le(s[i].0, #[trigger] s[j].0)
}

/// Inserting `x` after the names that do not come after it and before one that does keeps
/// the files in order.
proof fn lemma_insert_keeps_name_order(s: Seq<(Seq<char>, Seq<u8>)>, p: int, x: (Seq<char>, Seq<u8>))
    requires
        sorted_by_name(s),
        0 <= p <= s.len(),
        forall|j: int|
            0 <= j < p ==> lex_order(encode_utf8(x.0), encode_utf8(#[trigger] s[j].0))
                != KeyOrder::Less,
        p < s.len() ==> lex_order(encode_utf8(x.0), encode_utf8(s[p].0)) == KeyOrder::Less,
    ensures
        sorted_by_name(s.insert(p, x)),
{
    let t = s.insert(p, x);
    assert forall|i: int, j: int| 0 <= i < j < t.len() implies name_le(#[trigger] t[i].0, #[trigger] t[j].0) by {
        let xb = encode_utf8(x.0);
        if j < p {
            assert(t[i] == s[i] && t[j] == s[j]);
        } else if i > p {
            assert(t[i] == s[i - 1] && t[j] == s[j - 1]);
        } else if i == p {
            assert(t[i] == x && t[j] == s[j - 1]);
            let sp = encode_utf8(s[p].0);
            if j - 1 > p {
                assert(name_le(s[p].0, s[j - 1].0));
            } else {
                lemma_lex_refl(sp);
            }
            lemma_lex_trans(xb, sp, encode_utf8(s[j - 1].0));
        } else if j == p {
            assert(t[i] == s[i] && t[j] == x);
            lemma_lex_flip(xb, encode_utf8(s[i].0));
        } else {
            assert(i < p && p < j);
            assert(t[i] == s[i] && t[j] == s[j - 1]);
        }
    }
}

/// Inserts `x` into files sorted by name, after every file whose name does not come after
/// its own.
fn insert_by_name(out: &mut Vec<(String, Vec<u8>)>, x: (String, Vec<u8>))
    requires
        sorted_by_name(files_view(old(out)@)),
    ensures
        sorted_by_name(files_view(final(out)@)),
        files_view(final(out)@).to_multiset() == files_view(old(out)@).to_multiset().insert(
            (x.0@, x.1@),
        ),
{
    let ghost xv = (x.0@, x.1@);
    let mut p: usize = 0;
    let mut done = false;
    while p < out.len() && !done
        invariant
            p <= out@.len(),
            out@ == old(out)@,
            forall|j: int|
                0 <= j < p ==> lex_order(encode_utf8(x.0@), encode_utf8((#[trigger] out@[j]).0@))
                    != KeyOrder::Less,
            done ==> p < out@.len() && lex_order(encode_utf8(x.0@), encode_utf8(out@[p as int].0@))
                == KeyOrder::Less,
        decreases out@.len() - p + (if done {
            0int
        } else {
            1int
        }),
    {
        if compare_bytes(x.0.as_str().as_bytes(), out[p].0.as_str().as_bytes()) == KeyOrder::Less {
            done = true;
        } else {
            p = p + 1;
        }
    }
    proof {
        let s = files_view(out@);
        assert forall|j: int| 0 <= j < p implies lex_order(encode_utf8(xv.0), encode_utf8(#[trigger] s[j].0))
            != KeyOrder::Less by {
            assert(s[j].0 == out@[j].0@);
        }
        lemma_insert_keeps_name_order(s, p as int, xv);
        assert(files_view(out@.insert(p as int, x)) =~= s.insert(p as int, xv));
        vstd::seq_lib::to_multiset_insert(s, p as int, xv);
    }
    out.insert(p, x);
}

/// The files sorted by name, as `sort_by` with `str`'s order leaves them: the same files,
/// each name no later than the next.
pub fn sort_by_name(files: Vec<(String, Vec<u8>)>) -> (r: Vec<(String, Vec<u8>)>)
    ensures
        files_view(r@).to_multiset() == files_view(files@).to_multiset(),
        sorted_by_name(files_view(r@)),
{
    broadcast use vstd::multiset::group_multiset_axioms;

    let mut rest = files;
    let mut out: Vec<(String, Vec<u8>)> = Vec::new();
    proof {
        vstd::seq_lib::to_multiset_len(files_view(out@));
        vstd::multiset::lemma_multiset_empty_len(files_view(out@).to_multiset());
    }
    while rest.len() > 0
        invariant
            files_view(out@).to_multiset().add(files_view(rest@).to_multiset()) == files_view(
                files@,
            ).to_multiset(),
            sorted_by_name(files_view(out@)),
        decreases rest@.len(),
    {
        let ghost before = rest@;
        let x = match rest.pop() {
            Some(x) => x,
            None => {
                proof {
                    assert(false);
                }
                return out;
            },
        };
        proof {
            let xv = (x.0@, x.1@);
            let r = files_view(rest@);
            assert(files_view(before) =~= r.insert(r.len() as int, xv));
            vstd::seq_lib::to_multiset_insert(r, r.len() as int, xv);
        }
        let ghost out_before = files_view(out@).to_multiset();
        let ghost xv = (x.0@, x.1@);
        insert_by_name(&mut out, x);
        proof {
            let r = files_view(rest@).to_multiset();
            assert(out_before.insert(xv).add(r) =~= out_before.add(r.insert(xv)));
        }
    }
    proof {
        vstd::seq_lib::to_multiset_len(files_view(rest@));
        vstd::multiset::lemma_multiset_empty_len(files_view(rest@).to_multiset());
        assert(files_view(out@).to_multiset().add(Multiset::empty()) =~= files_view(out@).to_multiset());
    }
    out
}

/// A log file opens when it starts with a header that holds the log magic.
pub open spec fn file_opens(b: Seq<u8>) -> bool {
    b.len() >= 36 && magic_field_ok(b.take(16))
}

/// The first sequence of a log file, from its header.
pub open spec fn file_start(b: Seq<u8>) -> u64 {
    be_value(b.subrange(20, 28)) as u64
}

/// The error of opening a log file that does not open: shorter than a header, or with
/// another magic.
pub open spec fn open_fault(b: Seq<u8>, e: WalError) -> bool {
    if b.len() < 36 {
        e matches WalError::InvalidHeader(m) && m@ == "file too short"@
    } else {
        e matches WalError::InvalidHeader(m) && m@ == "invalid magic: "@ + utf8_lossy_chars(
            trim_zeros(b.take(16)),
        )
    }
}

/// Opens a log file: its first sequence, from its header.
fn open_file(bytes: &[u8]) -> (r: Result<u64, WalError>)
    ensures
        file_opens(bytes@) ==> (r matches Ok(s) && s == file_start(bytes@)),
        !file_opens(bytes@) ==> (r matches Err(e) && open_fault(bytes@, e)),
{
    if bytes.len() < HEADER_SIZE {
        return Err(WalError::InvalidHeader("file too short".to_owned()));
    }
    match WalHeader::from_bytes(bytes) {
        Ok(h) => Ok(h.get_start_sequence()),
        Err(e) => Err(e),
    }
}

/// Where reading from file `idx` at offset `off` stops next: at a record or a fault
/// (`Frame`), at the end of the last file (`Done`), or at a next file that does not open
/// (`Unopenable`). Each file that ends gives way to the next, read from after its header.
pub enum ReadAt {
    Frame(int, int),
    Done(int, int),
    Unopenable(int),
}

pub open spec fn read_at(files: Seq<Seq<u8>>, idx: int, off: int) -> ReadAt
    decreases files.len() - idx,
{
    if idx < 0 || idx >= files.len() {
        ReadAt::Done(idx, off)
    } else if !(frame_kind(files[idx], off) is End) {
        ReadAt::Frame(idx, off)
    } else if idx + 1 >= files.len() {
        ReadAt::Done(idx, off)
    } else if !file_opens(files[idx + 1]) {
        ReadAt::Unopenable(idx + 1)
    } else {
        read_at(files, idx + 1, 36)
    }
}

/// The sequence a reader that was at file `from` with sequence `seq` has at file `at`: a
/// file it moved to sets it to the file's first sequence.
pub open spec fn seq_after(files: Seq<Seq<u8>>, from: int, seq: u64, at: int) -> u64 {
    if at == from {
        seq
    } else {
        file_start(files[at])
    }
}

/// The offset a reader that was at file `from` and offset `off` has at file `at`.
pub open spec fn off_after(from: int, off: int, at: int) -> int {
    if at == from {
        off
    } else {
        36
    }
}

/// Reading stops at a later file, or where it is.
pub proof fn lemma_read_at_forward(files: Seq<Seq<u8>>, idx: int, off: int)
    requires
        0 <= idx < files.len(),
    ensures
        match read_at(files, idx, off) {
            ReadAt::Frame(i, o) => idx <= i < files.len() && (i == idx ==> o == off) && (i > idx
                ==> o == 36 && file_opens(files[i])) && !(frame_kind(files[i], o) is End),
            ReadAt::Done(i, o) => idx <= i < files.len() && i == files.len() - 1 && (i == idx ==> o
                == off) && (i > idx ==> o == 36 && file_opens(files[i])),
            ReadAt::Unopenable(j) => idx < j < files.len() && !file_opens(files[j]) && (j - 1 > idx
                ==> file_opens(files[j - 1])),
        },
    decreases files.len() - idx,
{
    if !(frame_kind(files[idx], off) is End) {
    } else if idx + 1 >= files.len() {
    } else if !file_opens(files[idx + 1]) {
    } else {
        lemma_read_at_forward(files, idx + 1, 36);
    }
}

/// How a seek ends.
pub enum SeekEnd {
    /// The sequence is reached: the file, offset and sequence of the reader, and where the
    /// last record read starts, if one was read.
    Reached(int, int, u64, Option<(int, int)>),
    /// The files end first: the file, offset and sequence of the reader.
    NotFound(int, int, u64),
    /// A next file does not open.
    Unopenable(int),
    /// The record at a file and offset cannot be read.
    Fault(int, int),
}

/// What is left of the file being read, past the offset.
pub open spec fn seek_measure(files: Seq<Seq<u8>>, idx: int, off: int) -> int {
    if 0 <= idx < files.len() && off <= files[idx].len() {
        files[idx].len() - off
    } else {
        0
    }
}

/// Reading records from file `idx` at `off`, with sequence `seq`, until the sequence reaches
/// `target`; `last` is where the last record read starts.
pub open spec fn seek_from(
    files: Seq<Seq<u8>>,
    idx: int,
    off: int,
    seq: u64,
    target: u64,
    last: Option<(int, int)>,
) -> SeekEnd
    decreases files.len() - idx, seek_measure(files, idx, off),
    via seek_from_decreases
{
    if seq >= target {
        SeekEnd::Reached(idx, off, seq, last)
    } else if !(0 <= idx < files.len()) {
        SeekEnd::NotFound(idx, off, seq)
    } else {
        match read_at(files, idx, off) {
            ReadAt::Done(i, o) => SeekEnd::NotFound(i, o, seq_after(files, idx, seq, i)),
            ReadAt::Unopenable(j) => SeekEnd::Unopenable(j),
            ReadAt::Frame(i, o) => if frame_kind(files[i], o) is Record {
                seek_from(
                    files,
                    i,
                    o + frame_size(files[i], o),
                    frame_seq(files[i], o),
                    target,
                    Some((i, o)),
                )
            } else {
                SeekEnd::Fault(i, o)
            },
        }
    }
}

#[via_fn]
proof fn seek_from_decreases(
    files: Seq<Seq<u8>>,
    idx: int,
    off: int,
    seq: u64,
    target: u64,
    last: Option<(int, int)>,
) {
    if seq < target && 0 <= idx < files.len() {
        lemma_read_at_forward(files, idx, off);
    }
}

/// The decimal text of `n`.
pub open spec fn decimal_text(n: u64) -> Seq<char> {
    decode_utf8(nat_digits(n as nat))
}

/// The message of a seek to a sequence before the first.
pub open spec fn before_start_text(sequence: u64, start: u64) -> Seq<char> {
    "sequence "@ + decimal_text(sequence) + " before start sequence "@ + decimal_text(start)
}

/// The message of a seek past the last record.
pub open spec fn not_found_text(sequence: u64) -> Seq<char> {
    "sequence "@ + decimal_text(sequence) + " not found"@
}

/// The decimal text of `n`, as a string.
fn decimal_string(n: u64) -> (r: String)
    ensures
        r@ == decimal_text(n),
{
    let t = u64_to_string(n);
    proof {
        vstd::utf8::encode_utf8_decode_utf8(t@);
    }
    t
}

/// How reading every record stops: at the end of the last file (the file, offset and
/// sequence of the reader), at a next file that does not open, or at a record that cannot
/// be read.
pub enum ReadEnd {
    Clean(int, int, u64),
    Unopenable(int),
    Fault(int, int),
}

/// Where each record read from file `idx` at `off`, with sequence `seq`, starts, and how
/// reading stops.
pub open spec fn read_all_from(files: Seq<Seq<u8>>, idx: int, off: int, seq: u64) -> (
    Seq<(int, int)>,
    ReadEnd,
)
    decreases files.len() - idx, seek_measure(files, idx, off),
    via read_all_from_decreases
{
    if !(0 <= idx < files.len()) {
        (Seq::empty(), ReadEnd::Clean(idx, off, seq))
    } else {
        match read_at(files, idx, off) {
            ReadAt::Done(i, o) => (Seq::empty(), ReadEnd::Clean(i, o, seq_after(files, idx, seq, i))),
            ReadAt::Unopenable(j) => (Seq::empty(), ReadEnd::Unopenable(j)),
            ReadAt::Frame(i, o) => if frame_kind(files[i], o) is Record {
                let rest = read_all_from(
                    files,
                    i,
                    o + frame_size(files[i], o),
                    frame_seq(files[i], o),
                );
                (seq![(i, o)] + rest.0, rest.1)
            } else {
                (Seq::empty(), ReadEnd::Fault(i, o))
            },
        }
    }
}

#[via_fn]
proof fn read_all_from_decreases(files: Seq<Seq<u8>>, idx: int, off: int, seq: u64) {
    if 0 <= idx < files.len() {
        lemma_read_at_forward(files, idx, off);
    }
}

/// A reader of the log files, given their names and contents: it reads the records of each
/// file in name order, from the first file's first record.
pub struct WalReader {
    files: Vec<(String, Vec<u8>)>,
    current_file_index: usize,
    current_sequence: u64,
    file_offset: usize,
    start_sequence: u64,
}

impl WalReader {
    /// The names and contents of the files, in the order they are read.
    pub closed spec fn listing(&self) -> Seq<(Seq<char>, Seq<u8>)> {
        files_view(self.files@)
    }

    /// The contents of the files, in the order they are read.
    pub open spec fn contents(&self) -> Seq<Seq<u8>> {
        self.listing().map_values(|f: (Seq<char>, Seq<u8>)| f.1)
    }

    /// The file being read.
    pub closed spec fn at_file(&self) -> int {
        self.current_file_index as int
    }

    /// The offset of the next record in the file being read.
    pub closed spec fn at_offset(&self) -> int {
        self.file_offset as int
    }

    /// The sequence of the last record read, or the first sequence of the file being read.
    pub closed spec fn at_sequence(&self) -> u64 {
        self.current_sequence
    }

    /// The first sequence of the first file.
    pub closed spec fn start_spec(&self) -> u64 {
        self.start_sequence
    }

    /// There are files, the first of which opens and gives the first sequence.
    pub closed spec fn wf(&self) -> bool {
        &&& self.files@.len() > 0
        &&& self.current_file_index < self.files@.len()
        &&& file_opens(self.contents()[0])
        &&& self.start_sequence == file_start(self.contents()[0])
    }

    proof fn lemma_contents(&self)
        ensures
            self.contents().len() == self.files@.len(),
            forall|i: int| 0 <= i < self.files@.len() ==> #[trigger] self.contents()[i] == self.files@[i].1@,
    {
        assert forall|i: int| 0 <= i < self.files@.len() implies #[trigger] self.contents()[i]
            == self.files@[i].1@ by {
            assert(self.listing()[i] == (self.files@[i].0@, self.files@[i].1@));
        }
    }

    /// A reader of `files`, sorted by name, at the first record of the first; an empty list
    /// is `FileNotFound`, and a first file that does not open gives its error.
    pub fn new(files: Vec<(String, Vec<u8>)>) -> (r: Result<WalReader, WalError>)
        ensures
            files@.len() == 0 ==> r matches Err(WalError::FileNotFound),
            match r {
                Ok(rd) => {
                    &&& rd.wf()
                    &&& rd.listing().to_multiset() == files_view(files@).to_multiset()
                    &&& sorted_by_name(rd.listing())
                    &&& rd.at_file() == 0
                    &&& rd.at_offset() == 36
                    &&& rd.at_sequence() == rd.start_spec()
                },
                Err(e) => files@.len() == 0 || exists|i: int|
                    0 <= i < files@.len() && first_by_name(files_view(files@), i) && !file_opens(
                        files@[i].1@,
                    ) && open_fault(files@[i].1@, e),
            },
            files@.len() > 0 && (forall|i: int|
                0 <= i < files@.len() && first_by_name(files_view(files@), i) ==> file_opens(
                    files@[i].1@,
                )) ==> r is Ok,
    {
        let ghost fv = files_view(files@);
        let sorted = sort_by_name(files);
        let ghost sv = files_view(sorted@);
        proof {
            vstd::seq_lib::to_multiset_len(sv);
            vstd::seq_lib::to_multiset_len(fv);
        }
        if sorted.len() == 0 {
            return Err(WalError::FileNotFound);
        }
        proof {
            let x = sv[0];
            vstd::seq_lib::to_multiset_contains(sv, x);
            assert(sv.contains(x));
            vstd::seq_lib::to_multiset_contains(fv, x);
            let i = choose|i: int| 0 <= i < fv.len() && fv[i] == x;
            assert forall|j: int| 0 <= j < fv.len() implies name_le(fv[i].0, #[trigger] fv[j].0) by {
                vstd::seq_lib::to_multiset_contains(fv, fv[j]);
                assert(fv.contains(fv[j]));
                vstd::seq_lib::to_multiset_contains(sv, fv[j]);
                let k = choose|k: int| 0 <= k < sv.len() && sv[k] == fv[j];
                if k == 0 {
                    lemma_lex_refl(encode_utf8(x.0));
                } else {
                    assert(name_le(sv[0].0, sv[k].0));
                }
            }
            assert(first_by_name(fv, i));
            assert(files@[i].1@ == fv[i].1);
            assert(sorted@[0].1@ == sv[0].1);
        }
        let start = match open_file(sorted[0].1.as_slice()) {
            Ok(s) => s,
            Err(e) => {
                return Err(e);
            },
        };
        let rd = WalReader {
            files: sorted,
            current_file_index: 0,
            current_sequence: start,
            file_offset: HEADER_SIZE,
            start_sequence: start,
        };
        proof {
            rd.lemma_contents();
        }
        Ok(rd)
    }

    /// Reads the next record: the files that end give way to the next ones (a next file that
    /// does not open is its error), the end of the last file is `None`, and a record that
    /// cannot be read is its error (see `read_at` and `frame_spec`).
    pub fn read_entry(&mut self) -> (r: Result<Option<LogEntry>, WalError>)
        requires
            old(self).wf(),
        ensures
            final(self).wf(),
            final(self).listing() == old(self).listing(),
            final(self).start_spec() == old(self).start_spec(),
            ({
                let f = old(self).contents();
                let i0 = old(self).at_file();
                let o0 = old(self).at_offset();
                let s0 = old(self).at_sequence();
                match read_at(f, i0, o0) {
                    ReadAt::Done(i, o) => r matches Ok(None) && final(self).at_file() == i
                        && final(self).at_offset() == o && final(self).at_sequence() == seq_after(
                        f,
                        i0,
                        s0,
                        i,
                    ),
                    ReadAt::Unopenable(j) => (r matches Err(e) && open_fault(f[j], e))
                        && final(self).at_file() == j && final(self).at_offset() == off_after(
                        i0,
                        o0,
                        j - 1,
                    ) && final(self).at_sequence() == seq_after(f, i0, s0, j - 1),
                    ReadAt::Frame(i, o) => final(self).at_file() == i && match r {
                        Ok(Some(e)) => frame_spec(
                            f[i],
                            o,
                            FrameStep::Record(e, final(self).at_offset() as usize),
                        ) && final(self).at_sequence() == e.seq,
                        Ok(None) => false,
                        Err(err) => frame_spec(f[i], o, FrameStep::Fault(err))
                            && final(self).at_offset() == o && final(self).at_sequence()
                            == seq_after(f, i0, s0, i),
                    },
                }
            }),
    {
        let ghost f = self.contents();
        let ghost i0 = self.at_file();
        let ghost o0 = self.at_offset();
        let ghost s0 = self.at_sequence();
        proof {
            self.lemma_contents();
            lemma_read_at_forward(f, i0, o0);
        }
        loop
            invariant
                self.wf(),
                self.listing() == old(self).listing(),
                self.start_spec() == old(self).start_spec(),
                f == self.contents(),
                f == old(self).contents(),
                i0 == old(self).at_file(),
                o0 == old(self).at_offset(),
                s0 == old(self).at_sequence(),
                f.len() == self.files@.len(),
                forall|i: int| 0 <= i < self.files@.len() ==> #[trigger] f[i] == self.files@[i].1@,
                0 <= i0 <= self.at_file(),
                read_at(f, i0, o0) == read_at(f, self.at_file(), self.at_offset()),
                self.at_file() == i0 ==> self.at_offset() == o0 && self.at_sequence() == s0,
                self.at_file() > i0 ==> self.at_offset() == 36 && self.at_sequence() == file_start(
                    f[self.at_file()],
                ),
            decreases f.len() - self.at_file(),
        {
            let idx = self.current_file_index;
            let off = self.file_offset;
            let step = next_frame(self.files[idx].1.as_slice(), off);
            proof {
                lemma_frame_kind(f[idx as int], off as int, step);
                if !(step is End) {
                    assert(read_at(f, idx as int, off as int) == ReadAt::Frame(idx as int, off as int));
                }
            }
            match step {
                FrameStep::Record(e, next) => {
                    proof {
                        assert(frame_spec(f[idx as int], off as int, FrameStep::Record(e, next)));
                    }
                    self.current_sequence = e.seq;
                    self.file_offset = next;
                    return Ok(Some(e));
                },
                FrameStep::Fault(err) => {
                    return Err(err);
                },
                FrameStep::End => {
                    if idx >= self.files.len() - 1 {
                        return Ok(None);
                    }
                    match open_file(self.files[idx + 1].1.as_slice()) {
                        Err(e) => {
                            self.current_file_index = idx + 1;
                            return Err(e);
                        },
                        Ok(start) => {
                            self.current_file_index = idx + 1;
                            self.current_sequence = start;
                            self.file_offset = HEADER_SIZE;
                        },
                    }
                },
            }
        }
    }

    /// Goes back to the first record of the first file, and reads until the sequence
    /// reaches `sequence`: gives the last record read, if any (see `seek_from`). A sequence
    /// before the first is refused, and so is one that the files end before.
    pub fn seek_to(&mut self, sequence: u64) -> (r: Result<Option<LogEntry>, WalError>)
        requires
            old(self).wf(),
        ensures
            final(self).wf(),
            final(self).listing() == old(self).listing(),
            final(self).start_spec() == old(self).start_spec(),
            sequence < old(self).start_spec() ==> (r matches Err(WalError::InvalidHeader(m)) && m@
                == before_start_text(sequence, old(self).start_spec())) && final(self).at_file()
                == old(self).at_file() && final(self).at_offset() == old(self).at_offset()
                && final(self).at_sequence() == old(self).at_sequence(),
            sequence >= old(self).start_spec() ==> ({
                let f = old(self).contents();
                match seek_from(f, 0, 36, old(self).start_spec(), sequence, None) {
                    SeekEnd::Reached(i, o, s, last) => final(self).at_file() == i && final(self).at_offset() == o && final(self).at_sequence() == s && match last {
                        None => r matches Ok(None),
                        Some((li, lo)) => r matches Ok(Some(e)) && frame_spec(
                            f[li],
                            lo,
                            FrameStep::Record(e, (lo + frame_size(f[li], lo)) as usize),
                        ),
                    },
                    SeekEnd::NotFound(i, o, s) => (r matches Err(WalError::InvalidHeader(m)) && m@
                        == not_found_text(sequence)) && final(self).at_file() == i && final(self).at_offset() == o && final(self).at_sequence() == s,
                    SeekEnd::Unopenable(j) => r matches Err(e) && open_fault(f[j], e),
                    SeekEnd::Fault(i, o) => r matches Err(e) && frame_spec(
                        f[i],
                        o,
                        FrameStep::Fault(e),
                    ),
                }
            }),
    {
        if sequence < self.start_sequence {
            let m1 = prefixed("sequence ", decimal_string(sequence).as_str());
            let m2 = prefixed(m1.as_str(), " before start sequence ");
            let m3 = prefixed(m2.as_str(), decimal_string(self.start_sequence).as_str());
            return Err(WalError::InvalidHeader(m3));
        }
        let ghost f = self.contents();
        proof {
            self.lemma_contents();
        }
        let start = match open_file(self.files[0].1.as_slice()) {
            Ok(s) => s,
            Err(e) => {
                proof {
                    assert(false);
                }
                return Err(e);
            },
        };
        self.current_file_index = 0;
        self.current_sequence = start;
        self.file_offset = HEADER_SIZE;
        let mut last: Option<LogEntry> = None;
        let ghost mut last_at: Option<(int, int)> = None;
        loop
            invariant
                self.wf(),
                self.listing() == old(self).listing(),
                self.start_spec() == old(self).start_spec(),
                f == self.contents(),
                f == old(self).contents(),
                f.len() == self.listing().len(),
                sequence >= self.start_spec(),
                0 <= self.at_file() < f.len(),
                seek_from(f, 0, 36, self.start_spec(), sequence, None) == seek_from(
                    f,
                    self.at_file(),
                    self.at_offset(),
                    self.at_sequence(),
                    sequence,
                    last_at,
                ),
                match last_at {
                    None => last is None,
                    Some((li, lo)) => last matches Some(e) && frame_spec(
                        f[li],
                        lo,
                        FrameStep::Record(e, (lo + frame_size(f[li], lo)) as usize),
                    ),
                },
            decreases f.len() - self.at_file(), seek_measure(f, self.at_file(), self.at_offset()),
        {
            if self.current_sequence >= sequence {
                return Ok(last);
            }
            let ghost i1 = self.at_file();
            let ghost o1 = self.at_offset();
            let ghost s1 = self.at_sequence();
            proof {
                lemma_read_at_forward(f, i1, o1);
            }
            match self.read_entry() {
                Ok(Some(e)) => {
                    proof {
                        let i = self.at_file();
                        let rec = FrameStep::Record(e, self.at_offset() as usize);
                        match read_at(f, i1, o1) {
                            ReadAt::Frame(fi, fo) => {
                                lemma_frame_kind(f[fi], fo, rec);
                                last_at = Some((fi, fo));
                            },
                            _ => {},
                        }
                    }
                    last = Some(e);
                },
                Ok(None) => {
                    let m1 = prefixed("sequence ", decimal_string(sequence).as_str());
                    let m2 = prefixed(m1.as_str(), " not found");
                    return Err(WalError::InvalidHeader(m2));
                },
                Err(e) => {
                    proof {
                        match read_at(f, i1, o1) {
                            ReadAt::Frame(fi, fo) => {
                                lemma_frame_kind(f[fi], fo, FrameStep::Fault(e));
                            },
                            _ => {},
                        }
                    }
                    return Err(e);
                },
            }
        }
    }

    /// Goes back to the first record of the first file.
    pub fn reset(&mut self) -> (r: Result<(), WalError>)
        requires
            old(self).wf(),
        ensures
            r is Ok,
            final(self).wf(),
            final(self).listing() == old(self).listing(),
            final(self).start_spec() == old(self).start_spec(),
            final(self).at_file() == 0,
            final(self).at_offset() == 36,
            final(self).at_sequence() == old(self).start_spec(),
    {
        proof {
            self.lemma_contents();
        }
        let start = match open_file(self.files[0].1.as_slice()) {
            Ok(s) => s,
            Err(e) => {
                proof {
                    assert(false);
                }
                return Err(e);
            },
        };
        self.current_file_index = 0;
        self.current_sequence = start;
        self.file_offset = HEADER_SIZE;
        Ok(())
    }

    /// The sequence of the last record read, or the first of the file being read.
    pub fn current_sequence(&self) -> (r: u64)
        ensures
            r == self.at_sequence(),
    {
        self.current_sequence
    }

    /// The first sequence of the first file.
    pub fn start_sequence(&self) -> (r: u64)
        ensures
            r == self.start_spec(),
    {
        self.start_sequence
    }

    /// The offset of the next record in the file being read.
    pub fn file_offset(&self) -> (r: u64)
        ensures
            r == self.at_offset(),
    {
        self.file_offset as u64
    }

    /// The name of the file being read.
    pub fn current_file_name(&self) -> (r: Option<&str>)
        requires
            self.wf(),
        ensures
            r matches Some(n) && n@ == self.listing()[self.at_file()].0,
    {
        proof {
            assert(self.listing()[self.at_file()].0 == self.files@[self.at_file()].0@);
        }
        Some(self.files[self.current_file_index].0.as_str())
    }

    /// Reads every record from where the reader is, in turn: the records read, then the
    /// error that stopped reading, if one did (see `read_all_from`).
    pub fn iter(&mut self) -> (r: Vec<Result<LogEntry, WalError>>)
        requires
            old(self).wf(),
        ensures
            final(self).wf(),
            final(self).listing() == old(self).listing(),
            final(self).start_spec() == old(self).start_spec(),
            ({
                let f = old(self).contents();
                let all = read_all_from(f, old(self).at_file(), old(self).at_offset(), old(self).at_sequence());
                &&& r@.len() == all.0.len() + if all.1 is Clean {
                    0int
                } else {
                    1int
                }
                &&& forall|k: int|
                    0 <= k < all.0.len() ==> (#[trigger] r@[k] matches Ok(e) && frame_spec(
                        f[all.0[k].0],
                        all.0[k].1,
                        FrameStep::Record(e, (all.0[k].1 + frame_size(f[all.0[k].0], all.0[k].1)) as usize),
                    ))
                &&& match all.1 {
                    ReadEnd::Clean(i, o, s) => final(self).at_file() == i && final(self).at_offset() == o
                        && final(self).at_sequence() == s,
                    ReadEnd::Unopenable(j) => r@.last() matches Err(e) && open_fault(f[j], e),
                    ReadEnd::Fault(i, o) => r@.last() matches Err(e) && frame_spec(
                        f[i],
                        o,
                        FrameStep::Fault(e),
                    ),
                }
            }),
    {
        let ghost f = self.contents();
        let ghost all = read_all_from(f, self.at_file(), self.at_offset(), self.at_sequence());
        let ghost mut locs: Seq<(int, int)> = Seq::empty();
        let mut out: Vec<Result<LogEntry, WalError>> = Vec::new();
        proof {
            self.lemma_contents();
        }
        loop
            invariant
                self.wf(),
                self.listing() == old(self).listing(),
                self.start_spec() == old(self).start_spec(),
                f == self.contents(),
                f == old(self).contents(),
                f.len() == self.listing().len(),
                0 <= self.at_file() < f.len(),
                all == read_all_from(f, old(self).at_file(), old(self).at_offset(), old(self).at_sequence()),
                all.0 == locs + read_all_from(f, self.at_file(), self.at_offset(), self.at_sequence()).0,
                all.1 == read_all_from(f, self.at_file(), self.at_offset(), self.at_sequence()).1,
                out@.len() == locs.len(),
                forall|k: int|
                    0 <= k < locs.len() ==> (#[trigger] out@[k] matches Ok(e) && frame_spec(
                        f[locs[k].0],
                        locs[k].1,
                        FrameStep::Record(e, (locs[k].1 + frame_size(f[locs[k].0], locs[k].1)) as usize),
                    )),
            decreases f.len() - self.at_file(), seek_measure(f, self.at_file(), self.at_offset()),
        {
            let ghost i1 = self.at_file();
            let ghost o1 = self.at_offset();
            proof {
                lemma_read_at_forward(f, i1, o1);
            }
            match self.read_entry() {
                Ok(Some(e)) => {
                    proof {
                        let rec = FrameStep::Record(e, self.at_offset() as usize);
                        match read_at(f, i1, o1) {
                            ReadAt::Frame(fi, fo) => {
                                lemma_frame_kind(f[fi], fo, rec);
                                let rest = read_all_from(f, self.at_file(), self.at_offset(), self.at_sequence()).0;
                                assert(locs + (seq![(fi, fo)] + rest) =~= locs.push((fi, fo)) + rest);
                                locs = locs.push((fi, fo));
                            },
                            _ => {},
                        }
                    }
                    out.push(Ok(e));
                },
                Ok(None) => {
                    proof {
                        assert(locs + Seq::<(int, int)>::empty() =~= locs);
                    }
                    return out;
                },
                Err(e) => {
                    proof {
                        match read_at(f, i1, o1) {
                            ReadAt::Frame(fi, fo) => {
                                lemma_frame_kind(f[fi], fo, FrameStep::Fault(e));
                            },
                            _ => {},
                        }
                        assert(locs + Seq::<(int, int)>::empty() =~= locs);
                    }
                    out.push(Err(e));
                    return out;
                },
            }
        }
    }
}

} // verus!

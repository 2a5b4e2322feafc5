use vstd::prelude::*;
use vstd::utf8::*;
use crate::byte_order::{
    be_bytes, be_value, lemma_be_bytes_len, lemma_be_value_bound, lemma_be_value_of_bytes,
    lemma_pow256_facts, push_be, read_be,
};
use crate::text::{
    all_ascii, copy_range, lemma_ascii_is_valid_utf8, prefixed, string_from_utf8, utf8_lossy,
    utf8_lossy_chars,
};
use crate::wal::errors::WalError;

verus! {

/// The size in bytes of a log file header.
pub const HEADER_SIZE: usize = 36;

/// The size of the magic field at the start of a header.
pub const MAGIC_SIZE: usize = 16;

/// The header at the start of every log file.
pub struct WalHeader {
    magic: String,
    version: u32,
    start_sequence: u64,
    create_time: u64,
}

/// The bytes of the log magic, `arookieofcDB`.
pub open spec fn wal_magic_bytes() -> Seq<u8> {
    seq![97u8, 114u8, 111u8, 111u8, 107u8, 105u8, 101u8, 111u8, 102u8, 99u8, 68u8, 66u8]
}

/// The text of the log magic.
pub open spec fn wal_magic_chars() -> Seq<char> {
    decode_utf8(wal_magic_bytes())
}

/// A magic's bytes fitted to the 16-byte field: padded with zeros or cut.
pub open spec fn magic_field(m: Seq<u8>) -> Seq<u8> {
    if m.len() < 16 {
        m + Seq::new((16 - m.len()) as nat, |i: int| 0u8)
    } else {
        m.take(16)
    }
}

/// The bytes of a header: the magic field, then version, start sequence and creation time,
/// big-endian.
pub open spec fn header_bytes(magic: Seq<char>, version: u32, start: u64, created: u64) -> Seq<
    u8,
> {
    magic_field(encode_utf8(magic)) + be_bytes(version as nat, 4) + be_bytes(start as nat, 8)
        + be_bytes(created as nat, 8)
}

/// `b` with its trailing zero bytes removed.
pub open spec fn trim_zeros(b: Seq<u8>) -> Seq<u8>
    decreases b.len(),
{
    if b.len() > 0 && b.last() == 0 {
        trim_zeros(b.drop_last())
    } else {
        b
    }
}

/// Whether a 16-byte magic field holds the log magic: the magic, then zeros.
pub open spec fn magic_field_ok(f: Seq<u8>) -> bool {
    f == magic_field(wal_magic_bytes())
}

pub proof fn lemma_magic_valid()
    ensures
        valid_utf8(wal_magic_bytes()),
        encode_utf8(wal_magic_chars()) == wal_magic_bytes(),
{
    assert(all_ascii(wal_magic_bytes()));
    lemma_ascii_is_valid_utf8(wal_magic_bytes());
    decode_utf8_encode_utf8(wal_magic_bytes());
}

impl WalHeader {
    /// Builds a header from all its fields.
    pub fn new(magic: String, version: u32, start_sequence: u64, create_time: u64) -> (r:
        WalHeader)
        ensures
            r.magic() == magic@,
            r.version() == version,
            r.start_sequence() == start_sequence,
            r.create_time() == create_time,
    {
        WalHeader { magic, version, start_sequence, create_time }
    }

    pub closed spec fn magic(&self) -> Seq<char> {
        self.magic@
    }

    pub closed spec fn version(&self) -> u32 {
        self.version
    }

    pub closed spec fn start_sequence(&self) -> u64 {
        self.start_sequence
    }

    pub closed spec fn create_time(&self) -> u64 {
        self.create_time
    }

    /// The header's bytes (see `header_bytes`).
    pub open spec fn spec_bytes(&self) -> Seq<u8> {
        header_bytes(self.magic(), self.version(), self.start_sequence(), self.create_time())
    }

    pub fn get_magic(&self) -> (r: &String)
        ensures
            r@ == self.magic(),
    {
        &self.magic
    }

    pub fn get_version(&self) -> (r: u32)
        ensures
            r == self.version(),
    {
        self.version
    }

    pub fn get_start_sequence(&self) -> (r: u64)
        ensures
            r == self.start_sequence(),
    {
        self.start_sequence
    }

    pub fn get_create_time(&self) -> (r: u64)
        ensures
            r == self.create_time(),
    {
        self.create_time
    }

    /// The header's bytes.
    pub fn to_bytes(&self) -> (r: Vec<u8>)
        ensures
            r@ == self.spec_bytes(),
            r@.len() == HEADER_SIZE,
    {
        let m = self.magic.as_str().as_bytes();
        let mut header: Vec<u8> = Vec::new();
        let mut i: usize = 0;
        while i < 16
            invariant
                i <= 16,
                header@ == magic_field(m@).take(i as int),
            decreases 16 - i,
        {
            let b = if i < m.len() {
                m[i]
            } else {
                0u8
            };
            header.push(b);
            i = i + 1;
            proof {
                assert(header@ =~= magic_field(m@).take(i as int));
            }
        }
        proof {
            assert(magic_field(m@).take(16) =~= magic_field(m@));
        }
        push_be(&mut header, self.version as u64, 4);
        push_be(&mut header, self.start_sequence, 8);
        push_be(&mut header, self.create_time, 8);
        proof {
            lemma_be_bytes_len(self.version as nat, 4);
            lemma_be_bytes_len(self.start_sequence as nat, 8);
            lemma_be_bytes_len(self.create_time as nat, 8);
        }
        assert(header@ =~= self.spec_bytes());
        header
    }

    /// Reads a header. Fewer than 36 bytes give `InvalidHeader("header too short")`; a
    /// magic field other than the log magic followed by zeros gives `InvalidHeader` naming
    /// the magic found (its text with trailing zero bytes removed).
    pub fn from_bytes(bytes: &[u8]) -> (r: Result<WalHeader, WalError>)
        ensures
            bytes@.len() < 36 ==> (r matches Err(WalError::InvalidHeader(m)) && m@
                == "header too short"@),
            bytes@.len() >= 36 && !magic_field_ok(bytes@.take(16)) ==> (r matches Err(
                WalError::InvalidHeader(m),
            ) && m@ == "invalid magic: "@ + utf8_lossy_chars(trim_zeros(bytes@.take(16)))),
            bytes@.len() >= 36 && magic_field_ok(bytes@.take(16)) ==> (r matches Ok(h) && {
                &&& h.magic() == wal_magic_chars()
                &&& h.version() as nat == be_value(bytes@.subrange(16, 20))
                &&& h.start_sequence() as nat == be_value(bytes@.subrange(20, 28))
                &&& h.create_time() as nat == be_value(bytes@.subrange(28, 36))
            }),
    {
        if bytes.len() < HEADER_SIZE {
            return Err(WalError::InvalidHeader("header too short".to_owned()));
        }
        let expected: [u8; 16] = [
            97u8,
            114u8,
            111u8,
            111u8,
            107u8,
            105u8,
            101u8,
            111u8,
            102u8,
            99u8,
            68u8,
            66u8,
            0u8,
            0u8,
            0u8,
            0u8,
        ];
        proof {
            assert(expected@ =~= magic_field(wal_magic_bytes()));
        }
        let mut i: usize = 0;
        let mut same = true;
        assert(bytes@.take(0) =~= expected@.take(0));
        while i < 16
            invariant
                i <= 16 <= bytes@.len(),
                expected@ == magic_field(wal_magic_bytes()),
                same == (bytes@.take(i as int) == expected@.take(i as int)),
            decreases 16 - i,
        {
            proof {
                if same {
                    assert(bytes@.take(i + 1) =~= bytes@.take(i as int).push(bytes@[i as int]));
                    assert(expected@.take(i + 1) =~= expected@.take(i as int).push(
                        expected@[i as int],
                    ));
                } else {
                    assert(bytes@.take(i + 1).take(i as int) =~= bytes@.take(i as int));
                    assert(expected@.take(i + 1).take(i as int) =~= expected@.take(i as int));
                }
            }
            if bytes[i] != expected[i] {
                proof {
                    assert(bytes@.take(i + 1)[i as int] != expected@.take(i + 1)[i as int]);
                }
                same = false;
            }
            i = i + 1;
        }
        proof {
            assert(expected@.take(16) =~= expected@);
        }
        if !same {
            let mut end: usize = 16;
            while end > 0 && bytes[end - 1] == 0
                invariant
                    end <= 16 <= bytes@.len(),
                    trim_zeros(bytes@.take(16)) == trim_zeros(bytes@.take(end as int)),
                decreases end,
            {
                proof {
                    assert(bytes@.take(end as int).drop_last() =~= bytes@.take(end - 1));
                }
                end = end - 1;
            }
            proof {
                assert(trim_zeros(bytes@.take(end as int)) == bytes@.take(end as int));
            }
            let found = copy_range(bytes, 0, end);
            let text = utf8_lossy(found.as_slice());
            return Err(WalError::InvalidHeader(prefixed("invalid magic: ", text.as_str())));
        }
        let version = read_be(bytes, 16, 4);
        proof {
            lemma_pow256_facts();
            lemma_be_value_bound(bytes@.subrange(16, 20));
            lemma_magic_valid();
        }
        let start_sequence = read_be(bytes, 20, 8);
        let create_time = read_be(bytes, 28, 8);
        let magic_bytes: [u8; 12] = [
            97u8,
            114u8,
            111u8,
            111u8,
            107u8,
            105u8,
            101u8,
            111u8,
            102u8,
            99u8,
            68u8,
            66u8,
        ];
        proof {
            assert(magic_bytes@ =~= wal_magic_bytes());
        }
        match string_from_utf8(magic_bytes.as_slice()) {
            Some(magic) => Ok(
                WalHeader { magic, version: version as u32, start_sequence, create_time },
            ),
            None => {
                proof {
                    assert(false);
                }
                Err(WalError::InvalidMagic)
            },
        }
    }
}

/// A header written with the log magic reads back as itself.
pub proof fn lemma_header_roundtrip(version: u32, start: u64, created: u64)
    ensures
        ({
            let b = header_bytes(wal_magic_chars(), version, start, created);
            &&& b.len() == 36
            &&& magic_field_ok(b.take(16))
            &&& be_value(b.subrange(16, 20)) == version
            &&& be_value(b.subrange(20, 28)) == start
            &&& be_value(b.subrange(28, 36)) == created
        }),
{
    lemma_magic_valid();
    lemma_pow256_facts();
    let b = header_bytes(wal_magic_chars(), version, start, created);
    let f = magic_field(wal_magic_bytes());
    assert(f.len() == 16);
    lemma_be_bytes_len(version as nat, 4);
    lemma_be_bytes_len(start as nat, 8);
    lemma_be_bytes_len(created as nat, 8);
    assert(b.take(16) =~= f);
    assert(b.subrange(16, 20) =~= be_bytes(version as nat, 4));
    assert(b.subrange(20, 28) =~= be_bytes(start as nat, 8));
    assert(b.subrange(28, 36) =~= be_bytes(created as nat, 8));
    lemma_be_value_of_bytes(version as nat, 4);
    lemma_be_value_of_bytes(start as nat, 8);
    lemma_be_value_of_bytes(created as nat, 8);
}

} // verus!

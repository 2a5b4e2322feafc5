use vstd::prelude::*;
use vstd::utf8::*;
use crate::byte_order::{
    le_bytes, le_value, lemma_le_bytes_len, lemma_le_value_of_bytes, lemma_pow256_facts,
    push_le, read_le,
};
use crate::decimal::{i64_to_string, int_text, parse_i64_bytes, parse_i64_spec};
use crate::key_codec::{bits_i64, bits_to_i64, i64_bits, i64_to_bits, looks_float};
use crate::text::{bytes_contain, copy_range, extend_bytes, utf8_lossy, utf8_lossy_chars};

verus! {

/// A stored value: a number when the input reads as one, its bytes otherwise.
/// A float value holds the bit pattern of a finite `f64`.
#[derive(Debug, Clone, PartialEq, Eq)]
pub enum StringEncoding {
    Raw(Vec<u8>),
    Int(i64),
    Float(u64),
}

/// The mathematical value of a stored value.
pub enum ValueModel {
    Raw(Seq<u8>),
    Int(i64),
    Float(u64),
}

impl View for StringEncoding {
    type V = ValueModel;

    open spec fn view(&self) -> ValueModel {
        match self {
            StringEncoding::Raw(b) => ValueModel::Raw(b@),
            StringEncoding::Int(v) => ValueModel::Int(*v),
            StringEncoding::Float(b) => ValueModel::Float(*b),
        }
    }
}

pub open spec fn value_magic() -> Seq<u8> {
    seq![83u8, 69u8, 49u8]
}

/// The bytes of a value: the magic `SE1`, a tag, then the payload, lengths and numbers
/// little-endian; a raw length keeps only its low 32 bits.
pub open spec fn value_bytes(v: ValueModel) -> Seq<u8> {
    value_magic() + match v {
        ValueModel::Raw(b) => seq![0u8] + le_bytes(b.len(), 4) + b,
        ValueModel::Int(x) => seq![1u8] + le_bytes(i64_bits(x), 8),
        ValueModel::Float(x) => seq![2u8] + le_bytes(x as nat, 8),
    }
}

/// The value that `b` holds: the encoded value when `b` is a well-formed encoding, else
/// the bytes themselves as a raw value (data written before values were encoded).
pub open spec fn value_from_bytes(b: Seq<u8>) -> ValueModel {
    if b.len() < 4 || b.take(3) != value_magic() {
        ValueModel::Raw(b)
    } else if b[3] == 0 {
        if b.len() < 8 || b.len() != 8 + le_value(b.subrange(4, 8)) {
            ValueModel::Raw(b)
        } else {
            ValueModel::Raw(b.skip(8))
        }
    } else if b[3] == 1 {
        if b.len() != 12 {
            ValueModel::Raw(b)
        } else {
            ValueModel::Int(bits_i64(le_value(b.subrange(4, 12))))
        }
    } else if b[3] == 2 {
        if b.len() != 12 {
            ValueModel::Raw(b)
        } else {
            ValueModel::Float(le_value(b.subrange(4, 12)) as u64)
        }
    } else {
        ValueModel::Raw(b)
    }
}

/// The value that `from_input` makes of text with characters `cs`, given the bits of the
/// text read as a finite float, if it reads as one.
pub open spec fn value_of_input(cs: Seq<char>, float_bits: Option<u64>) -> ValueModel {
    let b = encode_utf8(cs);
    match parse_i64_spec(b) {
        Some(v) => ValueModel::Int(v),
        None => if looks_float(b) && float_bits is Some {
            ValueModel::Float(float_bits->0)
        } else {
            ValueModel::Raw(b)
        },
    }
}

/// Decoding the bytes of a value gives the value back (a raw value shorter than 2^32
/// bytes, since its length is written in four bytes).
pub proof fn lemma_value_roundtrip(v: ValueModel)
    requires
        v matches ValueModel::Raw(b) ==> b.len() < 0x1_0000_0000,
    ensures
        value_from_bytes(value_bytes(v)) == v,
{
    let e = value_bytes(v);
    lemma_pow256_facts();
    assert(e.take(3) =~= value_magic());
    match v {
        ValueModel::Raw(b) => {
            lemma_le_bytes_len(b.len(), 4);
            assert(e.subrange(4, 8) =~= le_bytes(b.len(), 4));
            lemma_le_value_of_bytes(b.len(), 4);
            assert(e.skip(8) =~= b);
        },
        ValueModel::Int(x) => {
            lemma_le_bytes_len(i64_bits(x), 8);
            assert(e.subrange(4, 12) =~= le_bytes(i64_bits(x), 8));
            lemma_le_value_of_bytes(i64_bits(x), 8);
        },
        ValueModel::Float(x) => {
            lemma_le_bytes_len(x as nat, 8);
            assert(e.subrange(4, 12) =~= le_bytes(x as nat, 8));
            lemma_le_value_of_bytes(x as nat, 8);
        },
    }
}

/// Bytes that do not start with the magic read as themselves.
pub proof fn lemma_value_legacy_bytes(b: Seq<u8>)
    requires
        b.len() < 3 || b.take(3) != value_magic(),
    ensures
        value_from_bytes(b) == ValueModel::Raw(b),
{
}

impl StringEncoding {
    /// Reads user input as a value: an integer if it parses as an `i64`; else a float if
    /// it looks like one and `float_bits` holds the bits of its finite `f64` reading; else
    /// its UTF-8 bytes. The caller reads the float.
    pub fn from_input(input: &str, float_bits: Option<u64>) -> (r: StringEncoding)
        ensures
            r@ == value_of_input(input@, float_bits),
    {
        let b = input.as_bytes();
        proof {
            assert(b@.subrange(0, b@.len() as int) =~= b@);
        }
        match parse_i64_bytes(b) {
            Some(v) => StringEncoding::Int(v),
            None => {
                let looks = bytes_contain(b, 46u8) || bytes_contain(b, 101u8) || bytes_contain(
                    b,
                    69u8,
                );
                match float_bits {
                    Some(bits) if looks => StringEncoding::Float(bits),
                    _ => StringEncoding::Raw(copy_range(b, 0, b.len())),
                }
            },
        }
    }

    /// The bytes of the value (see `value_bytes`).
    pub fn encode(&self) -> (r: Vec<u8>)
        ensures
            r@ == value_bytes(self@),
    {
        let mut out: Vec<u8> = Vec::new();
        out.push(83u8);
        out.push(69u8);
        out.push(49u8);
        match self {
            StringEncoding::Raw(bytes) => {
                out.push(0u8);
                push_le(&mut out, bytes.len() as u64, 4);
                extend_bytes(&mut out, bytes.as_slice());
            },
            StringEncoding::Int(v) => {
                out.push(1u8);
                push_le(&mut out, i64_to_bits(*v), 8);
            },
            StringEncoding::Float(bits) => {
                out.push(2u8);
                push_le(&mut out, *bits, 8);
            },
        }
        assert(out@ =~= value_bytes(self@));
        out
    }

    /// The value that `bytes` hold (see `value_from_bytes`); never fails.
    pub fn decode(bytes: &[u8]) -> (r: StringEncoding)
        ensures
            r@ == value_from_bytes(bytes@),
    {
        let len = bytes.len();
        if len < 4 || bytes[0] != 83u8 || bytes[1] != 69u8 || bytes[2] != 49u8 {
            proof {
                if len >= 4 {
                    assert(bytes@.take(3) != value_magic()) by {
                        if bytes@.take(3) == value_magic() {
                            assert(bytes@.take(3)[0] == bytes@[0]);
                            assert(bytes@.take(3)[1] == bytes@[1]);
                            assert(bytes@.take(3)[2] == bytes@[2]);
                        }
                    }
                }
                assert(bytes@.subrange(0, len as int) =~= bytes@);
            }
            return StringEncoding::Raw(copy_range(bytes, 0, len));
        }
        proof {
            assert(bytes@.take(3) =~= value_magic());
            assert(bytes@.subrange(0, len as int) =~= bytes@);
        }
        let tag = bytes[3];
        if tag == 0 {
            if len < 8 {
                return StringEncoding::Raw(copy_range(bytes, 0, len));
            }
            let n = read_le(bytes, 4, 4);
            if (len as u64) - 8 != n {
                return StringEncoding::Raw(copy_range(bytes, 0, len));
            }
            let payload = copy_range(bytes, 8, len);
            proof {
                assert(payload@ =~= bytes@.skip(8));
            }
            StringEncoding::Raw(payload)
        } else if tag == 1 {
            if len != 12 {
                return StringEncoding::Raw(copy_range(bytes, 0, len));
            }
            StringEncoding::Int(bits_to_i64(read_le(bytes, 4, 8)))
        } else if tag == 2 {
            if len != 12 {
                return StringEncoding::Raw(copy_range(bytes, 0, len));
            }
            StringEncoding::Float(read_le(bytes, 4, 8))
        } else {
            StringEncoding::Raw(copy_range(bytes, 0, len))
        }
    }

    /// The text of a raw or integer value, as the store displays it (raw bytes that are not
    /// UTF-8 get replacement characters); `None` for a float, whose `f64` display the
    /// caller writes.
    pub fn to_display_string(&self) -> (r: Option<String>)
        ensures
            match self@ {
                ValueModel::Raw(b) => r matches Some(s) && s@ == utf8_lossy_chars(b) && (
                valid_utf8(b) ==> s@ == decode_utf8(b)),
                ValueModel::Int(v) => r matches Some(s) && encode_utf8(s@) == int_text(v as int),
                ValueModel::Float(_) => r is None,
            },
    {
        match self {
            StringEncoding::Raw(bytes) => Some(utf8_lossy(bytes.as_slice())),
            StringEncoding::Int(v) => Some(i64_to_string(*v)),
            StringEncoding::Float(_) => None,
        }
    }
}

} // verus!

use vstd::prelude::*;
use vstd::utf8::*;
use crate::byte_order::{
    le_bytes, le_value, lemma_le_bytes_len, lemma_le_bytes_of_value, lemma_le_value_bound,
    lemma_le_value_of_bytes, lemma_pow256_facts, push_le, read_le,
};
use crate::decimal::{i64_to_string, int_text, lemma_parse_int_text, parse_i64_bytes, parse_i64_spec};
use crate::text::{bytes_contain, copy_range, extend_bytes, string_from_utf8};

verus! {

/// A key as the store holds it: a number when the input reads as one, its text otherwise.
/// A float key holds the bit pattern of a finite `f64`.
#[derive(Debug, Clone, PartialEq, Eq, Hash)]
pub enum KeyEncoding {
    Raw(String),
    Int(i64),
    Float(u64),
}

/// The mathematical value of a key.
pub enum KeyModel {
    Raw(Seq<char>),
    Int(i64),
    Float(u64),
}

impl View for KeyEncoding {
    type V = KeyModel;

    open spec fn view(&self) -> KeyModel {
        match self {
            KeyEncoding::Raw(s) => KeyModel::Raw(s@),
            KeyEncoding::Int(v) => KeyModel::Int(*v),
            KeyEncoding::Float(b) => KeyModel::Float(*b),
        }
    }
}

pub open spec fn key_magic() -> Seq<u8> {
    seq![75u8, 69u8, 49u8]
}

/// Two's complement bits of an `i64`, as a number.
pub open spec fn i64_bits(v: i64) -> nat {
    if v >= 0 {
        v as nat
    } else {
        (v + 0x1_0000_0000_0000_0000) as nat
    }
}

/// The `i64` whose two's complement bits are `x`.
pub open spec fn bits_i64(x: nat) -> i64 {
    if x < 0x8000_0000_0000_0000 {
        x as i64
    } else {
        (x - 0x1_0000_0000_0000_0000) as i64
    }
}

/// The bytes of a key: the magic `KE1`, a tag, then the payload, lengths and numbers
/// little-endian. A text's length is written in four bytes, so only its low 32 bits survive.
pub open spec fn key_bytes(k: KeyModel) -> Seq<u8> {
    key_magic() + match k {
        KeyModel::Raw(cs) => seq![0u8] + le_bytes(encode_utf8(cs).len(), 4) + encode_utf8(cs),
        KeyModel::Int(v) => seq![1u8] + le_bytes(i64_bits(v), 8),
        KeyModel::Float(b) => seq![2u8] + le_bytes(b as nat, 8),
    }
}

/// The key that `bytes` encode, if they are a well-formed key encoding.
pub open spec fn key_from_bytes(b: Seq<u8>) -> Option<KeyModel> {
    if b.len() < 4 || b.take(3) != key_magic() {
        None
    } else if b[3] == 0 {
        if b.len() < 8 {
            None
        } else if b.len() != 8 + le_value(b.subrange(4, 8)) {
            None
        } else if !valid_utf8(b.skip(8)) {
            None
        } else {
            Some(KeyModel::Raw(decode_utf8(b.skip(8))))
        }
    } else if b[3] == 1 {
        if b.len() != 12 {
            None
        } else {
            Some(KeyModel::Int(bits_i64(le_value(b.subrange(4, 12)))))
        }
    } else if b[3] == 2 {
        if b.len() != 12 {
            None
        } else {
            Some(KeyModel::Float(le_value(b.subrange(4, 12)) as u64))
        }
    } else {
        None
    }
}

/// Whether text with these UTF-8 bytes looks like a float literal (`.`, `e` or `E`).
pub open spec fn looks_float(b: Seq<u8>) -> bool {
    b.contains(46u8) || b.contains(101u8) || b.contains(69u8)
}

/// The key that `from_input` makes of text with UTF-8 bytes `b` and characters `cs`,
/// given the bits of the text read as a finite float, if it reads as one.
pub open spec fn key_of_input(cs: Seq<char>, float_bits: Option<u64>) -> KeyModel {
    let b = encode_utf8(cs);
    match parse_i64_spec(b) {
        Some(v) => KeyModel::Int(v),
        None => if looks_float(b) && float_bits is Some {
            KeyModel::Float(float_bits->0)
        } else {
            KeyModel::Raw(cs)
        },
    }
}

pub fn i64_to_bits(v: i64) -> (r: u64)
    ensures
        r as nat == i64_bits(v),
{
    if v >= 0 {
        v as u64
    } else {
        let m: i64 = -(v + 1);
        u64::MAX - (m as u64)
    }
}

pub fn bits_to_i64(x: u64) -> (r: i64)
    ensures
        r == bits_i64(x as nat),
{
    if x < 0x8000_0000_0000_0000u64 {
        x as i64
    } else {
        let m: u64 = u64::MAX - x;
        -(m as i64) - 1
    }
}

pub proof fn lemma_i64_bits_roundtrip(v: i64)
    ensures
        i64_bits(v) < 0x1_0000_0000_0000_0000,
        bits_i64(i64_bits(v)) == v,
{
}

/// Decoding the bytes of a key gives the key back. A text key's UTF-8 must be shorter
/// than 2^32 bytes, since its length is written in four bytes.
pub proof fn lemma_key_roundtrip(k: KeyModel)
    requires
        k matches KeyModel::Raw(cs) ==> encode_utf8(cs).len() < 0x1_0000_0000,
    ensures
        key_from_bytes(key_bytes(k)) == Some(k),
{
    let b = key_bytes(k);
    lemma_pow256_facts();
    assert(b.take(3) =~= key_magic());
    match k {
        KeyModel::Raw(cs) => {
            let e = encode_utf8(cs);
            lemma_le_bytes_len(e.len(), 4);
            assert(b.subrange(4, 8) =~= le_bytes(e.len(), 4));
            lemma_le_value_of_bytes(e.len(), 4);
            assert(b.skip(8) =~= e);
            encode_utf8_valid_utf8(cs);
            encode_utf8_decode_utf8(cs);
        },
        KeyModel::Int(v) => {
            lemma_le_bytes_len(i64_bits(v), 8);
            assert(b.subrange(4, 12) =~= le_bytes(i64_bits(v), 8));
            lemma_le_value_of_bytes(i64_bits(v), 8);
        },
        KeyModel::Float(x) => {
            lemma_le_bytes_len(x as nat, 8);
            assert(b.subrange(4, 12) =~= le_bytes(x as nat, 8));
            lemma_le_value_of_bytes(x as nat, 8);
        },
    }
}

/// The text an integer key shows reads back as the same key.
pub proof fn lemma_int_display_roundtrip(v: i64, cs: Seq<char>, float_bits: Option<u64>)
    requires
        encode_utf8(cs) == int_text(v as int),
    ensures
        key_of_input(cs, float_bits) == KeyModel::Int(v),
{
    lemma_parse_int_text(v);
}

/// A well-formed key encoding is the only encoding of its key: encoding the decoded key
/// gives the same bytes.
pub proof fn lemma_key_decode_canonical(b: Seq<u8>)
    requires
        key_from_bytes(b) is Some,
    ensures
        key_bytes(key_from_bytes(b)->0) == b,
{
    let k = key_from_bytes(b)->0;
    lemma_pow256_facts();
    if b[3] == 0 {
        let payload = b.skip(8);
        decode_utf8_encode_utf8(payload);
        lemma_le_bytes_of_value(b.subrange(4, 8));
        assert(key_bytes(k) =~= b);
    } else if b[3] == 1 {
        let s = b.subrange(4, 12);
        lemma_le_value_bound(s);
        lemma_le_bytes_of_value(s);
        assert(i64_bits(bits_i64(le_value(s))) == le_value(s));
        assert(key_bytes(k) =~= b);
    } else {
        let s = b.subrange(4, 12);
        lemma_le_value_bound(s);
        lemma_le_bytes_of_value(s);
        assert(key_bytes(k) =~= b);
    }
}

impl KeyEncoding {
    /// Reads user input as a key: an integer if it parses as an `i64`; else a float if it
    /// looks like one (has `.`, `e` or `E`) and `float_bits` holds the bits of its finite
    /// `f64` reading; else the text itself. The caller reads the float, since the library
    /// holds no floating point.
    pub fn from_input(input: &str, float_bits: Option<u64>) -> (r: KeyEncoding)
        ensures
            r@ == key_of_input(input@, float_bits),
    {
        let b = input.as_bytes();
        match parse_i64_bytes(b) {
            Some(v) => KeyEncoding::Int(v),
            None => {
                let looks = bytes_contain(b, 46u8) || bytes_contain(b, 101u8) || bytes_contain(
                    b,
                    69u8,
                );
                match float_bits {
                    Some(bits) if looks => KeyEncoding::Float(bits),
                    _ => KeyEncoding::Raw(input.to_owned()),
                }
            },
        }
    }

    /// The text of a text or integer key, as the store displays it; `None` for a float
    /// key, whose `f64` display the caller writes.
    pub fn to_display_string(&self) -> (r: Option<String>)
        ensures
            match self@ {
                KeyModel::Raw(cs) => r matches Some(s) && s@ == cs,
                KeyModel::Int(v) => r matches Some(s) && encode_utf8(s@) == int_text(v as int),
                KeyModel::Float(_) => r is None,
            },
    {
        match self {
            KeyEncoding::Raw(s) => Some(s.clone()),
            KeyEncoding::Int(v) => Some(i64_to_string(*v)),
            KeyEncoding::Float(_) => None,
        }
    }

    /// The bytes of the key (see `key_bytes`).
    pub fn encode(&self) -> (r: Vec<u8>)
        ensures
            r@ == key_bytes(self@),
    {
        let mut out: Vec<u8> = Vec::new();
        out.push(75u8);
        out.push(69u8);
        out.push(49u8);
        match self {
            KeyEncoding::Raw(s) => {
                let bytes = s.as_str().as_bytes();
                out.push(0u8);
                push_le(&mut out, bytes.len() as u64, 4);
                extend_bytes(&mut out, bytes);
            },
            KeyEncoding::Int(v) => {
                out.push(1u8);
                push_le(&mut out, i64_to_bits(*v), 8);
            },
            KeyEncoding::Float(bits) => {
                out.push(2u8);
                push_le(&mut out, *bits, 8);
            },
        }
        assert(out@ =~= key_bytes(self@));
        out
    }

    /// The key that `bytes` encode, or `None` when they are not a well-formed encoding.
    pub fn decode(bytes: &[u8]) -> (r: Option<KeyEncoding>)
        ensures
            match key_from_bytes(bytes@) {
                Some(k) => r matches Some(d) && d@ == k,
                None => r is None,
            },
    {
        let len = bytes.len();
        if len < 4 || bytes[0] != 75u8 || bytes[1] != 69u8 || bytes[2] != 49u8 {
            proof {
                if len >= 4 {
                    assert(bytes@.take(3) != key_magic()) by {
                        if bytes@.take(3) == key_magic() {
                            assert(bytes@.take(3)[0] == bytes@[0]);
                            assert(bytes@.take(3)[1] == bytes@[1]);
                            assert(bytes@.take(3)[2] == bytes@[2]);
                        }
                    }
                }
            }
            return None;
        }
        proof {
            assert(bytes@.take(3) =~= key_magic());
        }
        let tag = bytes[3];
        if tag == 0 {
            if len < 8 {
                return None;
            }
            let n = read_le(bytes, 4, 4);
            if (len as u64) < 8 || (len as u64) - 8 != n {
                return None;
            }
            let payload = copy_range(bytes, 8, len);
            proof {
                assert(payload@ =~= bytes@.skip(8));
            }
            match string_from_utf8(payload.as_slice()) {
                Some(s) => Some(KeyEncoding::Raw(s)),
                None => None,
            }
        } else if tag == 1 {
            if len != 12 {
                return None;
            }
            let x = read_le(bytes, 4, 8);
            Some(KeyEncoding::Int(bits_to_i64(x)))
        } else if tag == 2 {
            if len != 12 {
                return None;
            }
            let x = read_le(bytes, 4, 8);
            Some(KeyEncoding::Float(x))
        } else {
            None
        }
    }

    /// A copy of the key.
    pub fn copy(&self) -> (r: KeyEncoding)
        ensures
            r@ == self@,
    {
        match self {
            KeyEncoding::Raw(s) => KeyEncoding::Raw(s.clone()),
            KeyEncoding::Int(v) => KeyEncoding::Int(*v),
            KeyEncoding::Float(b) => KeyEncoding::Float(*b),
        }
    }

    /// Whether two keys are the same key.
    pub fn same_key(&self, other: &KeyEncoding) -> (r: bool)
        ensures
            r == (self@ == other@),
    {
        match (self, other) {
            (KeyEncoding::Raw(a), KeyEncoding::Raw(b)) => String::eq(a, b),
            (KeyEncoding::Int(a), KeyEncoding::Int(b)) => *a == *b,
            (KeyEncoding::Float(a), KeyEncoding::Float(b)) => *a == *b,
            _ => false,
        }
    }
}

} // verus!

use vstd::prelude::*;
use vstd::string::StringExecFns;
use vstd::utf8::*;

verus! {

/// The text that `String::from_utf8_lossy` makes of `bytes`: the decoded characters, with
/// each ill-formed subsequence replaced by U+FFFD.
pub uninterp spec fn utf8_lossy_chars(bytes: Seq<u8>) -> Seq<char>;

/// Bytes all below 0x80 are valid UTF-8.
pub open spec fn all_ascii(bytes: Seq<u8>) -> bool {
    forall|i: int| 0 <= i < bytes.len() ==> #[trigger] bytes[i] < 0x80
}

pub proof fn lemma_ascii_is_valid_utf8(bytes: Seq<u8>)
    requires
        all_ascii(bytes),
    ensures
        valid_utf8(bytes),
    decreases bytes.len(),
{
    if bytes.len() > 0 {
        assert(bytes[0] < 0x80);
        let rest = pop_first_scalar(bytes);
        assert(rest =~= bytes.subrange(1, bytes.len() as int));
        assert(all_ascii(rest)) by {
            assert forall|i: int| 0 <= i < rest.len() implies #[trigger] rest[i] < 0x80 by {
                assert(rest[i] == bytes[i + 1]);
            }
        }
        lemma_ascii_is_valid_utf8(rest);
    }
}

/// `std::str::from_utf8`: the bytes as text when they are valid UTF-8.
/// Claimed: it succeeds exactly on valid UTF-8 (vstd's `valid_utf8`), and the text it
/// returns has exactly those bytes.
#[verifier::external_body]
fn str_from_utf8(bytes: &[u8]) -> (r: Option<&str>)
    ensures
        r is Some <==> valid_utf8(bytes@),
        r matches Some(s) ==> encode_utf8(s@) == bytes@,
{
    std::str::from_utf8(bytes).ok()
}

/// An owned string holding `bytes`, when they are valid UTF-8.
pub fn string_from_utf8(bytes: &[u8]) -> (r: Option<String>)
    ensures
        r is Some <==> valid_utf8(bytes@),
        r matches Some(s) ==> encode_utf8(s@) == bytes@ && s@ == decode_utf8(bytes@),
{
    match str_from_utf8(bytes) {
        Some(s) => {
            let owned = s.to_owned();
            proof {
                decode_utf8_encode_utf8(bytes@);
                broadcast use encode_utf8_decode_utf8;
                assert(s@ == decode_utf8(encode_utf8(s@)));
            }
            Some(owned)
        },
        None => None,
    }
}

/// `String::from_utf8_lossy`, made owned. Claimed: the result is named by
/// `utf8_lossy_chars`, and on valid UTF-8 it is the decoded text, as the documentation
/// states ("If our byte slice is valid UTF-8, then ... we can return the string as is").
#[verifier::external_body]
pub(crate) fn utf8_lossy(bytes: &[u8]) -> (r: String)
    ensures
        r@ == utf8_lossy_chars(bytes@),
        valid_utf8(bytes@) ==> r@ == decode_utf8(bytes@),
{
    String::from_utf8_lossy(bytes).into_owned()
}

/// `prefix` followed by `rest`.
pub(crate) fn prefixed(prefix: &str, rest: &str) -> (r: String)
    ensures
        r@ == prefix@ + rest@,
{
    let mut out = prefix.to_owned();
    out.append(rest);
    out
}

/// The byte with ASCII upper-case letters mapped to lower case.
pub open spec fn ascii_lower(b: u8) -> u8 {
    if 65 <= b <= 90 {
        (b + 32) as u8
    } else {
        b
    }
}

/// What `to_ascii_lowercase` does to the UTF-8 bytes of a text.
pub open spec fn ascii_lower_bytes(s: Seq<u8>) -> Seq<u8> {
    Seq::new(s.len(), |i: int| ascii_lower(s[i]))
}

/// Whether the ASCII-lower-cased `raw` equals `lower`.
pub fn ascii_lower_eq(raw: &[u8], lower: &[u8]) -> (r: bool)
    ensures
        r == (ascii_lower_bytes(raw@) == lower@),
{
    if raw.len() != lower.len() {
        proof {
            assert(ascii_lower_bytes(raw@).len() != lower@.len());
        }
        return false;
    }
    let mut i: usize = 0;
    while i < raw.len()
        invariant
            i <= raw@.len(),
            raw@.len() == lower@.len(),
            forall|j: int| 0 <= j < i ==> ascii_lower(#[trigger] raw@[j]) == lower@[j],
        decreases raw@.len() - i,
    {
        let b = raw[i];
        let lb = if b >= 65 && b <= 90 {
            b + 32
        } else {
            b
        };
        if lb != lower[i] {
            proof {
                assert(ascii_lower_bytes(raw@)[i as int] != lower@[i as int]);
            }
            return false;
        }
        i = i + 1;
    }
    proof {
        assert(ascii_lower_bytes(raw@) =~= lower@);
    }
    true
}

/// Whether `bytes` contains the byte `b`.
pub fn bytes_contain(bytes: &[u8], b: u8) -> (r: bool)
    ensures
        r == bytes@.contains(b),
{
    let mut i: usize = 0;
    while i < bytes.len()
        invariant
            i <= bytes@.len(),
            forall|j: int| 0 <= j < i ==> #[trigger] bytes@[j] != b,
        decreases bytes@.len() - i,
    {
        if bytes[i] == b {
            return true;
        }
        i = i + 1;
    }
    false
}

/// Whether the two byte strings are equal.
pub fn bytes_equal(a: &[u8], b: &[u8]) -> (r: bool)
    ensures
        r == (a@ == b@),
{
    if a.len() != b.len() {
        return false;
    }
    let mut i: usize = 0;
    while i < a.len()
        invariant
            i <= a@.len(),
            a@.len() == b@.len(),
            forall|j: int| 0 <= j < i ==> #[trigger] a@[j] == b@[j],
        decreases a@.len() - i,
    {
        if a[i] != b[i] {
            return false;
        }
        i = i + 1;
    }
    proof {
        assert(a@ =~= b@);
    }
    true
}

/// Copies `bytes[start..end]` into a new vector.
pub fn copy_range(bytes: &[u8], start: usize, end: usize) -> (r: Vec<u8>)
    requires
        start <= end <= bytes@.len(),
    ensures
        r@ == bytes@.subrange(start as int, end as int),
{
    let mut out: Vec<u8> = Vec::new();
    let mut i = start;
    while i < end
        invariant
            start <= i <= end <= bytes@.len(),
            out@ == bytes@.subrange(start as int, i as int),
        decreases end - i,
    {
        out.push(bytes[i]);
        i = i + 1;
        proof {
            assert(out@ =~= bytes@.subrange(start as int, i as int));
        }
    }
    out
}

/// Appends all of `src` to `out`.
pub fn extend_bytes(out: &mut Vec<u8>, src: &[u8])
    ensures
        final(out)@ == old(out)@ + src@,
{
    let ghost start = out@;
    let mut i: usize = 0;
    while i < src.len()
        invariant
            i <= src@.len(),
            out@ == start + src@.subrange(0, i as int),
        decreases src@.len() - i,
    {
        out.push(src[i]);
        i = i + 1;
        proof {
            assert(out@ =~= start + src@.subrange(0, i as int));
        }
    }
    proof {
        assert(src@.subrange(0, src@.len() as int) =~= src@);
    }
}

} // verus!

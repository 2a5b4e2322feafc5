use vstd::prelude::*;
use vstd::utf8::*;
use crate::text::{all_ascii, lemma_ascii_is_valid_utf8, string_from_utf8};

verus! {

/// The ASCII digit for a value below ten.
pub open spec fn digit_byte(d: int) -> u8 {
    (d + 48) as u8
}

pub open spec fn is_digit(b: u8) -> bool {
    48 <= b <= 57
}

pub open spec fn all_digits(s: Seq<u8>) -> bool {
    forall|i: int| 0 <= i < s.len() ==> is_digit(#[trigger] s[i])
}

/// Decimal digits of a natural number, most significant first, without leading zeros
/// (zero itself is the single digit `0`).
pub open spec fn nat_digits(n: nat) -> Seq<u8>
    decreases n,
{
    if n < 10 {
        seq![digit_byte(n as int)]
    } else {
        nat_digits(n / 10).push(digit_byte((n % 10) as int))
    }
}

/// The value of a run of ASCII digits.
pub open spec fn digits_value(s: Seq<u8>) -> nat
    decreases s.len(),
{
    if s.len() == 0 {
        0
    } else {
        digits_value(s.drop_last()) * 10 + (s.last() - 48) as nat
    }
}

/// The decimal text of an integer: a `-` for negative values, then its digits.
pub open spec fn int_text(v: int) -> Seq<u8> {
    if v < 0 {
        seq![45u8] + nat_digits((-v) as nat)
    } else {
        nat_digits(v as nat)
    }
}

/// What `str::parse::<i64>` gives for text with these UTF-8 bytes: an optional `+` or
/// `-`, then one or more ASCII digits and nothing else, with a value in range.
pub open spec fn parse_i64_spec(b: Seq<u8>) -> Option<i64> {
    let neg = b.len() > 0 && b[0] == 45;
    let signed = b.len() > 0 && (b[0] == 45 || b[0] == 43);
    let body = if signed {
        b.drop_first()
    } else {
        b
    };
    if body.len() == 0 || !all_digits(body) {
        None
    } else {
        let v: int = if neg {
            -(digits_value(body) as int)
        } else {
            digits_value(body) as int
        };
        if i64::MIN <= v <= i64::MAX {
            Some(v as i64)
        } else {
            None
        }
    }
}

pub proof fn lemma_nat_digits_props(n: nat)
    ensures
        nat_digits(n).len() >= 1,
        all_digits(nat_digits(n)),
        digits_value(nat_digits(n)) == n,
        is_digit(nat_digits(n)[0]),
    decreases n,
{
    if n < 10 {
        assert(nat_digits(n).drop_last() =~= Seq::<u8>::empty());
        assert(digits_value(Seq::<u8>::empty()) == 0);
    } else {
        lemma_nat_digits_props(n / 10);
        let d = nat_digits(n);
        assert(d.drop_last() =~= nat_digits(n / 10));
        assert(d.last() - 48 == n % 10);
        assert forall|i: int| 0 <= i < d.len() implies is_digit(#[trigger] d[i]) by {
            if i < d.len() - 1 {
                assert(d[i] == nat_digits(n / 10)[i]);
            }
        }
    }
}

pub proof fn lemma_digits_value_monotone(s: Seq<u8>, i: int)
    requires
        0 <= i <= s.len(),
        all_digits(s),
    ensures
        digits_value(s.take(i)) <= digits_value(s),
    decreases s.len() - i,
{
    if i < s.len() {
        lemma_digits_value_monotone(s, i + 1);
        assert(s.take(i + 1).drop_last() =~= s.take(i));
        assert(is_digit(s[i]));
    } else {
        assert(s.take(i) =~= s);
    }
}

/// Parsing the decimal text of an `i64` gives the number back.
pub proof fn lemma_parse_int_text(v: i64)
    ensures
        parse_i64_spec(int_text(v as int)) == Some(v),
{
    if v < 0 {
        let m = (-v) as nat;
        lemma_nat_digits_props(m);
        let t = int_text(v as int);
        assert(t.drop_first() =~= nat_digits(m));
    } else {
        lemma_nat_digits_props(v as nat);
    }
}

/// Appends the decimal digits of `n`.
pub fn push_digits(out: &mut Vec<u8>, n: u64)
    ensures
        final(out)@ == old(out)@ + nat_digits(n as nat),
    decreases n,
{
    if n < 10 {
        out.push((n + 48) as u8);
        assert(final(out)@ =~= old(out)@ + nat_digits(n as nat));
    } else {
        push_digits(out, n / 10);
        out.push((n % 10 + 48) as u8);
        assert(final(out)@ =~= old(out)@ + nat_digits(n as nat));
    }
}

/// The decimal bytes of `v`, as `i64::to_string` writes them.
pub fn i64_text_bytes(v: i64) -> (r: Vec<u8>)
    ensures
        r@ == int_text(v as int),
{
    let mut out: Vec<u8> = Vec::new();
    if v < 0 {
        out.push(45u8);
        let magnitude: u64 = if v == i64::MIN {
            9223372036854775808u64
        } else {
            (-v) as u64
        };
        push_digits(&mut out, magnitude);
        assert(out@ =~= int_text(v as int));
    } else {
        push_digits(&mut out, v as u64);
        assert(out@ =~= int_text(v as int));
    }
    out
}

pub proof fn lemma_digits_ascii(n: nat)
    ensures
        all_ascii(nat_digits(n)),
{
    lemma_nat_digits_props(n);
    let d = nat_digits(n);
    assert forall|i: int| 0 <= i < d.len() implies #[trigger] d[i] < 0x80 by {
        assert(is_digit(d[i]));
    }
}

pub proof fn lemma_int_text_ascii(v: int)
    ensures
        all_ascii(int_text(v)),
{
    if v < 0 {
        lemma_digits_ascii((-v) as nat);
        let t = int_text(v);
        assert forall|i: int| 0 <= i < t.len() implies #[trigger] t[i] < 0x80 by {
            if i > 0 {
                assert(t[i] == nat_digits((-v) as nat)[i - 1]);
            }
        }
    } else {
        lemma_digits_ascii(v as nat);
    }
}

/// The decimal text of `v`, as `i64::to_string` writes it.
pub fn i64_to_string(v: i64) -> (r: String)
    ensures
        encode_utf8(r@) == int_text(v as int),
{
    let bytes = i64_text_bytes(v);
    proof {
        lemma_int_text_ascii(v as int);
        lemma_ascii_is_valid_utf8(bytes@);
    }
    match string_from_utf8(bytes.as_slice()) {
        Some(s) => s,
        None => {
            proof {
                assert(false);
            }
            String::new()
        },
    }
}

/// The decimal text of `n`, as `u64::to_string` writes it.
pub fn u64_to_string(n: u64) -> (r: String)
    ensures
        encode_utf8(r@) == nat_digits(n as nat),
{
    let mut bytes: Vec<u8> = Vec::new();
    push_digits(&mut bytes, n);
    proof {
        assert(bytes@ =~= nat_digits(n as nat));
        lemma_digits_ascii(n as nat);
        lemma_ascii_is_valid_utf8(bytes@);
    }
    match string_from_utf8(bytes.as_slice()) {
        Some(s) => s,
        None => {
            proof {
                assert(false);
            }
            String::new()
        },
    }
}

/// Parses UTF-8 bytes as `str::parse::<i64>` parses the text they encode.
pub fn parse_i64_bytes(b: &[u8]) -> (r: Option<i64>)
    ensures
        r == parse_i64_spec(b@),
{
    let len = b.len();
    let neg = len > 0 && b[0] == 45;
    let signed = len > 0 && (b[0] == 45 || b[0] == 43);
    let start: usize = if signed {
        1
    } else {
        0
    };
    let ghost body = if signed {
        b@.drop_first()
    } else {
        b@
    };
    assert(body =~= b@.subrange(start as int, len as int));
    if start == len {
        return None;
    }
    let limit: u128 = 9223372036854775808u128;
    let mut acc: u128 = 0;
    let mut i = start;
    while i < len
        invariant
            start <= i <= len == b@.len(),
            body == b@.subrange(start as int, len as int),
            body == (if b@.len() > 0 && (b@[0] == 45 || b@[0] == 43) {
                b@.drop_first()
            } else {
                b@
            }),
            body.len() > 0,
            all_digits(body.take(i - start)),
            acc as nat == digits_value(body.take(i - start)),
            acc <= limit,
            limit == 9223372036854775808u128,
        decreases len - i,
    {
        let c = b[i];
        if c < 48 || c > 57 {
            proof {
                assert(body[i - start] == c);
                assert(!all_digits(body));
            }
            return None;
        }
        let next = acc * 10 + (c - 48) as u128;
        proof {
            assert(body.take(i + 1 - start).drop_last() =~= body.take(i - start));
            assert(body.take(i + 1 - start).last() == c);
            assert forall|j: int| 0 <= j < i + 1 - start implies is_digit(
                #[trigger] body.take(i + 1 - start)[j],
            ) by {
                if j < i - start {
                    assert(body.take(i + 1 - start)[j] == body.take(i - start)[j]);
                }
            }
        }
        i = i + 1;
        if next > limit {
            proof {
                let rest = b@.subrange(i as int, len as int);
                if all_digits(body) {
                    lemma_digits_value_monotone(body, i - start);
                }
            }
            return None;
        }
        acc = next;
    }
    proof {
        assert(body.take(len - start) =~= body);
    }
    if neg {
        if acc == limit {
            Some(i64::MIN)
        } else {
            Some(-(acc as i64))
        }
    } else if acc < limit {
        Some(acc as i64)
    } else {
        None
    }
}

/// What `str::parse::<u64>` gives for text with these UTF-8 bytes: an optional `+`, then
/// one or more ASCII digits and nothing else, with a value in range.
pub open spec fn parse_u64_spec(b: Seq<u8>) -> Option<u64> {
    let body = if b.len() > 0 && b[0] == 43 {
        b.drop_first()
    } else {
        b
    };
    if body.len() == 0 || !all_digits(body) {
        None
    } else if digits_value(body) <= u64::MAX {
        Some(digits_value(body) as u64)
    } else {
        None
    }
}

/// Parses UTF-8 bytes as `str::parse::<u64>` parses the text they encode.
pub fn parse_u64_bytes(b: &[u8]) -> (r: Option<u64>)
    ensures
        r == parse_u64_spec(b@),
{
    let len = b.len();
    let start: usize = if len > 0 && b[0] == 43 {
        1
    } else {
        0
    };
    let ghost body = if len > 0 && b@[0] == 43 {
        b@.drop_first()
    } else {
        b@
    };
    assert(body =~= b@.subrange(start as int, len as int));
    if start == len {
        return None;
    }
    let limit: u128 = 18446744073709551615u128;
    let mut acc: u128 = 0;
    let mut i = start;
    while i < len
        invariant
            start <= i <= len == b@.len(),
            body == b@.subrange(start as int, len as int),
            body == (if b@.len() > 0 && b@[0] == 43 {
                b@.drop_first()
            } else {
                b@
            }),
            body.len() > 0,
            all_digits(body.take(i - start)),
            acc as nat == digits_value(body.take(i - start)),
            acc <= limit,
            limit == 18446744073709551615u128,
        decreases len - i,
    {
        let c = b[i];
        if c < 48 || c > 57 {
            proof {
                assert(body[i - start] == c);
                assert(!all_digits(body));
            }
            return None;
        }
        let next = acc * 10 + (c - 48) as u128;
        proof {
            assert(body.take(i + 1 - start).drop_last() =~= body.take(i - start));
            assert(body.take(i + 1 - start).last() == c);
            assert forall|j: int| 0 <= j < i + 1 - start implies is_digit(
                #[trigger] body.take(i + 1 - start)[j],
            ) by {
                if j < i - start {
                    assert(body.take(i + 1 - start)[j] == body.take(i - start)[j]);
                }
            }
        }
        i = i + 1;
        if next > limit {
            proof {
                if all_digits(body) {
                    lemma_digits_value_monotone(body, i - start);
                }
            }
            return None;
        }
        acc = next;
    }
    proof {
        assert(body.take(len - start) =~= body);
    }
    Some(acc as u64)
}

} // verus!

use vstd::prelude::*;
use vstd::utf8::*;
use crate::key_codec::{KeyEncoding, KeyModel};

verus! {

/// The outcome of comparing two keys.
#[derive(Debug, Clone, Copy, PartialEq, Eq, Structural)]
pub enum KeyOrder {
    Less,
    Equal,
    Greater,
}

/// Lexicographic order of byte strings (the order of `str`).
pub open spec fn lex_order(a: Seq<u8>, b: Seq<u8>) -> KeyOrder
    decreases a.len(),
{
    if a.len() == 0 && b.len() == 0 {
        KeyOrder::Equal
    } else if a.len() == 0 {
        KeyOrder::Less
    } else if b.len() == 0 {
        KeyOrder::Greater
    } else if a[0] < b[0] {
        KeyOrder::Less
    } else if a[0] > b[0] {
        KeyOrder::Greater
    } else {
        lex_order(a.drop_first(), b.drop_first())
    }
}

/// Two byte strings compare in opposite ways each way round.
pub proof fn lemma_lex_flip(a: Seq<u8>, b: Seq<u8>)
    ensures
        lex_order(a, b) == KeyOrder::Less <==> lex_order(b, a)
            == KeyOrder::Greater,
    decreases a.len(),
{
    if a.len() > 0 && b.len() > 0 && a[0] == b[0] {
        lemma_lex_flip(a.drop_first(), b.drop_first());
    }
}

/// Every byte string compares equal to itself.
pub proof fn lemma_lex_refl(a: Seq<u8>)
    ensures
        lex_order(a, a) == KeyOrder::Equal,
    decreases a.len(),
{
    if a.len() > 0 {
        lemma_lex_refl(a.drop_first());
    }
}

/// The order of byte strings is transitive.
pub proof fn lemma_lex_trans(a: Seq<u8>, b: Seq<u8>, c: Seq<u8>)
    requires
        lex_order(a, b) != KeyOrder::Greater,
        lex_order(b, c) != KeyOrder::Greater,
    ensures
        lex_order(a, c) != KeyOrder::Greater,
    decreases a.len(),
{
    if a.len() > 0 && b.len() > 0 && c.len() > 0 && a[0] == b[0] && b[0] == c[0] {
        lemma_lex_trans(a.drop_first(), b.drop_first(), c.drop_first());
    }
}

/// Whether the `f64` with these bits is a NaN.
pub open spec fn float_is_nan(x: u64) -> bool {
    (x >> 52u64) & 0x7ffu64 == 0x7ffu64 && x & 0xf_ffff_ffff_ffffu64 != 0
}

/// A number that orders non-NaN `f64` bit patterns as their values are ordered
/// (both zeros map to 0).
pub open spec fn float_rank(x: u64) -> int {
    let m = (x & 0x7fff_ffff_ffff_ffffu64) as int;
    if x >> 63u64 != 0 {
        -m
    } else {
        m
    }
}

/// How `f64::partial_cmp` orders the floats with these bits, a NaN comparing equal to all.
pub open spec fn float_order(a: u64, b: u64) -> KeyOrder {
    if float_is_nan(a) || float_is_nan(b) {
        KeyOrder::Equal
    } else if float_rank(a) < float_rank(b) {
        KeyOrder::Less
    } else if float_rank(a) > float_rank(b) {
        KeyOrder::Greater
    } else {
        KeyOrder::Equal
    }
}

/// The order of keys: integers first, then floats, then texts; within a kind by value.
#[verifier::opaque]
pub open spec fn key_order(a: KeyModel, b: KeyModel) -> KeyOrder {
    match (a, b) {
        (KeyModel::Int(x), KeyModel::Int(y)) => if x < y {
            KeyOrder::Less
        } else if x > y {
            KeyOrder::Greater
        } else {
            KeyOrder::Equal
        },
        (KeyModel::Float(x), KeyModel::Float(y)) => float_order(x, y),
        (KeyModel::Raw(x), KeyModel::Raw(y)) => lex_order(encode_utf8(x), encode_utf8(y)),
        (KeyModel::Int(_), _) => KeyOrder::Less,
        (KeyModel::Float(_), KeyModel::Raw(_)) => KeyOrder::Less,
        (KeyModel::Float(_), KeyModel::Int(_)) => KeyOrder::Greater,
        (KeyModel::Raw(_), _) => KeyOrder::Greater,
    }
}

/// Integer keys come in the order of their numbers.
pub proof fn lemma_int_keys_in_numeric_order(x: i64, y: i64)
    ensures
        key_order(KeyModel::Int(x), KeyModel::Int(y)) == KeyOrder::Less <==> x < y,
        key_order(KeyModel::Int(x), KeyModel::Int(y)) == KeyOrder::Equal <==> x == y,
        key_order(KeyModel::Int(x), KeyModel::Int(y)) == KeyOrder::Greater <==> x > y,
{
    reveal(key_order);
}

/// Keys order by kind first: every integer before every float, every float before every
/// text; texts come in the byte order of their UTF-8 encodings.
pub proof fn lemma_key_kinds_in_order(x: i64, f: u64, t: Seq<char>, u: Seq<char>)
    ensures
        key_order(KeyModel::Int(x), KeyModel::Float(f)) == KeyOrder::Less,
        key_order(KeyModel::Float(f), KeyModel::Raw(t)) == KeyOrder::Less,
        key_order(KeyModel::Int(x), KeyModel::Raw(t)) == KeyOrder::Less,
        key_order(KeyModel::Raw(t), KeyModel::Raw(u)) == lex_order(encode_utf8(t), encode_utf8(u)),
{
    reveal(key_order);
}

/// The sign, exponent and fraction fields of an `f64`'s bits, and its magnitude bits as the
/// exponent above the fraction.
proof fn lemma_float_fields(x: u64)
    ensures
        x >> 63u64 == 0 || x >> 63u64 == 1,
        (x >> 52u64) & 0x7ffu64 <= 0x7ff,
        x & 0xf_ffff_ffff_ffffu64 < 0x10_0000_0000_0000,
        (x & 0x7fff_ffff_ffff_ffffu64) as int == ((x >> 52u64) & 0x7ffu64) as int * 0x10_0000_0000_0000
            + (x & 0xf_ffff_ffff_ffffu64) as int,
{
    assert(x >> 63u64 == 0 || x >> 63u64 == 1) by (bit_vector);
    assert((x >> 52u64) & 0x7ffu64 <= 0x7ff) by (bit_vector);
    assert(x & 0xf_ffff_ffff_ffffu64 < 0x10_0000_0000_0000) by (bit_vector);
    assert(x & 0x7fff_ffff_ffff_ffffu64 == ((x >> 52u64) & 0x7ffu64) * 0x10_0000_0000_0000u64
        + (x & 0xf_ffff_ffff_ffffu64)) by (bit_vector);
}

/// Float keys that are not NaN come in the order of the `f64` values their bits encode, as
/// IEEE 754 orders them: among positives by exponent, then by fraction; among negatives the
/// other way round; every negative before every positive, except that the two zeros are
/// equal.
pub proof fn lemma_float_keys_in_value_order(a: u64, b: u64)
    requires
        !float_is_nan(a),
        !float_is_nan(b),
    ensures
        key_order(KeyModel::Float(a), KeyModel::Float(b)) == KeyOrder::Less <==> ({
            let (sa, ea, fa) = (a >> 63u64, (a >> 52u64) & 0x7ffu64, a & 0xf_ffff_ffff_ffffu64);
            let (sb, eb, fb) = (b >> 63u64, (b >> 52u64) & 0x7ffu64, b & 0xf_ffff_ffff_ffffu64);
            ||| sa == 0 && sb == 0 && (ea < eb || (ea == eb && fa < fb))
            ||| sa == 1 && sb == 1 && (ea > eb || (ea == eb && fa > fb))
            ||| sa == 1 && sb == 0 && !(ea == 0 && fa == 0 && eb == 0 && fb == 0)
        }),
{
    reveal(key_order);
    lemma_float_fields(a);
    lemma_float_fields(b);
}

/// Whether `a` comes no later than `b`.
pub open spec fn key_le(a: KeyModel, b: KeyModel) -> bool {
    key_order(a, b) != KeyOrder::Greater
}

/// Compares two byte strings lexicographically.
pub fn compare_bytes(a: &[u8], b: &[u8]) -> (r: KeyOrder)
    ensures
        r == lex_order(a@, b@),
{
    let mut i: usize = 0;
    proof {
        assert(a@.skip(0) =~= a@);
        assert(b@.skip(0) =~= b@);
    }
    while i < a.len() && i < b.len()
        invariant
            i <= a@.len(),
            i <= b@.len(),
            lex_order(a@, b@) == lex_order(a@.skip(i as int), b@.skip(i as int)),
        decreases a@.len() - i,
    {
        if a[i] < b[i] {
            return KeyOrder::Less;
        }
        if a[i] > b[i] {
            return KeyOrder::Greater;
        }
        proof {
            assert(a@.skip(i as int).drop_first() =~= a@.skip(i + 1));
            assert(b@.skip(i as int).drop_first() =~= b@.skip(i + 1));
        }
        i = i + 1;
    }
    if i == a.len() && i == b.len() {
        KeyOrder::Equal
    } else if i == a.len() {
        KeyOrder::Less
    } else {
        KeyOrder::Greater
    }
}

fn float_bits_order(a: u64, b: u64) -> (r: KeyOrder)
    ensures
        r == float_order(a, b),
{
    let a_nan = (a >> 52u64) & 0x7ffu64 == 0x7ffu64 && a & 0xf_ffff_ffff_ffffu64 != 0;
    let b_nan = (b >> 52u64) & 0x7ffu64 == 0x7ffu64 && b & 0xf_ffff_ffff_ffffu64 != 0;
    if a_nan || b_nan {
        return KeyOrder::Equal;
    }
    let am = (a & 0x7fff_ffff_ffff_ffffu64) as i128;
    let bm = (b & 0x7fff_ffff_ffff_ffffu64) as i128;
    let ar: i128 = if a >> 63u64 != 0 {
        -am
    } else {
        am
    };
    let br: i128 = if b >> 63u64 != 0 {
        -bm
    } else {
        bm
    };
    if ar < br {
        KeyOrder::Less
    } else if ar > br {
        KeyOrder::Greater
    } else {
        KeyOrder::Equal
    }
}

/// Compares two keys (see `key_order`).
pub fn compare_keys(a: &KeyEncoding, b: &KeyEncoding) -> (r: KeyOrder)
    ensures
        r == key_order(a@, b@),
{
    proof {
        reveal(key_order);
    }
    match (a, b) {
        (KeyEncoding::Int(x), KeyEncoding::Int(y)) => if *x < *y {
            KeyOrder::Less
        } else if *x > *y {
            KeyOrder::Greater
        } else {
            KeyOrder::Equal
        },
        (KeyEncoding::Float(x), KeyEncoding::Float(y)) => float_bits_order(*x, *y),
        (KeyEncoding::Raw(x), KeyEncoding::Raw(y)) => compare_bytes(
            x.as_str().as_bytes(),
            y.as_str().as_bytes(),
        ),
        (KeyEncoding::Int(_), _) => KeyOrder::Less,
        (KeyEncoding::Float(_), KeyEncoding::Raw(_)) => KeyOrder::Less,
        (KeyEncoding::Float(_), KeyEncoding::Int(_)) => KeyOrder::Greater,
        (KeyEncoding::Raw(_), _) => KeyOrder::Greater,
    }
}

/// Every two keys are ordered one way or the other.
pub proof fn lemma_key_le_total(a: KeyModel, b: KeyModel)
    ensures
        key_le(a, b) || key_le(b, a),
{
    reveal(key_order);
    match (a, b) {
        (KeyModel::Raw(x), KeyModel::Raw(y)) => {
            lemma_lex_antisym(encode_utf8(x), encode_utf8(y));
        },
        _ => {},
    }
}

proof fn lemma_lex_antisym(a: Seq<u8>, b: Seq<u8>)
    ensures
        lex_order(a, b) == KeyOrder::Greater <==> lex_order(b, a) == KeyOrder::Less,
    decreases a.len(),
{
    if a.len() > 0 && b.len() > 0 && a[0] == b[0] {
        lemma_lex_antisym(a.drop_first(), b.drop_first());
    }
}


/// Every key comes no later than itself.
pub proof fn lemma_key_le_refl(a: KeyModel)
    ensures
        key_le(a, a),
{
    reveal(key_order);
    match a {
        KeyModel::Raw(x) => {
            lemma_lex_refl(encode_utf8(x));
        },
        _ => {},
    }
}

/// A key that is not the bits of a NaN.
pub open spec fn not_nan(k: KeyModel) -> bool {
    !(k matches KeyModel::Float(x) && float_is_nan(x))
}

/// Among keys that are not NaNs, the order is transitive.
pub proof fn lemma_key_le_trans(a: KeyModel, b: KeyModel, c: KeyModel)
    requires
        not_nan(a),
        not_nan(b),
        not_nan(c),
        key_le(a, b),
        key_le(b, c),
    ensures
        key_le(a, c),
{
    reveal(key_order);
    match (a, b, c) {
        (KeyModel::Raw(x), KeyModel::Raw(y), KeyModel::Raw(z)) => {
            lemma_lex_trans(encode_utf8(x), encode_utf8(y), encode_utf8(z));
        },
        _ => {},
    }
}

} // verus!

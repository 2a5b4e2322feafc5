use vstd::prelude::*;

verus! {

/// `256` raised to the power `n`.
pub open spec fn pow256(n: nat) -> nat
    decreases n,
{
    if n == 0 {
        1
    } else {
        256 * pow256((n - 1) as nat)
    }
}

/// The `n` low-order bytes of `x`, least significant first.
pub open spec fn le_bytes(x: nat, n: nat) -> Seq<u8>
    decreases n,
{
    if n == 0 {
        Seq::empty()
    } else {
        seq![(x % 256) as u8] + le_bytes(x / 256, (n - 1) as nat)
    }
}

/// The `n` low-order bytes of `x`, most significant first.
pub open spec fn be_bytes(x: nat, n: nat) -> Seq<u8>
    decreases n,
{
    if n == 0 {
        Seq::empty()
    } else {
        be_bytes(x / 256, (n - 1) as nat).push((x % 256) as u8)
    }
}

/// The number whose little-endian bytes are `s`.
pub open spec fn le_value(s: Seq<u8>) -> nat
    decreases s.len(),
{
    if s.len() == 0 {
        0
    } else {
        s[0] as nat + 256 * le_value(s.drop_first())
    }
}

/// The number whose big-endian bytes are `s`.
pub open spec fn be_value(s: Seq<u8>) -> nat
    decreases s.len(),
{
    if s.len() == 0 {
        0
    } else {
        be_value(s.drop_last()) * 256 + s.last() as nat
    }
}

pub proof fn lemma_pow256_facts()
    ensures
        pow256(1) == 0x100,
        pow256(2) == 0x10000,
        pow256(4) == 0x1_0000_0000,
        pow256(8) == 0x1_0000_0000_0000_0000,
{
    reveal_with_fuel(pow256, 9);
}

pub proof fn lemma_pow256_positive(n: nat)
    ensures
        pow256(n) >= 1,
    decreases n,
{
    if n > 0 {
        lemma_pow256_positive((n - 1) as nat);
    }
}

pub proof fn lemma_le_bytes_len(x: nat, n: nat)
    ensures
        le_bytes(x, n).len() == n,
    decreases n,
{
    if n > 0 {
        lemma_le_bytes_len(x / 256, (n - 1) as nat);
    }
}

pub proof fn lemma_be_bytes_len(x: nat, n: nat)
    ensures
        be_bytes(x, n).len() == n,
    decreases n,
{
    if n > 0 {
        lemma_be_bytes_len(x / 256, (n - 1) as nat);
    }
}

pub proof fn lemma_le_value_bound(s: Seq<u8>)
    ensures
        le_value(s) < pow256(s.len()),
    decreases s.len(),
{
    if s.len() > 0 {
        lemma_le_value_bound(s.drop_first());
    }
}

pub proof fn lemma_be_value_bound(s: Seq<u8>)
    ensures
        be_value(s) < pow256(s.len()),
    decreases s.len(),
{
    if s.len() > 0 {
        lemma_be_value_bound(s.drop_last());
    }
}

/// Reading back the little-endian bytes of a number that fits gives the number.
pub proof fn lemma_le_value_of_bytes(x: nat, n: nat)
    requires
        x < pow256(n),
    ensures
        le_value(le_bytes(x, n)) == x,
    decreases n,
{
    if n > 0 {
        let rest = le_bytes(x / 256, (n - 1) as nat);
        assert(le_bytes(x, n).drop_first() =~= rest);
        lemma_le_value_of_bytes(x / 256, (n - 1) as nat);
    }
}

/// Writing the value of a byte sequence gives the sequence back.
pub proof fn lemma_le_bytes_of_value(s: Seq<u8>)
    ensures
        le_bytes(le_value(s), s.len()) == s,
    decreases s.len(),
{
    if s.len() > 0 {
        lemma_le_bytes_of_value(s.drop_first());
        let v = le_value(s);
        assert(v % 256 == s[0] as nat);
        assert(v / 256 == le_value(s.drop_first()));
        assert(le_bytes(v, s.len()) =~= s);
    }
}

pub proof fn lemma_be_value_of_bytes(x: nat, n: nat)
    requires
        x < pow256(n),
    ensures
        be_value(be_bytes(x, n)) == x,
    decreases n,
{
    if n > 0 {
        let b = be_bytes(x, n);
        lemma_be_bytes_len(x / 256, (n - 1) as nat);
        assert(b.drop_last() =~= be_bytes(x / 256, (n - 1) as nat));
        lemma_be_value_of_bytes(x / 256, (n - 1) as nat);
    }
}

pub proof fn lemma_be_bytes_of_value(s: Seq<u8>)
    ensures
        be_bytes(be_value(s), s.len()) == s,
    decreases s.len(),
{
    if s.len() > 0 {
        lemma_be_bytes_of_value(s.drop_last());
        let v = be_value(s);
        assert(v % 256 == s.last() as nat);
        assert(v / 256 == be_value(s.drop_last()));
        assert(be_bytes(v, s.len()) =~= s);
    }
}

/// Appends the `n` low-order bytes of `x`, least significant first.
pub fn push_le(out: &mut Vec<u8>, x: u64, n: usize)
    ensures
        final(out)@ == old(out)@ + le_bytes(x as nat, n as nat),
    decreases n,
{
    if n == 0 {
        assert(old(out)@ + le_bytes(x as nat, 0) =~= old(out)@);
    } else {
        let ghost before = out@;
        out.push((x % 256) as u8);
        push_le(out, x / 256, n - 1);
        assert(before + le_bytes(x as nat, n as nat) =~= before.push((x % 256) as u8) + le_bytes(
            (x / 256) as nat,
            (n - 1) as nat,
        ));
    }
}

/// Appends the `n` low-order bytes of `x`, most significant first.
pub fn push_be(out: &mut Vec<u8>, x: u64, n: usize)
    ensures
        final(out)@ == old(out)@ + be_bytes(x as nat, n as nat),
    decreases n,
{
    if n == 0 {
        assert(old(out)@ + be_bytes(x as nat, 0) =~= old(out)@);
    } else {
        let ghost before = out@;
        push_be(out, x / 256, n - 1);
        out.push((x % 256) as u8);
        assert(before + be_bytes(x as nat, n as nat) =~= (before + be_bytes(
            (x / 256) as nat,
            (n - 1) as nat,
        )).push((x % 256) as u8));
    }
}

/// Reads `n` bytes starting at `start` as a little-endian number.
pub fn read_le(bytes: &[u8], start: usize, n: usize) -> (r: u64)
    requires
        n <= 8,
        start + n <= bytes@.len(),
    ensures
        r as nat == le_value(bytes@.subrange(start as int, start + n)),
    decreases n,
{
    let ghost s = bytes@.subrange(start as int, start + n);
    let _len = bytes.len();
    if n == 0 {
        0
    } else {
        let rest = read_le(bytes, start + 1, n - 1);
        proof {
            assert(s.drop_first() =~= bytes@.subrange(start + 1, start + n));
            lemma_le_value_bound(s.drop_first());
            lemma_pow256_facts();
            assert(pow256((n - 1) as nat) <= pow256(7)) by {
                reveal_with_fuel(pow256, 9);
            }
        }
        bytes[start] as u64 + 256 * rest
    }
}

/// Reads `n` bytes starting at `start` as a big-endian number.
pub fn read_be(bytes: &[u8], start: usize, n: usize) -> (r: u64)
    requires
        n <= 8,
        start + n <= bytes@.len(),
    ensures
        r as nat == be_value(bytes@.subrange(start as int, start + n)),
    decreases n,
{
    let ghost s = bytes@.subrange(start as int, start + n);
    let _len = bytes.len();
    if n == 0 {
        0
    } else {
        let high = read_be(bytes, start, n - 1);
        proof {
            assert(s.drop_last() =~= bytes@.subrange(start as int, start + n - 1));
            lemma_be_value_bound(s.drop_last());
            lemma_pow256_facts();
            assert(pow256((n - 1) as nat) <= pow256(7)) by {
                reveal_with_fuel(pow256, 9);
            }
        }
        high * 256 + bytes[start + n - 1] as u64
    }
}

} // verus!

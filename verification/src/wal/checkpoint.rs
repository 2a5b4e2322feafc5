use vstd::prelude::*;
use vstd::multiset::Multiset;
use crate::assoc_map::{lemma_map_of, map_of, AssocMap};
use crate::byte_order::{
    be_bytes, be_value, lemma_be_bytes_len, lemma_be_value_bound, lemma_be_value_of_bytes,
    lemma_pow256_facts, push_be, read_be,
};
use crate::clock::now_unix_ms;
use crate::decimal::{all_digits, digits_value, is_digit, lemma_nat_digits_props, nat_digits, push_digits};
use crate::text::{copy_range, extend_bytes};
use crate::wal::errors::WalError;
use crate::wal::wal_config::WalConfig;
use crate::key_order::{compare_bytes, lemma_lex_flip, lex_order, KeyOrder};
use crate::key_order::{lemma_lex_refl, lemma_lex_trans};
use crate::wal::wal_reader::name_le;
use vstd::utf8::encode_utf8;

verus! {

/// A saved copy of the whole key-value state, as of a log sequence number.
pub struct Checkpoint {
    version: u32,
    sequence: u64,
    create_time: u64,
    entry_count: u64,
    data: AssocMap<Vec<u8>, Vec<u8>>,
}

/// Why checkpoint bytes were refused.
pub enum CheckpointFault {
    Short,
    Magic,
    Entry,
    Key,
    ValueLen,
    Value,
}

/// The message that each refusal carries.
pub open spec fn fault_message(f: CheckpointFault) -> Seq<char> {
    match f {
        CheckpointFault::Short => "checkpoint too short"@,
        CheckpointFault::Magic => "invalid checkpoint magic"@,
        CheckpointFault::Entry => "truncated checkpoint entry"@,
        CheckpointFault::Key => "truncated key"@,
        CheckpointFault::ValueLen => "truncated value len"@,
        CheckpointFault::Value => "truncated value"@,
    }
}

pub open spec fn checkpoint_magic() -> Seq<u8> {
    seq![65u8, 82u8, 79u8, 79u8, 75u8, 73u8, 69u8, 68u8]
}

/// The bytes of one stored pair: key length, key, value length, value (lengths
/// big-endian in four bytes, their low 32 bits).
pub open spec fn pair_bytes(k: Seq<u8>, v: Seq<u8>) -> Seq<u8> {
    be_bytes(k.len(), 4) + k + be_bytes(v.len(), 4) + v
}

/// The bytes of a list of pairs, in order.
pub open spec fn pairs_bytes(s: Seq<(Seq<u8>, Seq<u8>)>) -> Seq<u8>
    decreases s.len(),
{
    if s.len() == 0 {
        Seq::empty()
    } else {
        pair_bytes(s[0].0, s[0].1) + pairs_bytes(s.drop_first())
    }
}

/// The values of a list of stored pairs.
pub open spec fn pair_views(s: Seq<(Vec<u8>, Vec<u8>)>) -> Seq<(Seq<u8>, Seq<u8>)> {
    Seq::new(s.len(), |i: int| (s[i].0@, s[i].1@))
}

/// The map a list of pairs stands for (later pairs win).
pub open spec fn pairs_map(s: Seq<(Seq<u8>, Seq<u8>)>) -> Map<Seq<u8>, Seq<u8>>
    decreases s.len(),
{
    if s.len() == 0 {
        Map::empty()
    } else {
        pairs_map(s.drop_last()).insert(s.last().0, s.last().1)
    }
}

/// The bytes of a checkpoint: the magic `AROOKIED`, version, sequence, creation time and
/// entry count (big-endian), then the pairs.
pub open spec fn checkpoint_bytes(
    version: u32,
    sequence: u64,
    create_time: u64,
    entry_count: u64,
    pairs: Seq<(Seq<u8>, Seq<u8>)>,
) -> Seq<u8> {
    checkpoint_magic() + be_bytes(version as nat, 4) + be_bytes(sequence as nat, 8) + be_bytes(
        create_time as nat,
        8,
    ) + be_bytes(entry_count as nat, 8) + pairs_bytes(pairs)
}

/// Reads `n` pairs from `b` starting at `off`.
pub open spec fn parse_pairs(b: Seq<u8>, off: int, n: nat) -> Result<
    Seq<(Seq<u8>, Seq<u8>)>,
    CheckpointFault,
>
    decreases n,
{
    if n == 0 {
        Ok(Seq::empty())
    } else if b.len() - off < 8 {
        Err(CheckpointFault::Entry)
    } else {
        let kl = be_value(b.subrange(off, off + 4)) as int;
        if b.len() < off + 4 + kl {
            Err(CheckpointFault::Key)
        } else if b.len() - (off + 4 + kl) < 4 {
            Err(CheckpointFault::ValueLen)
        } else {
            let vl = be_value(b.subrange(off + 4 + kl, off + 8 + kl)) as int;
            if b.len() < off + 8 + kl + vl {
                Err(CheckpointFault::Value)
            } else {
                match parse_pairs(b, off + 8 + kl + vl, (n - 1) as nat) {
                    Ok(rest) => Ok(
                        seq![(b.subrange(off + 4, off + 4 + kl), b.subrange(off + 8 + kl, off + 8 + kl + vl))]
                            + rest,
                    ),
                    Err(f) => Err(f),
                }
            }
        }
    }
}

/// What `Checkpoint::from_bytes` reads from `b`: the pairs, or why it refuses.
pub open spec fn parse_checkpoint(b: Seq<u8>) -> Result<Seq<(Seq<u8>, Seq<u8>)>, CheckpointFault> {
    if b.len() < 40 {
        Err(CheckpointFault::Short)
    } else if b.take(8) != checkpoint_magic() {
        Err(CheckpointFault::Magic)
    } else {
        parse_pairs(b, 36, be_value(b.subrange(28, 36)))
    }
}

pub proof fn lemma_pairs_map_of(s: Seq<(Vec<u8>, Vec<u8>)>)
    ensures
        pairs_map(pair_views(s)) == map_of(s),
    decreases s.len(),
{
    if s.len() > 0 {
        lemma_pairs_map_of(s.drop_last());
        assert(pair_views(s).drop_last() =~= pair_views(s.drop_last()));
    }
}

proof fn lemma_pairs_bytes_push(s: Seq<(Seq<u8>, Seq<u8>)>, p: (Seq<u8>, Seq<u8>))
    ensures
        pairs_bytes(s.push(p)) == pairs_bytes(s) + pair_bytes(p.0, p.1),
    decreases s.len(),
{
    if s.len() == 0 {
        assert(s.push(p).drop_first() =~= Seq::<(Seq<u8>, Seq<u8>)>::empty());
        assert(pairs_bytes(Seq::<(Seq<u8>, Seq<u8>)>::empty()) =~= Seq::<u8>::empty());
        assert(pairs_bytes(s.push(p)) =~= pair_bytes(p.0, p.1));
    } else {
        lemma_pairs_bytes_push(s.drop_first(), p);
        assert(s.push(p).drop_first() =~= s.drop_first().push(p));
        assert(pairs_bytes(s.push(p)) =~= pairs_bytes(s) + pair_bytes(p.0, p.1));
    }
}

/// Reading back the bytes of a list of pairs gives the list.
proof fn lemma_parse_pairs_bytes(b: Seq<u8>, off: int, s: Seq<(Seq<u8>, Seq<u8>)>)
    requires
        0 <= off,
        off + pairs_bytes(s).len() <= b.len(),
        b.subrange(off, off + pairs_bytes(s).len()) == pairs_bytes(s),
        forall|i: int|
            0 <= i < s.len() ==> (#[trigger] s[i]).0.len() < 0x1_0000_0000 && s[i].1.len()
                < 0x1_0000_0000,
    ensures
        parse_pairs(b, off, s.len()) == Ok::<_, CheckpointFault>(s),
    decreases s.len(),
{
    if s.len() > 0 {
        lemma_pow256_facts();
        let k = s[0].0;
        let v = s[0].1;
        let pb = pair_bytes(k, v);
        let rest = s.drop_first();
        lemma_be_bytes_len(k.len(), 4);
        lemma_be_bytes_len(v.len(), 4);
        let kl = k.len() as int;
        let vl = v.len() as int;
        assert(pairs_bytes(s) =~= pb + pairs_bytes(rest));
        let whole = b.subrange(off, off + pairs_bytes(s).len());
        assert(whole =~= pb + pairs_bytes(rest));
        assert(whole.subrange(4, 4 + kl) =~= k);
        assert(whole.subrange(8 + kl, 8 + kl + vl) =~= v);
        assert(b.subrange(off, off + 4) =~= whole.subrange(0, 4));
        assert(whole.subrange(0, 4) =~= be_bytes(k.len(), 4));
        lemma_be_value_of_bytes(k.len(), 4);
        assert(b.subrange(off + 4 + kl, off + 8 + kl) =~= whole.subrange(4 + kl, 8 + kl));
        assert(whole.subrange(4 + kl, 8 + kl) =~= be_bytes(v.len(), 4));
        lemma_be_value_of_bytes(v.len(), 4);
        assert(b.subrange(off + 4, off + 4 + kl) =~= whole.subrange(4, 4 + kl));
        assert(b.subrange(off + 8 + kl, off + 8 + kl + vl) =~= whole.subrange(8 + kl, 8 + kl + vl));
        let off2 = off + 8 + kl + vl;
        assert(pb.len() == 8 + kl + vl);
        assert(whole.subrange(8 + kl + vl, whole.len() as int) =~= pairs_bytes(rest));
        assert(b.subrange(off2, off2 + pairs_bytes(rest).len()) =~= whole.subrange(
            8 + kl + vl,
            whole.len() as int,
        ));
        assert forall|i: int| 0 <= i < rest.len() implies (#[trigger] rest[i]).0.len()
            < 0x1_0000_0000 && rest[i].1.len() < 0x1_0000_0000 by {
            assert(rest[i] == s[i + 1]);
        }
        lemma_parse_pairs_bytes(b, off2, rest);
        assert(seq![(k, v)] + rest =~= s);
        assert(!(b.len() - off < 8));
        assert(be_value(b.subrange(off, off + 4)) == kl);
        assert(!(b.len() < off + 4 + kl));
        assert(!(b.len() - (off + 4 + kl) < 4));
        assert(be_value(b.subrange(off + 4 + kl, off + 8 + kl)) == vl);
        assert(!(b.len() < off + 8 + kl + vl));
    } else {
        assert(s =~= Seq::<(Seq<u8>, Seq<u8>)>::empty());
    }
}

impl Checkpoint {
    /// The map is well formed.
    pub closed spec fn wf(&self) -> bool {
        self.data.wf()
    }

    pub closed spec fn version(&self) -> u32 {
        self.version
    }

    pub closed spec fn sequence_spec(&self) -> u64 {
        self.sequence
    }

    pub closed spec fn create_time_spec(&self) -> u64 {
        self.create_time
    }

    pub closed spec fn entry_count_spec(&self) -> u64 {
        self.entry_count
    }

    /// The saved key-value state.
    pub closed spec fn data_view(&self) -> Map<Seq<u8>, Seq<u8>> {
        self.data@
    }

    /// The saved pairs, in the order they are written.
    pub closed spec fn pair_list(&self) -> Seq<(Seq<u8>, Seq<u8>)> {
        pair_views(self.data.pairs())
    }

    /// The bytes this checkpoint writes (see `checkpoint_bytes`).
    pub open spec fn spec_bytes(&self) -> Seq<u8> {
        checkpoint_bytes(
            self.version(),
            self.sequence_spec(),
            self.create_time_spec(),
            self.entry_count_spec(),
            self.pair_list(),
        )
    }

    pub proof fn lemma_pair_list(&self)
        requires
            self.wf(),
        ensures
            pairs_map(self.pair_list()) == self.data_view(),
            self.pair_list().len() == self.data_view().len(),
    {
        self.data.lemma_pairs();
        lemma_pairs_map_of(self.data.pairs());
    }

    /// A checkpoint of `data` at `sequence`, stamped with the current time by the clock (see
    /// `new_at`).
    pub fn new(sequence: u64, data: AssocMap<Vec<u8>, Vec<u8>>) -> (r: Checkpoint)
        requires
            data.wf(),
        ensures
            r.wf(),
            r.version() == 1,
            r.sequence_spec() == sequence,
            r.entry_count_spec() == data@.len(),
            r.data_view() == data@,
    {
        Checkpoint::new_at(sequence, data, now_unix_ms())
    }

    /// A checkpoint of `data` at `sequence`, made at `create_time` (milliseconds since the
    /// Unix epoch); its entry count is the number of keys.
    pub fn new_at(sequence: u64, data: AssocMap<Vec<u8>, Vec<u8>>, create_time: u64) -> (r: Checkpoint)
        requires
            data.wf(),
        ensures
            r.wf(),
            r.version() == 1,
            r.sequence_spec() == sequence,
            r.entry_count_spec() == data@.len(),
            r.data_view() == data@,
            r.create_time_spec() == create_time,
    {
        let entry_count = data.len() as u64;
        Checkpoint { version: 1, sequence, create_time, entry_count, data }
    }

    pub fn sequence(&self) -> (r: u64)
        ensures
            r == self.sequence_spec(),
    {
        self.sequence
    }

    pub fn entry_count(&self) -> (r: u64)
        ensures
            r == self.entry_count_spec(),
    {
        self.entry_count
    }

    pub fn data(&self) -> (r: &AssocMap<Vec<u8>, Vec<u8>>)
        requires
            self.wf(),
        ensures
            r.wf(),
            r@ == self.data_view(),
    {
        &self.data
    }

    pub fn create_time(&self) -> (r: u64)
        ensures
            r == self.create_time_spec(),
    {
        self.create_time
    }

    /// The bytes of the checkpoint.
    pub fn to_bytes(&self) -> (r: Vec<u8>)
        requires
            self.wf(),
        ensures
            r@ == self.spec_bytes(),
    {
        let mut bytes: Vec<u8> = Vec::new();
        bytes.push(65u8);
        bytes.push(82u8);
        bytes.push(79u8);
        bytes.push(79u8);
        bytes.push(75u8);
        bytes.push(73u8);
        bytes.push(69u8);
        bytes.push(68u8);
        push_be(&mut bytes, self.version as u64, 4);
        push_be(&mut bytes, self.sequence, 8);
        push_be(&mut bytes, self.create_time, 8);
        push_be(&mut bytes, self.entry_count, 8);
        let ghost head = bytes@;
        let pairs = self.data.as_pairs();
        let ghost views = pair_views(pairs@);
        assert(pairs_bytes(views.take(0)) =~= Seq::<u8>::empty());
        let mut i: usize = 0;
        while i < pairs.len()
            invariant
                i <= pairs@.len(),
                views == pair_views(pairs@),
                bytes@ == head + pairs_bytes(views.take(i as int)),
            decreases pairs@.len() - i,
        {
            let (k, v) = &pairs[i];
            let ghost before = bytes@;
            push_be(&mut bytes, k.len() as u64, 4);
            extend_bytes(&mut bytes, k.as_slice());
            push_be(&mut bytes, v.len() as u64, 4);
            extend_bytes(&mut bytes, v.as_slice());
            proof {
                assert(views.take(i + 1) =~= views.take(i as int).push(views[i as int]));
                lemma_pairs_bytes_push(views.take(i as int), views[i as int]);
                assert(bytes@ =~= head + pairs_bytes(views.take(i + 1)));
            }
            i = i + 1;
        }
        proof {
            assert(views.take(pairs@.len() as int) =~= views);
        }
        assert(bytes@ =~= self.spec_bytes());
        bytes
    }

    /// Reads a checkpoint (see `parse_checkpoint`); each refusal is an `InvalidHeader`
    /// carrying its message. Later pairs with a key seen before replace it; the entry count
    /// is kept as written.
    pub fn from_bytes(bytes: &[u8]) -> (r: Result<Checkpoint, WalError>)
        ensures
            match parse_checkpoint(bytes@) {
                Err(f) => r matches Err(WalError::InvalidHeader(m)) && m@ == fault_message(f),
                Ok(pairs) => r matches Ok(cp) && {
                    &&& cp.wf()
                    &&& cp.version() as nat == be_value(bytes@.subrange(8, 12))
                    &&& cp.sequence_spec() as nat == be_value(bytes@.subrange(12, 20))
                    &&& cp.create_time_spec() as nat == be_value(bytes@.subrange(20, 28))
                    &&& cp.entry_count_spec() as nat == be_value(bytes@.subrange(28, 36))
                    &&& cp.data_view() == pairs_map(pairs)
                },
            },
    {
        let len = bytes.len();
        if len < 40 {
            return Err(WalError::InvalidHeader("checkpoint too short".to_owned()));
        }
        let magic: [u8; 8] = [65u8, 82u8, 79u8, 79u8, 75u8, 73u8, 69u8, 68u8];
        let mut m: usize = 0;
        while m < 8
            invariant
                m <= 8 <= bytes@.len(),
                bytes@.len() >= 40,
                magic@ == checkpoint_magic(),
                forall|j: int| 0 <= j < m ==> bytes@[j] == #[trigger] magic@[j],
            decreases 8 - m,
        {
            if bytes[m] != magic[m] {
                proof {
                    assert(bytes@.take(8)[m as int] != checkpoint_magic()[m as int]);
                    assert(bytes@.take(8) != checkpoint_magic());
                }
                return Err(WalError::InvalidHeader("invalid checkpoint magic".to_owned()));
            }
            m = m + 1;
        }
        proof {
            assert(bytes@.take(8) =~= checkpoint_magic());
            lemma_pow256_facts();
            lemma_be_value_bound(bytes@.subrange(8, 12));
        }
        let version = read_be(bytes, 8, 4) as u32;
        let sequence = read_be(bytes, 12, 8);
        let create_time = read_be(bytes, 20, 8);
        let entry_count = read_be(bytes, 28, 8);
        let mut data: AssocMap<Vec<u8>, Vec<u8>> = AssocMap::new();
        let mut offset: usize = 36;
        let mut n: u64 = 0;
        let ghost mut acc: Seq<(Seq<u8>, Seq<u8>)> = Seq::empty();
        proof {
            assert(pairs_map(acc) =~= Map::<Seq<u8>, Seq<u8>>::empty());
            assert(acc + parse_pairs(bytes@, 36, entry_count as nat)->Ok_0 =~= parse_pairs(
                bytes@,
                36,
                entry_count as nat,
            )->Ok_0);
        }
        while n < entry_count
            invariant
                len == bytes@.len(),
                36 <= offset <= len,
                n <= entry_count,
                entry_count as nat == be_value(bytes@.subrange(28, 36)),
                data.wf(),
                data@ == pairs_map(acc),
                bytes@.len() >= 40,
                bytes@.take(8) == checkpoint_magic(),
                match parse_pairs(bytes@, 36, entry_count as nat) {
                    Ok(all) => parse_pairs(bytes@, offset as int, (entry_count - n) as nat) matches Ok(
                        rest,
                    ) && all == acc + rest,
                    Err(f) => parse_pairs(bytes@, offset as int, (entry_count - n) as nat) == Err::<
                        Seq<(Seq<u8>, Seq<u8>)>,
                        CheckpointFault,
                    >(f),
                },
            decreases entry_count - n,
        {
            let ghost cur = parse_pairs(bytes@, offset as int, (entry_count - n) as nat);
            let ghost off0 = offset as int;
            proof {
                lemma_pow256_facts();
            }
            if len - offset < 8 {
                return Err(WalError::InvalidHeader("truncated checkpoint entry".to_owned()));
            }
            proof {
                lemma_be_value_bound(bytes@.subrange(offset as int, offset + 4));
            }
            let key_len = read_be(bytes, offset, 4) as usize;
            offset = offset + 4;
            if key_len > len - offset {
                return Err(WalError::InvalidHeader("truncated key".to_owned()));
            }
            let key = copy_range(bytes, offset, offset + key_len);
            offset = offset + key_len;
            if len - offset < 4 {
                proof {
                    assert(!(bytes@.len() - off0 < 8));
                    assert(be_value(bytes@.subrange(off0, off0 + 4)) == key_len);
                    assert(!(bytes@.len() < off0 + 4 + key_len));
                    assert(bytes@.len() - (off0 + 4 + key_len) < 4);
                    assert(cur == Err::<Seq<(Seq<u8>, Seq<u8>)>, CheckpointFault>(
                        CheckpointFault::ValueLen,
                    ));
                }
                return Err(WalError::InvalidHeader("truncated value len".to_owned()));
            }
            proof {
                lemma_be_value_bound(bytes@.subrange(offset as int, offset + 4));
            }
            let value_len = read_be(bytes, offset, 4) as usize;
            offset = offset + 4;
            if value_len > len - offset {
                proof {
                    assert(cur == Err::<Seq<(Seq<u8>, Seq<u8>)>, CheckpointFault>(
                        CheckpointFault::Value,
                    ));
                }
                return Err(WalError::InvalidHeader("truncated value".to_owned()));
            }
            let value = copy_range(bytes, offset, offset + value_len);
            offset = offset + value_len;
            proof {
                let p = (key@, value@);
                match parse_pairs(bytes@, 36, entry_count as nat) {
                    Ok(all) => {
                        let rest = cur->Ok_0;
                        assert(rest == seq![p] + parse_pairs(
                            bytes@,
                            offset as int,
                            (entry_count - n - 1) as nat,
                        )->Ok_0);
                        assert(all =~= acc.push(p) + parse_pairs(
                            bytes@,
                            offset as int,
                            (entry_count - n - 1) as nat,
                        )->Ok_0);
                    },
                    Err(f) => {},
                }
                assert(acc.push(p).drop_last() =~= acc);
                acc = acc.push(p);
            }
            data.insert(key, value);
            n = n + 1;
        }
        proof {
            assert(acc + Seq::<(Seq<u8>, Seq<u8>)>::empty() =~= acc);
        }
        Ok(Checkpoint { version, sequence, create_time, entry_count, data })
    }
}

/// A checkpoint that holds at least one pair, whose keys and values are shorter than 2^32
/// bytes and whose entry count is its number of keys (as `new` makes them), reads back from
/// its bytes with the same fields and the same pairs.
pub proof fn lemma_checkpoint_roundtrip(cp: Checkpoint)
    requires
        cp.wf(),
        cp.entry_count_spec() == cp.data_view().len(),
        cp.data_view().len() > 0,
        forall|i: int|
            0 <= i < cp.pair_list().len() ==> (#[trigger] cp.pair_list()[i]).0.len()
                < 0x1_0000_0000 && cp.pair_list()[i].1.len() < 0x1_0000_0000,
    ensures
        parse_checkpoint(cp.spec_bytes()) == Ok::<_, CheckpointFault>(cp.pair_list()),
        pairs_map(cp.pair_list()) == cp.data_view(),
        be_value(cp.spec_bytes().subrange(8, 12)) == cp.version(),
        be_value(cp.spec_bytes().subrange(12, 20)) == cp.sequence_spec(),
        be_value(cp.spec_bytes().subrange(20, 28)) == cp.create_time_spec(),
        be_value(cp.spec_bytes().subrange(28, 36)) == cp.entry_count_spec(),
{
    cp.lemma_pair_list();
    lemma_pow256_facts();
    let b = cp.spec_bytes();
    let s = cp.pair_list();
    lemma_be_bytes_len(cp.version() as nat, 4);
    lemma_be_bytes_len(cp.sequence_spec() as nat, 8);
    lemma_be_bytes_len(cp.create_time_spec() as nat, 8);
    lemma_be_bytes_len(cp.entry_count_spec() as nat, 8);
    assert(b.take(8) =~= checkpoint_magic());
    assert(b.subrange(8, 12) =~= be_bytes(cp.version() as nat, 4));
    assert(b.subrange(12, 20) =~= be_bytes(cp.sequence_spec() as nat, 8));
    assert(b.subrange(20, 28) =~= be_bytes(cp.create_time_spec() as nat, 8));
    assert(b.subrange(28, 36) =~= be_bytes(cp.entry_count_spec() as nat, 8));
    lemma_be_value_of_bytes(cp.version() as nat, 4);
    lemma_be_value_of_bytes(cp.sequence_spec() as nat, 8);
    lemma_be_value_of_bytes(cp.create_time_spec() as nat, 8);
    lemma_be_value_of_bytes(cp.entry_count_spec() as nat, 8);
    let s0 = s[0];
    lemma_be_bytes_len(s0.0.len(), 4);
    assert(pairs_bytes(s).len() >= 8);
    assert(b.subrange(36, 36 + pairs_bytes(s).len() as int) =~= pairs_bytes(s));
    lemma_parse_pairs_bytes(b, 36, s);
}

impl WalConfig {
    /// The file name of the checkpoint saved at `sequence`, inside the log directory:
    /// `checkpoint_` and the sequence zero-padded to sixteen digits, then `.cp`.
    pub open spec fn checkpoint_file_name(sequence: u64) -> Seq<u8> {
        let d = nat_digits(sequence as nat);
        seq![99u8, 104u8, 101u8, 99u8, 107u8, 112u8, 111u8, 105u8, 110u8, 116u8, 95u8] + Seq::new(
            if d.len() < 16 {
                (16 - d.len()) as nat
            } else {
                0
            },
            |i: int| 48u8,
        ) + d + seq![46u8, 99u8, 112u8]
    }
}

/// Finds and keeps checkpoints in the log directory.
pub struct CheckpointManager {
    config: WalConfig,
}

impl CheckpointManager {
    /// A manager for the checkpoints of `config`'s directory (which the caller creates).
    pub fn with_config(config: WalConfig) -> (r: CheckpointManager)
        ensures
            r.config_spec() == config,
    {
        CheckpointManager { config }
    }

    pub closed spec fn config_spec(&self) -> WalConfig {
        self.config
    }

    pub fn config(&self) -> (r: &WalConfig)
        ensures
            *r == self.config_spec(),
    {
        &self.config
    }

    /// The UTF-8 bytes of the path of the checkpoint saved at `sequence`: the log
    /// directory, `/`, then the file name.
    pub fn get_checkpoint_path(&self, sequence: u64) -> (r: Vec<u8>)
        ensures
            r@ == vstd::utf8::encode_utf8(self.config_spec().wal_dir@) + seq![47u8]
                + WalConfig::checkpoint_file_name(sequence),
    {
        let mut out: Vec<u8> = Vec::new();
        extend_bytes(&mut out, self.config.wal_dir.as_str().as_bytes());
        out.push(47u8);
        let ghost start = out@;
        let prefix: [u8; 11] = [99u8, 104u8, 101u8, 99u8, 107u8, 112u8, 111u8, 105u8, 110u8, 116u8, 95u8];
        extend_bytes(&mut out, prefix.as_slice());
        let mut digits: Vec<u8> = Vec::new();
        push_digits(&mut digits, sequence);
        let ghost d = digits@;
        assert(d =~= nat_digits(sequence as nat));
        let pad = if digits.len() < 16 {
            16 - digits.len()
        } else {
            0
        };
        let ghost before_pad = out@;
        let mut i: usize = 0;
        while i < pad
            invariant
                i <= pad,
                out@ == before_pad + Seq::new(i as nat, |j: int| 48u8),
            decreases pad - i,
        {
            out.push(48u8);
            i = i + 1;
            proof {
                assert(out@ =~= before_pad + Seq::new(i as nat, |j: int| 48u8));
            }
        }
        extend_bytes(&mut out, digits.as_slice());
        let suffix: [u8; 3] = [46u8, 99u8, 112u8];
        extend_bytes(&mut out, suffix.as_slice());
        proof {
            assert(prefix@ =~= seq![99u8, 104u8, 101u8, 99u8, 107u8, 112u8, 111u8, 105u8, 110u8, 116u8, 95u8]);
            assert(suffix@ =~= seq![46u8, 99u8, 112u8]);
            assert(out@ =~= vstd::utf8::encode_utf8(self.config_spec().wal_dir@) + seq![47u8]
                + WalConfig::checkpoint_file_name(sequence));
        }
        out
    }
}

/// `checkpoint_`
pub open spec fn checkpoint_prefix() -> Seq<u8> {
    seq![99u8, 104u8, 101u8, 99u8, 107u8, 112u8, 111u8, 105u8, 110u8, 116u8, 95u8]
}

/// `.cp`
pub open spec fn checkpoint_suffix() -> Seq<u8> {
    seq![46u8, 99u8, 112u8]
}

/// The name of the copy of the latest checkpoint, `checkpoint_latest.cp`.
pub open spec fn latest_checkpoint_name() -> Seq<char> {
    "checkpoint_latest.cp"@
}

/// Whether a directory entry names a checkpoint: it starts with `checkpoint_` and ends with
/// `.cp`.
pub fn is_checkpoint_file_name(name: &str) -> (r: bool)
    ensures
        r == ({
            let b = encode_utf8(name@);
            b.len() >= 11 && b.take(11) == checkpoint_prefix() && b.len() >= 3 && b.subrange(
                b.len() - 3,
                b.len() as int,
            ) == checkpoint_suffix()
        }),
{
    let b = name.as_bytes();
    let n = b.len();
    if n < 11 {
        return false;
    }
    let prefix: [u8; 11] = [99u8, 104u8, 101u8, 99u8, 107u8, 112u8, 111u8, 105u8, 110u8, 116u8, 95u8];
    let mut i: usize = 0;
    let mut same = true;
    assert(b@.take(0) =~= prefix@.take(0));
    while i < 11
        invariant
            i <= 11 <= n == b@.len(),
            prefix@ == checkpoint_prefix(),
            same == (b@.take(i as int) == prefix@.take(i as int)),
        decreases 11 - i,
    {
        proof {
            if same {
                assert(b@.take(i + 1) =~= b@.take(i as int).push(b@[i as int]));
                assert(prefix@.take(i + 1) =~= prefix@.take(i as int).push(prefix@[i as int]));
            } else {
                assert(b@.take(i + 1).take(i as int) =~= b@.take(i as int));
                assert(prefix@.take(i + 1).take(i as int) =~= prefix@.take(i as int));
            }
        }
        if b[i] != prefix[i] {
            proof {
                assert(b@.take(i + 1)[i as int] != prefix@.take(i + 1)[i as int]);
            }
            same = false;
        }
        i = i + 1;
    }
    proof {
        assert(prefix@.take(11) =~= prefix@);
    }
    let ends = b[n - 3] == 46u8 && b[n - 2] == 99u8 && b[n - 1] == 112u8;
    proof {
        let t = b@.subrange(n - 3, n as int);
        if ends {
            assert(t =~= checkpoint_suffix());
        } else if t == checkpoint_suffix() {
            assert(t[0] == b@[n - 3] && t[1] == b@[n - 2] && t[2] == b@[n - 1]);
        }
    }
    same && ends
}

/// The names of a list of strings.
pub open spec fn name_seq(s: Seq<String>) -> Seq<Seq<char>> {
    s.map_values(|x: String| x@)
}

/// Each name comes no earlier than every name after it.
pub open spec fn sorted_desc(s: Seq<Seq<char>>) -> bool {
    forall|i: int, j: int| 0 <= i < j < s.len() ==> name_le(#[trigger] s[j], #[trigger] s[i])
}

/// The names other than that of the copy of the latest checkpoint, in their order.
pub open spec fn without_latest(s: Seq<Seq<char>>) -> Seq<Seq<char>>
    decreases s.len(),
{
    if s.len() == 0 {
        s
    } else if s.last() == latest_checkpoint_name() {
        without_latest(s.drop_last())
    } else {
        without_latest(s.drop_last()).push(s.last())
    }
}

/// Inserts `x` into names sorted from the last to the first, after every name that does not
/// come before it.
fn insert_desc(out: &mut Vec<String>, x: String)
    requires
        sorted_desc(name_seq(old(out)@)),
    ensures
        sorted_desc(name_seq(final(out)@)),
        name_seq(final(out)@).to_multiset() == name_seq(old(out)@).to_multiset().insert(x@),
{
    let mut p: usize = 0;
    let mut done = false;
    while p < out.len() && !done
        invariant
            p <= out@.len(),
            out@ == old(out)@,
            forall|j: int|
                0 <= j < p ==> lex_order(encode_utf8(x@), encode_utf8((#[trigger] out@[j])@))
                    != KeyOrder::Greater,
            done ==> p < out@.len() && lex_order(encode_utf8(x@), encode_utf8(out@[p as int]@))
                == KeyOrder::Greater,
        decreases out@.len() - p + (if done {
            0int
        } else {
            1int
        }),
    {
        if compare_bytes(x.as_str().as_bytes(), out[p].as_str().as_bytes()) == KeyOrder::Greater {
            done = true;
        } else {
            p = p + 1;
        }
    }
    proof {
        let s = name_seq(out@);
        let t = s.insert(p as int, x@);
        let xb = encode_utf8(x@);
        assert forall|i: int, j: int| 0 <= i < j < t.len() implies name_le(#[trigger] t[j], #[trigger] t[i]) by {
            if j < p {
                assert(t[i] == s[i] && t[j] == s[j]);
            } else if i > p {
                assert(t[i] == s[i - 1] && t[j] == s[j - 1]);
            } else if i == p {
                assert(t[i] == x@ && t[j] == s[j - 1]);
                let sp = encode_utf8(s[p as int]);
                lemma_lex_flip(sp, xb);
                if j - 1 > p {
                    assert(name_le(s[j - 1], s[p as int]));
                } else {
                    lemma_lex_refl(sp);
                }
                lemma_lex_trans(encode_utf8(s[j - 1]), sp, xb);
            } else if j == p {
                assert(t[i] == s[i] && t[j] == x@);
                assert(s[i] == out@[i]@);
            } else {
                assert(t[i] == s[i] && t[j] == s[j - 1]);
                if j - 1 > p {
                    assert(name_le(s[j - 1], s[p as int]));
                    assert(name_le(s[p as int], s[i]));
                    lemma_lex_trans(encode_utf8(s[j - 1]), encode_utf8(s[p as int]), encode_utf8(s[i]));
                } else {
                    assert(name_le(s[j - 1], s[i]));
                }
            }
        }
        assert(name_seq(out@.insert(p as int, x)) =~= t);
        vstd::seq_lib::to_multiset_insert(s, p as int, x@);
    }
    out.insert(p, x);
}

/// The names sorted from the last to the first in `str`'s order: the same names, each no
/// earlier than the next.
pub fn sort_names_desc(names: Vec<String>) -> (r: Vec<String>)
    ensures
        name_seq(r@).to_multiset() == name_seq(names@).to_multiset(),
        sorted_desc(name_seq(r@)),
{
    broadcast use vstd::multiset::group_multiset_axioms;

    let mut sorted: Vec<String> = Vec::new();
    let mut rest = names;
    let ghost all = name_seq(rest@);
    proof {
        vstd::seq_lib::to_multiset_len(name_seq(sorted@));
        vstd::multiset::lemma_multiset_empty_len(name_seq(sorted@).to_multiset());
    }
    while rest.len() > 0
        invariant
            sorted_desc(name_seq(sorted@)),
            name_seq(sorted@).to_multiset().add(name_seq(rest@).to_multiset()) == all.to_multiset(),
        decreases rest@.len(),
    {
        let ghost before = name_seq(rest@);
        let x = match rest.pop() {
            Some(x) => x,
            None => {
                proof {
                    assert(false);
                }
                return sorted;
            },
        };
        let ghost sm = name_seq(sorted@).to_multiset();
        proof {
            let w = name_seq(rest@);
            assert(before =~= w.insert(w.len() as int, x@));
            vstd::seq_lib::to_multiset_insert(w, w.len() as int, x@);
        }
        insert_desc(&mut sorted, x);
        proof {
            let w = name_seq(rest@).to_multiset();
            assert(sm.insert(before.last()).add(w) =~= sm.add(w.insert(before.last())));
        }
    }
    proof {
        vstd::seq_lib::to_multiset_len(name_seq(rest@));
        vstd::multiset::lemma_multiset_empty_len(name_seq(rest@).to_multiset());
        assert(name_seq(sorted@).to_multiset().add(Multiset::empty()) =~= name_seq(sorted@).to_multiset());
    }
    sorted
}

/// The checkpoints that a cleanup keeping `max_retain` removes: the names other than
/// `checkpoint_latest.cp`, sorted from the last to the first, after the first `max_retain`.
pub fn old_checkpoints(names: Vec<String>, max_retain: usize) -> (r: Vec<String>)
    ensures
        exists|kept: Seq<Seq<char>>|
            {
                &&& kept.len() == if without_latest(name_seq(names@)).len() <= max_retain {
                    without_latest(name_seq(names@)).len()
                } else {
                    max_retain as nat
                }
                &&& (kept + name_seq(r@)).to_multiset() == without_latest(
                    name_seq(names@),
                ).to_multiset()
                &&& sorted_desc(kept + name_seq(r@))
            },
{
    broadcast use vstd::multiset::group_multiset_axioms;

    let mut sorted: Vec<String> = Vec::new();
    let mut rest = names;
    let ghost all = name_seq(rest@);
    proof {
        vstd::seq_lib::to_multiset_len(name_seq(sorted@));
        vstd::multiset::lemma_multiset_empty_len(name_seq(sorted@).to_multiset());
        assert(name_seq(rest@) =~= all);
    }
    while rest.len() > 0
        invariant
            sorted_desc(name_seq(sorted@)),
            name_seq(sorted@).to_multiset().add(without_latest(name_seq(rest@)).to_multiset())
                == without_latest(all).to_multiset(),
        decreases rest@.len(),
    {
        let ghost before = name_seq(rest@);
        let x = match rest.pop() {
            Some(x) => x,
            None => {
                proof {
                    assert(false);
                }
                return sorted;
            },
        };
        proof {
            assert(before.drop_last() =~= name_seq(rest@));
            assert(before.last() == x@);
        }
        let latest = String::eq(&x, &"checkpoint_latest.cp".to_owned());
        if !latest {
            let ghost sm = name_seq(sorted@).to_multiset();
            proof {
                assert(without_latest(before) == without_latest(name_seq(rest@)).push(x@));
            }
            insert_desc(&mut sorted, x);
            proof {
                let w = without_latest(name_seq(rest@));
                vstd::seq_lib::to_multiset_insert(w, w.len() as int, before.last());
                assert(w.push(before.last()) =~= w.insert(w.len() as int, before.last()));
                assert(sm.insert(before.last()).add(w.to_multiset()) =~= sm.add(
                    w.to_multiset().insert(before.last()),
                ));
            }
        } else {
            proof {
                assert(without_latest(before) == without_latest(name_seq(rest@)));
            }
        }
    }
    proof {
        assert(without_latest(name_seq(rest@)) =~= Seq::<Seq<char>>::empty());
        vstd::seq_lib::to_multiset_len(Seq::<Seq<char>>::empty());
        vstd::multiset::lemma_multiset_empty_len(Seq::<Seq<char>>::empty().to_multiset());
        assert(name_seq(sorted@).to_multiset().add(Multiset::empty()) =~= name_seq(sorted@).to_multiset());
    }
    let mut out: Vec<String> = Vec::new();
    let mut k: usize = if sorted.len() <= max_retain {
        sorted.len()
    } else {
        max_retain
    };
    let start = k;
    while k < sorted.len()
        invariant
            start <= k <= sorted@.len(),
            name_seq(out@) == name_seq(sorted@).subrange(start as int, k as int),
        decreases sorted@.len() - k,
    {
        let c = sorted[k].clone();
        let ghost prev = name_seq(out@);
        let ghost cv = c@;
        proof {
            assert(cv == name_seq(sorted@)[k as int]);
        }
        out.push(c);
        proof {
            assert(name_seq(out@) =~= prev.push(cv));
            assert(prev.push(cv) =~= name_seq(sorted@).subrange(start as int, k + 1));
        }
        k = k + 1;
    }
    proof {
        let ss = name_seq(sorted@);
        let kept = ss.take(start as int);
        assert(kept + name_seq(out@) =~= ss);
        vstd::seq_lib::to_multiset_len(ss);
        vstd::seq_lib::to_multiset_len(without_latest(all));
    }
    out
}


/// Ten to the `k`.
spec fn pow10(k: nat) -> nat
    decreases k,
{
    if k == 0 {
        1
    } else {
        10 * pow10((k - 1) as nat)
    }
}

/// A number under ten to the `k` has at most `k` digits.
proof fn lemma_digits_len_bound(n: nat, k: nat)
    requires
        k >= 1,
        n < pow10(k),
    ensures
        nat_digits(n).len() <= k,
    decreases n,
{
    if n >= 10 {
        assert(k >= 2) by {
            if k == 1 {
                assert(pow10(1) == 10 * pow10(0));
            }
        }
        let k1 = (k - 1) as nat;
        assert(pow10(k) == 10 * pow10(k1));
        assert(n / 10 < pow10(k1)) by (nonlinear_arith)
            requires
                n < 10 * pow10(k1),
        ;
        lemma_digits_len_bound(n / 10, k1);
    }
}

/// The order of equal-length comparisons decided on a prefix stays decided.
proof fn lemma_lex_push(x: Seq<u8>, y: Seq<u8>, a: u8, b: u8)
    requires
        x.len() == y.len(),
    ensures
        lex_order(x.push(a), y.push(b)) == if lex_order(x, y) != KeyOrder::Equal {
            lex_order(x, y)
        } else if a < b {
            KeyOrder::Less
        } else if a > b {
            KeyOrder::Greater
        } else {
            KeyOrder::Equal
        },
    decreases x.len(),
{
    if x.len() > 0 {
        assert(x.push(a)[0] == x[0] && y.push(b)[0] == y[0]);
        assert(x.push(a).drop_first() =~= x.drop_first().push(a));
        assert(y.push(b).drop_first() =~= y.drop_first().push(b));
        lemma_lex_push(x.drop_first(), y.drop_first(), a, b);
    } else {
        assert(x.push(a).drop_first() =~= Seq::<u8>::empty());
        assert(y.push(b).drop_first() =~= Seq::<u8>::empty());
        assert(lex_order(Seq::<u8>::empty(), Seq::<u8>::empty()) == KeyOrder::Equal);
        assert(x =~= Seq::<u8>::empty() && y =~= Seq::<u8>::empty());
    }
}

/// Equal-length runs of digits compare as the numbers they spell.
proof fn lemma_lex_digits(x: Seq<u8>, y: Seq<u8>)
    requires
        x.len() == y.len(),
        all_digits(x),
        all_digits(y),
    ensures
        lex_order(x, y) == if digits_value(x) < digits_value(y) {
            KeyOrder::Less
        } else if digits_value(x) > digits_value(y) {
            KeyOrder::Greater
        } else {
            KeyOrder::Equal
        },
    decreases x.len(),
{
    if x.len() > 0 {
        let x1 = x.drop_last();
        let y1 = y.drop_last();
        assert(x1.push(x.last()) =~= x);
        assert(y1.push(y.last()) =~= y);
        assert(is_digit(x[x.len() - 1]) && is_digit(y[y.len() - 1]));
        lemma_lex_digits(x1, y1);
        lemma_lex_push(x1, y1, x.last(), y.last());
    }
}

/// Bytes after a common prefix decide the order.
proof fn lemma_lex_common_prefix(p: Seq<u8>, u: Seq<u8>, v: Seq<u8>)
    ensures
        lex_order(p + u, p + v) == lex_order(u, v),
    decreases p.len(),
{
    if p.len() > 0 {
        assert((p + u).drop_first() =~= p.drop_first() + u);
        assert((p + v).drop_first() =~= p.drop_first() + v);
        lemma_lex_common_prefix(p.drop_first(), u, v);
    } else {
        assert(p + u =~= u);
        assert(p + v =~= v);
    }
}

/// An order decided within equal-length parts survives anything after them.
proof fn lemma_lex_decided(u: Seq<u8>, v: Seq<u8>, s: Seq<u8>, t: Seq<u8>)
    requires
        u.len() == v.len(),
        lex_order(u, v) == KeyOrder::Less,
    ensures
        lex_order(u + s, v + t) == KeyOrder::Less,
    decreases u.len(),
{
    if u.len() > 0 && u[0] == v[0] {
        assert((u + s).drop_first() =~= u.drop_first() + s);
        assert((v + t).drop_first() =~= v.drop_first() + t);
        lemma_lex_decided(u.drop_first(), v.drop_first(), s, t);
    }
}

/// Zeros before digits change nothing of their value.
proof fn lemma_zero_padded(k: nat, d: Seq<u8>)
    requires
        all_digits(d),
    ensures
        all_digits(Seq::new(k, |i: int| 48u8) + d),
        digits_value(Seq::new(k, |i: int| 48u8) + d) == digits_value(d),
    decreases d.len() + k,
{
    let z = Seq::new(k, |i: int| 48u8);
    if d.len() > 0 {
        assert((z + d).drop_last() =~= z + d.drop_last());
        lemma_zero_padded(k, d.drop_last());
    } else if k > 0 {
        let z1 = Seq::new((k - 1) as nat, |i: int| 48u8);
        assert(z.drop_last() =~= z1);
        assert(z + d =~= z);
        assert(z1 + d =~= z1);
        lemma_zero_padded((k - 1) as nat, d);
    } else {
        assert(z + d =~= d);
    }
}

/// The zero-padded digits of a checkpoint's name.
spec fn padded_digits(sequence: u64) -> Seq<u8> {
    let d = nat_digits(sequence as nat);
    Seq::new(if d.len() < 16 { (16 - d.len()) as nat } else { 0 }, |i: int| 48u8) + d
}

proof fn lemma_padded_digits(a: u64)
    requires
        a < 10_000_000_000_000_000,
    ensures
        padded_digits(a).len() == 16,
        all_digits(padded_digits(a)),
        digits_value(padded_digits(a)) == a,
{
    reveal_with_fuel(pow10, 17);
    assert(pow10(16) == 10_000_000_000_000_000);
    lemma_digits_len_bound(a as nat, 16);
    lemma_nat_digits_props(a as nat);
    let d = nat_digits(a as nat);
    lemma_zero_padded((16 - d.len()) as nat, d);
}

/// Checkpoint names order as their sequences, for sequences of up to sixteen digits.
pub proof fn lemma_checkpoint_names_ordered(a: u64, b: u64)
    requires
        a < b,
        b < 10_000_000_000_000_000,
    ensures
        lex_order(WalConfig::checkpoint_file_name(a), WalConfig::checkpoint_file_name(b)) == KeyOrder::Less,
{
    lemma_padded_digits(a);
    lemma_padded_digits(b);
    let pre = seq![99u8, 104u8, 101u8, 99u8, 107u8, 112u8, 111u8, 105u8, 110u8, 116u8, 95u8];
    let suf = seq![46u8, 99u8, 112u8];
    let u = padded_digits(a);
    let v = padded_digits(b);
    assert(WalConfig::checkpoint_file_name(a) =~= pre + (u + suf));
    assert(WalConfig::checkpoint_file_name(b) =~= pre + (v + suf));
    lemma_lex_digits(u, v);
    lemma_lex_decided(u, v, suf, suf);
    lemma_lex_common_prefix(pre, u + suf, v + suf);
}

} // verus!

use vstd::prelude::*;
use crate::assoc_map::AssocMap;
use crate::byte_order::{
    le_bytes, le_value, lemma_le_bytes_len, lemma_le_value_bound, lemma_le_value_of_bytes,
    lemma_pow256_facts, push_le, read_le,
};
use crate::key_codec::{
    bits_i64, bits_to_i64, i64_bits, key_bytes, key_from_bytes, lemma_i64_bits_roundtrip, lemma_key_roundtrip,
    KeyEncoding, KeyModel,
};
use crate::storage::reconcile::{KvMap, KvView};
use crate::text::{copy_range, extend_bytes};

verus! {

/// Deadlines of keys that expire, in milliseconds since the Unix epoch.
pub type ExpMap = AssocMap<KeyEncoding, u64>;

pub type ExpView = Map<KeyModel, u64>;

/// The state a log describes: the key-value map and the deadlines.
pub type StoreView = (KvView, ExpView);

pub const OP_SET_V1: u8 = 1;

pub const OP_DELETE_V1: u8 = 2;

pub const OP_SET_V2: u8 = 3;

pub const OP_DELETE_V2: u8 = 4;

pub const OP_EXPIRE_V2: u8 = 5;

/// Why a log could not be replayed.
#[derive(Debug, Clone, Copy, PartialEq, Eq, Structural)]
pub enum ReplayFault {
    /// A key blob whose bytes are not a key encoding.
    InvalidKey,
    /// An operation code that no record has.
    UnknownOp(u8),
}

/// Writing `v` under `k` clears any deadline of `k`.
pub open spec fn set_model(st: StoreView, k: KeyModel, v: Seq<u8>) -> StoreView {
    (st.0.insert(k, v), st.1.remove(k))
}

/// Deleting `k` clears it and its deadline.
pub open spec fn delete_model(st: StoreView, k: KeyModel) -> StoreView {
    (st.0.remove(k), st.1.remove(k))
}

/// A deadline is recorded only for a key that is present.
pub open spec fn expire_model(st: StoreView, k: KeyModel, deadline: u64) -> StoreView {
    if st.0.contains_key(k) {
        (st.0, st.1.insert(k, deadline))
    } else {
        st
    }
}

/// The result of reading a key blob (a four-byte length, then a key encoding) at an offset.
pub enum BlobRead {
    Truncated,
    Invalid,
    Key(KeyModel, int),
}

pub open spec fn read_blob(b: Seq<u8>, off: int) -> BlobRead {
    if b.len() - off < 4 {
        BlobRead::Truncated
    } else {
        let n = le_value(b.subrange(off, off + 4)) as int;
        if b.len() - (off + 4) < n {
            BlobRead::Truncated
        } else {
            match key_from_bytes(b.subrange(off + 4, off + 4 + n)) {
                Some(k) => BlobRead::Key(k, off + 4 + n),
                None => BlobRead::Invalid,
            }
        }
    }
}

/// Reads a four-byte value length at `p` and the value after it; `None` if cut short.
pub open spec fn read_value(b: Seq<u8>, p: int) -> Option<(Seq<u8>, int)> {
    if b.len() - p < 4 {
        None
    } else {
        let n = le_value(b.subrange(p, p + 4)) as int;
        if b.len() - (p + 4) < n {
            None
        } else {
            Some((b.subrange(p + 4, p + 4 + n), p + 4 + n))
        }
    }
}

/// Replays the records of `b` from `off` onto `st`. A record cut short ends the replay
/// (the tail of a crashed write); so does an operation code 0 or the end of the bytes.
pub open spec fn replay_from(b: Seq<u8>, off: int, st: StoreView) -> Result<StoreView, ReplayFault>
    decreases b.len() - off,
{
    if off < 0 || off >= b.len() {
        Ok(st)
    } else {
        let op = b[off];
        let p = off + 1;
        if op == OP_SET_V1 {
            if b.len() - p < 8 {
                Ok(st)
            } else {
                let k = KeyModel::Int(bits_i64(le_value(b.subrange(p, p + 8))));
                match read_value(b, p + 8) {
                    None => Ok(st),
                    Some((v, next)) => replay_from(b, next, set_model(st, k, v)),
                }
            }
        } else if op == OP_DELETE_V1 {
            if b.len() - p < 8 {
                Ok(st)
            } else {
                let k = KeyModel::Int(bits_i64(le_value(b.subrange(p, p + 8))));
                replay_from(b, p + 8, delete_model(st, k))
            }
        } else if op == OP_SET_V2 {
            match read_blob(b, p) {
                BlobRead::Truncated => Ok(st),
                BlobRead::Invalid => Err(ReplayFault::InvalidKey),
                BlobRead::Key(k, q) => match read_value(b, q) {
                    None => Ok(st),
                    Some((v, next)) => replay_from(b, next, set_model(st, k, v)),
                },
            }
        } else if op == OP_DELETE_V2 {
            match read_blob(b, p) {
                BlobRead::Truncated => Ok(st),
                BlobRead::Invalid => Err(ReplayFault::InvalidKey),
                BlobRead::Key(k, q) => replay_from(b, q, delete_model(st, k)),
            }
        } else if op == OP_EXPIRE_V2 {
            match read_blob(b, p) {
                BlobRead::Truncated => Ok(st),
                BlobRead::Invalid => Err(ReplayFault::InvalidKey),
                BlobRead::Key(k, q) => if b.len() - q < 8 {
                    Ok(st)
                } else {
                    replay_from(
                        b,
                        q + 8,
                        expire_model(st, k, le_value(b.subrange(q, q + 8)) as u64),
                    )
                },
            }
        } else if op == 0 {
            Ok(st)
        } else {
            Err(ReplayFault::UnknownOp(op))
        }
    }
}

/// Only present keys have deadlines.
pub open spec fn deadlines_present(st: StoreView) -> bool {
    st.1.dom().subset_of(st.0.dom())
}

/// Replay keeps deadlines on present keys only.
pub proof fn lemma_replay_keeps_deadlines_present(b: Seq<u8>, off: int, st: StoreView)
    requires
        deadlines_present(st),
    ensures
        replay_from(b, off, st) matches Ok(s2) ==> deadlines_present(s2),
    decreases b.len() - off,
{
    if 0 <= off < b.len() {
        let op = b[off];
        let p = off + 1;
        if op == OP_SET_V1 || op == OP_DELETE_V1 {
            if b.len() - p >= 8 {
                let k = KeyModel::Int(bits_i64(le_value(b.subrange(p, p + 8))));
                if op == OP_SET_V1 {
                    match read_value(b, p + 8) {
                        Some((v, next)) => {
                            lemma_replay_keeps_deadlines_present(b, next, set_model(st, k, v));
                        },
                        None => {},
                    }
                } else {
                    lemma_replay_keeps_deadlines_present(b, p + 8, delete_model(st, k));
                }
            }
        } else if op == OP_SET_V2 || op == OP_DELETE_V2 || op == OP_EXPIRE_V2 {
            match read_blob(b, p) {
                BlobRead::Key(k, q) => {
                    if op == OP_SET_V2 {
                        match read_value(b, q) {
                            Some((v, next)) => {
                                lemma_replay_keeps_deadlines_present(b, next, set_model(st, k, v));
                            },
                            None => {},
                        }
                    } else if op == OP_DELETE_V2 {
                        lemma_replay_keeps_deadlines_present(b, q, delete_model(st, k));
                    } else if b.len() - q >= 8 {
                        lemma_replay_keeps_deadlines_present(
                            b,
                            q + 8,
                            expire_model(st, k, le_value(b.subrange(q, q + 8)) as u64),
                        );
                    }
                },
                _ => {},
            }
        }
    }
}

/// A key's blob: the length of its encoding, then the encoding.
pub open spec fn key_blob(k: KeyModel) -> Seq<u8> {
    le_bytes(key_bytes(k).len(), 4) + key_bytes(k)
}

/// The record of a write.
pub open spec fn set_record(k: KeyModel, v: Seq<u8>) -> Seq<u8> {
    seq![OP_SET_V2] + key_blob(k) + le_bytes(v.len(), 4) + v
}

/// The record of a delete.
pub open spec fn delete_record(k: KeyModel) -> Seq<u8> {
    seq![OP_DELETE_V2] + key_blob(k)
}

/// The record of a deadline.
pub open spec fn expire_record(k: KeyModel, deadline: u64) -> Seq<u8> {
    seq![OP_EXPIRE_V2] + key_blob(k) + le_bytes(deadline as nat, 8)
}

/// A change that the log records.
pub enum WalOp {
    Put(KeyModel, Seq<u8>),
    Delete(KeyModel),
    Expire(KeyModel, u64),
    /// A write of an integer key in the older record kind.
    PutV1(i64, Seq<u8>),
    /// A delete of an integer key in the older record kind.
    DeleteV1(i64),
}

/// The record of a write of an integer key, in the older kind.
pub open spec fn set_v1_record(k: i64, v: Seq<u8>) -> Seq<u8> {
    seq![OP_SET_V1] + le_bytes(i64_bits(k), 8) + le_bytes(v.len(), 4) + v
}

/// The record of a delete of an integer key, in the older kind.
pub open spec fn delete_v1_record(k: i64) -> Seq<u8> {
    seq![OP_DELETE_V1] + le_bytes(i64_bits(k), 8)
}

pub open spec fn op_record(op: WalOp) -> Seq<u8> {
    match op {
        WalOp::Put(k, v) => set_record(k, v),
        WalOp::Delete(k) => delete_record(k),
        WalOp::Expire(k, d) => expire_record(k, d),
        WalOp::PutV1(k, v) => set_v1_record(k, v),
        WalOp::DeleteV1(k) => delete_v1_record(k),
    }
}

pub open spec fn apply_op(st: StoreView, op: WalOp) -> StoreView {
    match op {
        WalOp::Put(k, v) => set_model(st, k, v),
        WalOp::Delete(k) => delete_model(st, k),
        WalOp::Expire(k, d) => expire_model(st, k, d),
        WalOp::PutV1(k, v) => set_model(st, KeyModel::Int(k), v),
        WalOp::DeleteV1(k) => delete_model(st, KeyModel::Int(k)),
    }
}

/// The records of a list of changes, one after another.
pub open spec fn ops_records(ops: Seq<WalOp>) -> Seq<u8>
    decreases ops.len(),
{
    if ops.len() == 0 {
        Seq::empty()
    } else {
        op_record(ops[0]) + ops_records(ops.drop_first())
    }
}

/// The state after a list of changes, made in order.
pub open spec fn apply_ops(st: StoreView, ops: Seq<WalOp>) -> StoreView
    decreases ops.len(),
{
    if ops.len() == 0 {
        st
    } else {
        apply_ops(apply_op(st, ops[0]), ops.drop_first())
    }
}

/// A key whose encoding fits a blob and a value whose length fits four bytes.
pub open spec fn op_fits(op: WalOp) -> bool {
    match op {
        WalOp::Put(k, v) => key_fits(k) && v.len() < 0x1_0000_0000,
        WalOp::Delete(k) => key_fits(k),
        WalOp::Expire(k, _) => key_fits(k),
        WalOp::PutV1(_, v) => v.len() < 0x1_0000_0000,
        WalOp::DeleteV1(_) => true,
    }
}

pub open spec fn key_fits(k: KeyModel) -> bool {
    k matches KeyModel::Raw(cs) ==> vstd::utf8::encode_utf8(cs).len() < 0x1_0000_0000 - 100
}

proof fn lemma_key_bytes_len(k: KeyModel)
    requires
        key_fits(k),
    ensures
        key_bytes(k).len() < 0x1_0000_0000,
{
    match k {
        KeyModel::Raw(cs) => lemma_le_bytes_len(vstd::utf8::encode_utf8(cs).len(), 4),
        KeyModel::Int(v) => lemma_le_bytes_len(crate::key_codec::i64_bits(v), 8),
        KeyModel::Float(x) => lemma_le_bytes_len(x as nat, 8),
    }
}

pub proof fn lemma_key_blob_len(k: KeyModel)
    requires
        key_fits(k),
    ensures
        key_bytes(k).len() < 0x1_0000_0000,
        key_blob(k).len() == 4 + key_bytes(k).len(),
{
    lemma_key_bytes_len(k);
    lemma_le_bytes_len(key_bytes(k).len(), 4);
}

pub proof fn lemma_read_blob(b: Seq<u8>, off: int, k: KeyModel)
    requires
        key_fits(k),
        0 <= off,
        off + key_blob(k).len() <= b.len(),
        b.subrange(off, off + key_blob(k).len()) == key_blob(k),
    ensures
        read_blob(b, off) == BlobRead::Key(k, off + key_blob(k).len()),
{
    lemma_pow256_facts();
    lemma_key_bytes_len(k);
    let e = key_bytes(k);
    lemma_le_bytes_len(e.len(), 4);
    let blob = key_blob(k);
    assert(b.subrange(off, off + 4) =~= blob.subrange(0, 4));
    assert(blob.subrange(0, 4) =~= le_bytes(e.len(), 4));
    lemma_le_value_of_bytes(e.len(), 4);
    assert(b.subrange(off + 4, off + 4 + e.len()) =~= blob.subrange(4, 4 + e.len() as int));
    assert(blob.subrange(4, 4 + e.len() as int) =~= e);
    lemma_key_roundtrip(k);
}

pub proof fn lemma_read_value(b: Seq<u8>, p: int, v: Seq<u8>)
    requires
        v.len() < 0x1_0000_0000,
        0 <= p,
        p + 4 + v.len() <= b.len(),
        b.subrange(p, p + 4 + v.len()) == le_bytes(v.len(), 4) + v,
    ensures
        read_value(b, p) == Some((v, p + 4 + v.len())),
{
    lemma_pow256_facts();
    lemma_le_bytes_len(v.len(), 4);
    let w = le_bytes(v.len(), 4) + v;
    assert(b.subrange(p, p + 4) =~= w.subrange(0, 4));
    assert(w.subrange(0, 4) =~= le_bytes(v.len(), 4));
    lemma_le_value_of_bytes(v.len(), 4);
    assert(b.subrange(p + 4, p + 4 + v.len()) =~= w.subrange(4, 4 + v.len() as int));
    assert(w.subrange(4, 4 + v.len() as int) =~= v);
}

proof fn lemma_window(b: Seq<u8>, off: int, r: Seq<u8>, i: int, j: int)
    requires
        0 <= off,
        off + r.len() <= b.len(),
        b.subrange(off, off + r.len()) == r,
        0 <= i <= j <= r.len(),
    ensures
        b.subrange(off + i, off + j) == r.subrange(i, j),
{
    assert forall|t: int| 0 <= t < j - i implies b.subrange(off + i, off + j)[t] == r.subrange(
        i,
        j,
    )[t] by {
        assert(b.subrange(off, off + r.len())[i + t] == r[i + t]);
    }
    assert(b.subrange(off + i, off + j) =~= r.subrange(i, j));
}

/// Replaying a record at `off` applies its change, then replays what follows.
proof fn lemma_replay_record(b: Seq<u8>, off: int, st: StoreView, op: WalOp)
    requires
        op_fits(op),
        0 <= off,
        off + op_record(op).len() <= b.len(),
        b.subrange(off, off + op_record(op).len()) == op_record(op),
    ensures
        replay_from(b, off, st) == replay_from(b, off + op_record(op).len(), apply_op(st, op)),
{
    lemma_pow256_facts();
    let rec = op_record(op);
    assert(b[off] == rec[0]);
    match op {
        WalOp::Put(k, v) => {
            let blob = key_blob(k);
            lemma_key_bytes_len(k);
            lemma_le_bytes_len(key_bytes(k).len(), 4);
            lemma_le_bytes_len(v.len(), 4);
            assert(rec =~= seq![OP_SET_V2] + blob + (le_bytes(v.len(), 4) + v));
            lemma_window(b, off, rec, 1, 1 + blob.len() as int);
            assert(rec.subrange(1, 1 + blob.len() as int) =~= blob);
            lemma_read_blob(b, off + 1, k);
            let q = off + 1 + blob.len();
            lemma_window(b, off, rec, 1 + blob.len() as int, rec.len() as int);
            assert(rec.subrange(1 + blob.len() as int, rec.len() as int) =~= le_bytes(v.len(), 4) + v);
            lemma_read_value(b, q, v);
        },
        WalOp::Delete(k) => {
            let blob = key_blob(k);
            lemma_key_bytes_len(k);
            lemma_le_bytes_len(key_bytes(k).len(), 4);
            lemma_window(b, off, rec, 1, 1 + blob.len() as int);
            assert(rec.subrange(1, 1 + blob.len() as int) =~= blob);
            lemma_read_blob(b, off + 1, k);
        },
        WalOp::Expire(k, d) => {
            let blob = key_blob(k);
            lemma_key_bytes_len(k);
            lemma_le_bytes_len(key_bytes(k).len(), 4);
            lemma_le_bytes_len(d as nat, 8);
            lemma_window(b, off, rec, 1, 1 + blob.len() as int);
            assert(rec.subrange(1, 1 + blob.len() as int) =~= blob);
            lemma_read_blob(b, off + 1, k);
            let q = off + 1 + blob.len();
            lemma_window(b, off, rec, 1 + blob.len() as int, rec.len() as int);
            assert(rec.subrange(1 + blob.len() as int, rec.len() as int) =~= le_bytes(d as nat, 8));
            lemma_le_value_of_bytes(d as nat, 8);
        },
        WalOp::PutV1(k, v) => {
            lemma_i64_bits_roundtrip(k);
            lemma_le_bytes_len(i64_bits(k), 8);
            lemma_le_bytes_len(v.len(), 4);
            lemma_window(b, off, rec, 1, 9);
            assert(rec.subrange(1, 9) =~= le_bytes(i64_bits(k), 8));
            lemma_le_value_of_bytes(i64_bits(k), 8);
            lemma_window(b, off, rec, 9, rec.len() as int);
            assert(rec.subrange(9, rec.len() as int) =~= le_bytes(v.len(), 4) + v);
            lemma_read_value(b, off + 9, v);
        },
        WalOp::DeleteV1(k) => {
            lemma_i64_bits_roundtrip(k);
            lemma_le_bytes_len(i64_bits(k), 8);
            lemma_window(b, off, rec, 1, 9);
            assert(rec.subrange(1, 9) =~= le_bytes(i64_bits(k), 8));
            lemma_le_value_of_bytes(i64_bits(k), 8);
        },
    }
}

/// Replaying the records of a list of changes, followed by at most a lone operation byte
/// of a record that a crash cut short, gives the state after those changes in order.
pub proof fn lemma_replay_ops(ops: Seq<WalOp>, tail: Seq<u8>, st: StoreView)
    requires
        forall|i: int| 0 <= i < ops.len() ==> op_fits(#[trigger] ops[i]),
        tail.len() == 0 || (tail.len() == 1 && tail[0] <= OP_EXPIRE_V2),
    ensures
        replay_from(ops_records(ops) + tail, 0, st) == Ok::<_, ReplayFault>(apply_ops(st, ops)),
    decreases ops.len(),
{
    let b = ops_records(ops) + tail;
    if ops.len() == 0 {
        assert(b =~= tail);
    } else {
        let rec = op_record(ops[0]);
        let rest = ops.drop_first();
        assert(ops_records(ops) =~= rec + ops_records(rest));
        assert(b.subrange(0, rec.len() as int) =~= rec);
        lemma_replay_record(b, 0, st, ops[0]);
        assert forall|i: int| 0 <= i < rest.len() implies op_fits(#[trigger] rest[i]) by {
            assert(rest[i] == ops[i + 1]);
        }
        lemma_replay_ops(rest, tail, apply_op(st, ops[0]));
        lemma_replay_shift(rec, ops_records(rest) + tail, apply_op(st, ops[0]));
        assert(rec + (ops_records(rest) + tail) =~= b);
    }
}

/// A record that a crash cut short, anywhere after its operation byte, changes nothing.
proof fn lemma_replay_torn(op: WalOp, n: int, st: StoreView)
    requires
        op_fits(op),
        1 <= n < op_record(op).len(),
    ensures
        replay_from(op_record(op).take(n), 0, st) == Ok::<_, ReplayFault>(st),
{
    lemma_pow256_facts();
    let rec = op_record(op);
    let t = rec.take(n);
    assert(t[0] == rec[0]);
    match op {
        WalOp::PutV1(k, v) => {
            lemma_le_bytes_len(i64_bits(k), 8);
            lemma_le_bytes_len(v.len(), 4);
            if t.len() >= 13 {
                assert(t.subrange(9, 13) =~= le_bytes(v.len() as nat, 4));
                lemma_le_value_of_bytes(v.len(), 4);
            }
        },
        WalOp::DeleteV1(k) => {
            lemma_le_bytes_len(i64_bits(k), 8);
        },
        WalOp::Put(k, _) => lemma_replay_torn_blob(op, k, n),
        WalOp::Delete(k) => lemma_replay_torn_blob(op, k, n),
        WalOp::Expire(k, _) => lemma_replay_torn_blob(op, k, n),
    }
}

/// The case of `lemma_replay_torn` for records that carry a key blob.
proof fn lemma_replay_torn_blob(op: WalOp, k: KeyModel, n: int)
    requires
        op_fits(op),
        1 <= n < op_record(op).len(),
        op matches WalOp::Put(kk, _) ==> kk == k,
        op matches WalOp::Delete(kk) ==> kk == k,
        op matches WalOp::Expire(kk, _) ==> kk == k,
        !(op is PutV1) && !(op is DeleteV1),
    ensures
        forall|st: StoreView| #[trigger] replay_from(op_record(op).take(n), 0, st) == Ok::<_, ReplayFault>(st),
{
    lemma_pow256_facts();
    let rec = op_record(op);
    let t = rec.take(n);
    assert(t[0] == rec[0]);
    lemma_key_blob_len(k);
    let blob = key_blob(k);
    let q: int = 1 + blob.len() as int;
    assert(rec.subrange(1, q) =~= blob);
    if t.len() >= q {
        assert(t.subrange(1, q) =~= blob);
        lemma_read_blob(t, 1, k);
        match op {
            WalOp::Put(_, v) => {
                lemma_le_bytes_len(v.len(), 4);
                if t.len() - q >= 4 {
                    assert(t.subrange(q, q + 4) =~= le_bytes(v.len() as nat, 4));
                    lemma_le_value_of_bytes(v.len(), 4);
                }
            },
            WalOp::Expire(_, d) => {
                lemma_le_bytes_len(d as nat, 8);
            },
            _ => {},
        }
    } else if t.len() >= 5 {
        assert(t.subrange(1, 5) =~= blob.subrange(0, 4));
        assert(blob.subrange(0, 4) =~= le_bytes(key_bytes(k).len(), 4));
        lemma_le_value_of_bytes(key_bytes(k).len(), 4);
    }
}

/// Replaying the records of a list of changes, followed by any part of one more record
/// that a crash cut short after its operation byte, gives the state after those changes.
pub proof fn lemma_replay_ops_torn(ops: Seq<WalOp>, last: WalOp, n: int, st: StoreView)
    requires
        forall|i: int| 0 <= i < ops.len() ==> op_fits(#[trigger] ops[i]),
        op_fits(last),
        1 <= n < op_record(last).len(),
    ensures
        replay_from(ops_records(ops) + op_record(last).take(n), 0, st) == Ok::<_, ReplayFault>(apply_ops(st, ops)),
    decreases ops.len(),
{
    let tail = op_record(last).take(n);
    let b = ops_records(ops) + tail;
    if ops.len() == 0 {
        assert(b =~= tail);
        lemma_replay_torn(last, n, st);
    } else {
        let rec = op_record(ops[0]);
        let rest = ops.drop_first();
        assert(ops_records(ops) =~= rec + ops_records(rest));
        assert(b.subrange(0, rec.len() as int) =~= rec);
        lemma_replay_record(b, 0, st, ops[0]);
        assert forall|i: int| 0 <= i < rest.len() implies op_fits(#[trigger] rest[i]) by {
            assert(rest[i] == ops[i + 1]);
        }
        lemma_replay_ops_torn(rest, last, n, apply_op(st, ops[0]));
        lemma_replay_shift(rec, ops_records(rest) + tail, apply_op(st, ops[0]));
        assert(rec + (ops_records(rest) + tail) =~= b);
    }
}

/// Replay from an offset only sees the bytes from that offset on.
proof fn lemma_replay_shift(pre: Seq<u8>, b: Seq<u8>, st: StoreView)
    ensures
        replay_from(pre + b, pre.len() as int, st) == replay_from(b, 0, st),
{
    lemma_replay_shift_at(pre, b, 0, st);
}

#[verifier::rlimit(50)]
proof fn lemma_replay_shift_at(pre: Seq<u8>, b: Seq<u8>, off: int, st: StoreView)
    requires
        0 <= off,
    ensures
        replay_from(pre + b, pre.len() + off, st) == replay_from(b, off, st),
    decreases b.len() - off,
{
    let w = pre + b;
    let n = pre.len() as int;
    if off < b.len() {
        assert forall|i: int, j: int| 0 <= i <= j <= b.len() implies #[trigger] w.subrange(n + i, n + j)
            == b.subrange(i, j) by {
            assert(w.subrange(n + i, n + j) =~= b.subrange(i, j));
        }
        assert(w[n + off] == b[off]);
        let op = b[off];
        let p = off + 1;
        if op == OP_SET_V1 || op == OP_DELETE_V1 {
            if b.len() - p >= 8 {
                assert(w.subrange(n + p, n + p + 8) == b.subrange(p, p + 8));
                if op == OP_SET_V1 {
                    let k = KeyModel::Int(bits_i64(le_value(b.subrange(p, p + 8))));
                    if b.len() - (p + 8) >= 4 {
                        assert(w.subrange(n + p + 8, n + p + 12) == b.subrange(p + 8, p + 12));
                        let vl = le_value(b.subrange(p + 8, p + 12)) as int;
                        if b.len() - (p + 12) >= vl {
                            assert(w.subrange(n + p + 12, n + p + 12 + vl) == b.subrange(
                                p + 12,
                                p + 12 + vl,
                            ));
                            let v = b.subrange(p + 12, p + 12 + vl);
                            lemma_replay_shift_at(pre, b, p + 12 + vl, set_model(st, k, v));
                        }
                    }
                } else {
                    let k = KeyModel::Int(bits_i64(le_value(b.subrange(p, p + 8))));
                    lemma_replay_shift_at(pre, b, p + 8, delete_model(st, k));
                }
            }
        } else if op == OP_SET_V2 || op == OP_DELETE_V2 || op == OP_EXPIRE_V2 {
            if b.len() - p >= 4 {
                assert(w.subrange(n + p, n + p + 4) == b.subrange(p, p + 4));
                let kl = le_value(b.subrange(p, p + 4)) as int;
                if b.len() - (p + 4) >= kl {
                    assert(w.subrange(n + p + 4, n + p + 4 + kl) == b.subrange(p + 4, p + 4 + kl));
                    match key_from_bytes(b.subrange(p + 4, p + 4 + kl)) {
                        Some(k) => {
                            let q = p + 4 + kl;
                            if op == OP_SET_V2 {
                                if b.len() - q >= 4 {
                                    assert(w.subrange(n + q, n + q + 4) == b.subrange(q, q + 4));
                                    let vl = le_value(b.subrange(q, q + 4)) as int;
                                    if b.len() - (q + 4) >= vl {
                                        assert(w.subrange(n + q + 4, n + q + 4 + vl) == b.subrange(
                                            q + 4,
                                            q + 4 + vl,
                                        ));
                                        let v = b.subrange(q + 4, q + 4 + vl);
                                        lemma_replay_shift_at(
                                            pre,
                                            b,
                                            q + 4 + vl,
                                            set_model(st, k, v),
                                        );
                                    }
                                }
                            } else if op == OP_DELETE_V2 {
                                lemma_replay_shift_at(pre, b, q, delete_model(st, k));
                            } else {
                                if b.len() - q >= 8 {
                                    assert(w.subrange(n + q, n + q + 8) == b.subrange(q, q + 8));
                                    let d = le_value(b.subrange(q, q + 8)) as u64;
                                    lemma_replay_shift_at(pre, b, q + 8, expire_model(st, k, d));
                                }
                            }
                        },
                        None => {},
                    }
                }
            }
        }
    }
}

/// Appends a key's blob.
pub fn push_key_blob(out: &mut Vec<u8>, key: &KeyEncoding)
    ensures
        final(out)@ == old(out)@ + key_blob(key@),
{
    let enc = key.encode();
    push_le(out, enc.len() as u64, 4);
    extend_bytes(out, enc.as_slice());
    assert(final(out)@ =~= old(out)@ + key_blob(key@));
}

/// The record of writing `value` under `key`.
pub fn encode_set_record(key: &KeyEncoding, value: &[u8]) -> (r: Vec<u8>)
    ensures
        r@ == set_record(key@, value@),
{
    let mut out: Vec<u8> = Vec::new();
    out.push(OP_SET_V2);
    push_key_blob(&mut out, key);
    push_le(&mut out, value.len() as u64, 4);
    extend_bytes(&mut out, value);
    assert(out@ =~= set_record(key@, value@));
    out
}

/// The record of deleting `key`.
pub fn encode_delete_record(key: &KeyEncoding) -> (r: Vec<u8>)
    ensures
        r@ == delete_record(key@),
{
    let mut out: Vec<u8> = Vec::new();
    out.push(OP_DELETE_V2);
    push_key_blob(&mut out, key);
    assert(out@ =~= delete_record(key@));
    out
}

/// The record of giving `key` the deadline `deadline_ms`.
pub fn encode_expire_record(key: &KeyEncoding, deadline_ms: u64) -> (r: Vec<u8>)
    ensures
        r@ == expire_record(key@, deadline_ms),
{
    let mut out: Vec<u8> = Vec::new();
    out.push(OP_EXPIRE_V2);
    push_key_blob(&mut out, key);
    push_le(&mut out, deadline_ms, 8);
    assert(out@ =~= expire_record(key@, deadline_ms));
    out
}


/// What reading a key blob found.
pub enum BlobHit {
    Cut,
    Bad,
    Found(KeyEncoding, usize),
}

/// Reads the key blob at `p`.
pub fn read_blob_at(bytes: &[u8], p: usize) -> (r: BlobHit)
    requires
        p <= bytes@.len(),
    ensures
        match read_blob(bytes@, p as int) {
            BlobRead::Truncated => r is Cut,
            BlobRead::Invalid => r is Bad,
            BlobRead::Key(k, q) => r matches BlobHit::Found(key, q2) && key@ == k && q2 == q,
        },
{
    if bytes.len() - p < 4 {
        return BlobHit::Cut;
    }
    let n64 = read_le(bytes, p, 4);
    proof {
        lemma_pow256_facts();
        lemma_le_value_bound(bytes@.subrange(p as int, p + 4));
    }
    let n = n64 as usize;
    if bytes.len() - (p + 4) < n {
        return BlobHit::Cut;
    }
    let raw = copy_range(bytes, p + 4, p + 4 + n);
    match KeyEncoding::decode(raw.as_slice()) {
        Some(key) => BlobHit::Found(key, p + 4 + n),
        None => BlobHit::Bad,
    }
}

/// Reads the value (a four-byte length, then the bytes) at `p`.
pub fn read_value_at(bytes: &[u8], p: usize) -> (r: Option<(Vec<u8>, usize)>)
    requires
        p <= bytes@.len(),
    ensures
        match read_value(bytes@, p as int) {
            None => r is None,
            Some((v, next)) => r matches Some((w, m)) && w@ == v && m == next,
        },
{
    if bytes.len() - p < 4 {
        return None;
    }
    let n64 = read_le(bytes, p, 4);
    proof {
        lemma_pow256_facts();
        lemma_le_value_bound(bytes@.subrange(p as int, p + 4));
    }
    let n = n64 as usize;
    if bytes.len() - (p + 4) < n {
        return None;
    }
    Some((copy_range(bytes, p + 4, p + 4 + n), p + 4 + n))
}

/// Replays the log `bytes` onto `tree` and `expires`, record by record. A record cut short
/// at the end (the tail of a crashed write) ends the replay, as does an operation code 0.
/// A key blob that is not a key encoding, or an unknown operation code, is an error; the
/// records before it have then been applied.
pub fn replay_wal_bytes(bytes: &[u8], tree: &mut KvMap, expires: &mut ExpMap) -> (r: Result<
    (),
    ReplayFault,
>)
    requires
        old(tree).wf(),
        old(expires).wf(),
    ensures
        final(tree).wf(),
        final(expires).wf(),
        match replay_from(bytes@, 0, (old(tree)@, old(expires)@)) {
            Ok(st) => r is Ok && final(tree)@ == st.0 && final(expires)@ == st.1,
            Err(f) => r == Err::<(), ReplayFault>(f),
        },
{
    let ghost init: StoreView = (tree@, expires@);
    let mut off: usize = 0;
    loop
        invariant
            off <= bytes@.len(),
            tree.wf(),
            expires.wf(),
            init == (old(tree)@, old(expires)@),
            replay_from(bytes@, 0, init) == replay_from(bytes@, off as int, (tree@, expires@)),
        decreases bytes@.len() - off,
    {
        if off >= bytes.len() {
            return Ok(());
        }
        let ghost st: StoreView = (tree@, expires@);
        let op = bytes[off];
        let p = off + 1;
        if op == OP_SET_V1 || op == OP_DELETE_V1 {
            if bytes.len() - p < 8 {
                return Ok(());
            }
            let key = KeyEncoding::Int(bits_to_i64(read_le(bytes, p, 8)));
            if op == OP_SET_V1 {
                match read_value_at(bytes, p + 8) {
                    None => {
                        return Ok(());
                    },
                    Some((value, next)) => {
                        tree.insert(key.copy(), value);
                        expires.remove(&key);
                        off = next;
                    },
                }
            } else {
                tree.remove(&key);
                expires.remove(&key);
                off = p + 8;
            }
        } else if op == OP_SET_V2 || op == OP_DELETE_V2 || op == OP_EXPIRE_V2 {
            match read_blob_at(bytes, p) {
                BlobHit::Cut => {
                    return Ok(());
                },
                BlobHit::Bad => {
                    return Err(ReplayFault::InvalidKey);
                },
                BlobHit::Found(key, q) => {
                    if op == OP_SET_V2 {
                        match read_value_at(bytes, q) {
                            None => {
                                return Ok(());
                            },
                            Some((value, next)) => {
                                tree.insert(key.copy(), value);
                                expires.remove(&key);
                                off = next;
                            },
                        }
                    } else if op == OP_DELETE_V2 {
                        tree.remove(&key);
                        expires.remove(&key);
                        off = q;
                    } else {
                        if bytes.len() - q < 8 {
                            return Ok(());
                        }
                        let deadline = read_le(bytes, q, 8);
                        if tree.contains_key(&key) {
                            expires.insert(key, deadline);
                        }
                        off = q + 8;
                    }
                },
            }
        } else if op == 0 {
            return Ok(());
        } else {
            return Err(ReplayFault::UnknownOp(op));
        }
    }
}

} // verus!

use vstd::prelude::*;
use crate::assoc_map::map_of;
use crate::byte_order::{
    le_bytes, le_value, lemma_le_bytes_len, lemma_le_value_bound, lemma_le_value_of_bytes,
    lemma_pow256_facts, push_le, read_le,
};
use crate::key_codec::{bits_i64, bits_to_i64, KeyEncoding, KeyModel};
use crate::storage::reconcile::{KvMap, KvView};
use crate::storage::wal_log::{
    key_blob, key_fits, lemma_key_blob_len, push_key_blob, lemma_read_blob, lemma_read_value, read_blob,
    read_blob_at, read_value, read_value_at, deadlines_present, BlobHit, BlobRead, ExpMap, ExpView,
    StoreView,
};
use crate::text::extend_bytes;

verus! {

/// Why a snapshot could not be loaded.
#[derive(Debug, Clone, Copy, PartialEq, Eq, Structural)]
pub enum SnapshotFault {
    /// The file does not start with a snapshot magic.
    BadMagic,
    /// The bytes end inside a field.
    Truncated,
    /// A key blob whose bytes are not a key encoding.
    InvalidKey,
}

/// `ARDBSNAP` followed by the version digit.
pub open spec fn snapshot_magic(digit: u8) -> Seq<u8> {
    seq![65u8, 82u8, 68u8, 66u8, 83u8, 78u8, 65u8, 80u8, digit]
}

/// One stored pair: the key's blob, the value's length in four bytes, the value.
pub open spec fn entry_record(k: KeyModel, v: Seq<u8>) -> Seq<u8> {
    key_blob(k) + le_bytes(v.len(), 4) + v
}

/// One stored deadline: the key's blob, then the deadline in eight bytes.
pub open spec fn ttl_record(k: KeyModel, d: u64) -> Seq<u8> {
    key_blob(k) + le_bytes(d as nat, 8)
}

pub open spec fn entries_bytes(e: Seq<(KeyModel, Seq<u8>)>) -> Seq<u8>
    decreases e.len(),
{
    if e.len() == 0 {
        Seq::empty()
    } else {
        entry_record(e[0].0, e[0].1) + entries_bytes(e.drop_first())
    }
}

pub open spec fn ttls_bytes(t: Seq<(KeyModel, u64)>) -> Seq<u8>
    decreases t.len(),
{
    if t.len() == 0 {
        Seq::empty()
    } else {
        ttl_record(t[0].0, t[0].1) + ttls_bytes(t.drop_first())
    }
}

/// The bytes of a snapshot as it is written (version 3): the magic, the number of pairs and
/// the pairs, then the number of deadlines and the deadlines (counts in eight bytes).
pub open spec fn snapshot_bytes(e: Seq<(KeyModel, Seq<u8>)>, t: Seq<(KeyModel, u64)>) -> Seq<u8> {
    snapshot_magic(51) + le_bytes(e.len(), 8) + entries_bytes(e) + le_bytes(t.len(), 8)
        + ttls_bytes(t)
}

/// The version that a snapshot's first nine bytes announce; 0 for none.
pub open spec fn snapshot_version(b: Seq<u8>) -> int {
    if b.take(9) == snapshot_magic(51) {
        3
    } else if b.take(9) == snapshot_magic(50) {
        2
    } else if b.take(9) == snapshot_magic(49) {
        1
    } else {
        0
    }
}

/// A stored key: an eight-byte integer key in version 1, a key blob after it.
pub open spec fn read_snapshot_key(b: Seq<u8>, off: int, version: int) -> BlobRead {
    if version < 2 {
        if b.len() - off < 8 {
            BlobRead::Truncated
        } else {
            BlobRead::Key(KeyModel::Int(bits_i64(le_value(b.subrange(off, off + 8)))), off + 8)
        }
    } else {
        read_blob(b, off)
    }
}

/// Reads `n` pairs at `off` into `m`, each overwriting what was there.
pub open spec fn load_entries(b: Seq<u8>, off: int, n: nat, version: int, m: KvView) -> Result<
    (KvView, int),
    SnapshotFault,
>
    decreases n,
{
    if n == 0 {
        Ok((m, off))
    } else {
        match read_snapshot_key(b, off, version) {
            BlobRead::Truncated => Err(SnapshotFault::Truncated),
            BlobRead::Invalid => Err(SnapshotFault::InvalidKey),
            BlobRead::Key(k, q) => match read_value(b, q) {
                None => Err(SnapshotFault::Truncated),
                Some((v, next)) => load_entries(b, next, (n - 1) as nat, version, m.insert(k, v)),
            },
        }
    }
}

/// A deadline is kept only for a key that the loaded pairs hold.
pub open spec fn ttl_step(m: KvView, x: ExpView, k: KeyModel, d: u64) -> ExpView {
    if m.contains_key(k) {
        x.insert(k, d)
    } else {
        x
    }
}

/// Reads `n` deadlines at `off` into `x`.
pub open spec fn load_ttls(b: Seq<u8>, off: int, n: nat, m: KvView, x: ExpView) -> Result<
    ExpView,
    SnapshotFault,
>
    decreases n,
{
    if n == 0 {
        Ok(x)
    } else {
        match read_blob(b, off) {
            BlobRead::Truncated => Err(SnapshotFault::Truncated),
            BlobRead::Invalid => Err(SnapshotFault::InvalidKey),
            BlobRead::Key(k, q) => if b.len() - q < 8 {
                Err(SnapshotFault::Truncated)
            } else {
                load_ttls(
                    b,
                    q + 8,
                    (n - 1) as nat,
                    m,
                    ttl_step(m, x, k, le_value(b.subrange(q, q + 8)) as u64),
                )
            },
        }
    }
}

/// Loading the snapshot `b` onto the state `st`. Versions 1 and 2 hold no deadlines.
pub open spec fn load_snapshot(b: Seq<u8>, st: StoreView) -> Result<StoreView, SnapshotFault> {
    if b.len() < 9 {
        Err(SnapshotFault::Truncated)
    } else if snapshot_version(b) == 0 {
        Err(SnapshotFault::BadMagic)
    } else if b.len() < 17 {
        Err(SnapshotFault::Truncated)
    } else {
        let version = snapshot_version(b);
        match load_entries(b, 17, le_value(b.subrange(9, 17)), version, st.0) {
            Err(f) => Err(f),
            Ok((m, off)) => if version < 3 {
                Ok((m, st.1))
            } else if b.len() - off < 8 {
                Err(SnapshotFault::Truncated)
            } else {
                match load_ttls(b, off + 8, le_value(b.subrange(off, off + 8)), m, st.1) {
                    Ok(x) => Ok((m, x)),
                    Err(f) => Err(f),
                }
            },
        }
    }
}

/// Loading pairs only adds keys.
proof fn lemma_load_entries_grows(b: Seq<u8>, off: int, n: nat, version: int, m: KvView)
    ensures
        load_entries(b, off, n, version, m) matches Ok((m2, _)) ==> m.dom().subset_of(m2.dom()),
    decreases n,
{
    if n > 0 {
        match read_snapshot_key(b, off, version) {
            BlobRead::Key(k, q) => match read_value(b, q) {
                Some((v, next)) => {
                    lemma_load_entries_grows(b, next, (n - 1) as nat, version, m.insert(k, v));
                },
                None => {},
            },
            _ => {},
        }
    }
}

/// Loading deadlines only adds keys that `m` holds.
proof fn lemma_load_ttls_present(b: Seq<u8>, off: int, n: nat, m: KvView, x: ExpView)
    requires
        x.dom().subset_of(m.dom()),
    ensures
        load_ttls(b, off, n, m, x) matches Ok(x2) ==> x2.dom().subset_of(m.dom()),
    decreases n,
{
    if n > 0 {
        match read_blob(b, off) {
            BlobRead::Key(k, q) => if b.len() - q >= 8 {
                lemma_load_ttls_present(
                    b,
                    q + 8,
                    (n - 1) as nat,
                    m,
                    ttl_step(m, x, k, le_value(b.subrange(q, q + 8)) as u64),
                );
            },
            _ => {},
        }
    }
}

/// A loaded snapshot keeps deadlines on present keys only.
pub proof fn lemma_load_keeps_deadlines_present(b: Seq<u8>, st: StoreView)
    requires
        deadlines_present(st),
    ensures
        load_snapshot(b, st) matches Ok(s2) ==> deadlines_present(s2),
{
    if b.len() >= 17 && snapshot_version(b) != 0 {
        let version = snapshot_version(b);
        lemma_load_entries_grows(b, 17, le_value(b.subrange(9, 17)), version, st.0);
        match load_entries(b, 17, le_value(b.subrange(9, 17)), version, st.0) {
            Ok((m, off)) => {
                if version >= 3 && b.len() - off >= 8 {
                    lemma_load_ttls_present(b, off + 8, le_value(b.subrange(off, off + 8)), m, st.1);
                }
            },
            Err(_) => {},
        }
    }
}

/// The pairs written, in order, overwriting `m`.
pub open spec fn put_all(m: KvView, e: Seq<(KeyModel, Seq<u8>)>) -> KvView
    decreases e.len(),
{
    if e.len() == 0 {
        m
    } else {
        put_all(m.insert(e[0].0, e[0].1), e.drop_first())
    }
}

/// The deadlines written, in order, kept for the keys of `m`.
pub open spec fn ttl_all(m: KvView, x: ExpView, t: Seq<(KeyModel, u64)>) -> ExpView
    decreases t.len(),
{
    if t.len() == 0 {
        x
    } else {
        ttl_all(m, ttl_step(m, x, t[0].0, t[0].1), t.drop_first())
    }
}

/// Pairs small enough to be written: each key fits a blob and each value a four-byte length.
pub open spec fn entries_fit(e: Seq<(KeyModel, Seq<u8>)>) -> bool {
    forall|i: int| 0 <= i < e.len() ==> key_fits((#[trigger] e[i]).0) && e[i].1.len() < 0x1_0000_0000
}

pub open spec fn ttls_fit(t: Seq<(KeyModel, u64)>) -> bool {
    forall|i: int| 0 <= i < t.len() ==> key_fits((#[trigger] t[i]).0)
}

proof fn lemma_window(b: Seq<u8>, off: int, r: Seq<u8>, i: int, j: int)
    requires
        0 <= off,
        off + r.len() <= b.len(),
        b.subrange(off, off + r.len()) == r,
        0 <= i <= j <= r.len(),
    ensures
        b.subrange(off + i, off + j) == r.subrange(i, j),
{
    assert forall|t: int| 0 <= t < j - i implies b.subrange(off + i, off + j)[t] == r.subrange(
        i,
        j,
    )[t] by {
        assert(b.subrange(off, off + r.len())[i + t] == r[i + t]);
    }
    assert(b.subrange(off + i, off + j) =~= r.subrange(i, j));
}

/// Reading back the bytes of written pairs applies them in order.
proof fn lemma_load_entries_bytes(b: Seq<u8>, off: int, e: Seq<(KeyModel, Seq<u8>)>, m: KvView)
    requires
        entries_fit(e),
        0 <= off,
        off + entries_bytes(e).len() <= b.len(),
        b.subrange(off, off + entries_bytes(e).len()) == entries_bytes(e),
    ensures
        load_entries(b, off, e.len(), 3, m) == Ok::<_, SnapshotFault>(
            (put_all(m, e), off + entries_bytes(e).len()),
        ),
    decreases e.len(),
{
    if e.len() == 0 {
        assert(entries_bytes(e) =~= Seq::<u8>::empty());
    } else {
        let (k, v) = e[0];
        let rest = e.drop_first();
        let rec = entry_record(k, v);
        let blob = key_blob(k);
        let whole = entries_bytes(e);
        lemma_key_blob_len(k);
        lemma_le_bytes_len(v.len(), 4);
        assert(whole =~= rec + entries_bytes(rest));
        lemma_window(b, off, whole, 0, blob.len() as int);
        assert(whole.subrange(0, blob.len() as int) =~= blob);
        lemma_read_blob(b, off, k);
        let q = off + blob.len();
        lemma_window(b, off, whole, blob.len() as int, rec.len() as int);
        assert(whole.subrange(blob.len() as int, rec.len() as int) =~= le_bytes(v.len(), 4) + v);
        lemma_read_value(b, q, v);
        let next = off + rec.len();
        lemma_window(b, off, whole, rec.len() as int, whole.len() as int);
        assert(whole.subrange(rec.len() as int, whole.len() as int) =~= entries_bytes(rest));
        assert forall|i: int| 0 <= i < rest.len() implies key_fits((#[trigger] rest[i]).0)
            && rest[i].1.len() < 0x1_0000_0000 by {
            assert(rest[i] == e[i + 1]);
        }
        lemma_load_entries_bytes(b, next, rest, m.insert(k, v));
    }
}

/// Reading back the bytes of written deadlines applies them in order.
proof fn lemma_load_ttls_bytes(b: Seq<u8>, off: int, t: Seq<(KeyModel, u64)>, m: KvView, x: ExpView)
    requires
        ttls_fit(t),
        0 <= off,
        off + ttls_bytes(t).len() <= b.len(),
        b.subrange(off, off + ttls_bytes(t).len()) == ttls_bytes(t),
    ensures
        load_ttls(b, off, t.len(), m, x) == Ok::<_, SnapshotFault>(ttl_all(m, x, t)),
    decreases t.len(),
{
    if t.len() > 0 {
        lemma_pow256_facts();
        let (k, d) = t[0];
        let rest = t.drop_first();
        let rec = ttl_record(k, d);
        let blob = key_blob(k);
        let whole = ttls_bytes(t);
        lemma_key_blob_len(k);
        lemma_le_bytes_len(d as nat, 8);
        assert(whole =~= rec + ttls_bytes(rest));
        lemma_window(b, off, whole, 0, blob.len() as int);
        assert(whole.subrange(0, blob.len() as int) =~= blob);
        lemma_read_blob(b, off, k);
        let q = off + blob.len();
        lemma_window(b, off, whole, blob.len() as int, rec.len() as int);
        assert(whole.subrange(blob.len() as int, rec.len() as int) =~= le_bytes(d as nat, 8));
        lemma_le_value_of_bytes(d as nat, 8);
        lemma_window(b, off, whole, rec.len() as int, whole.len() as int);
        assert(whole.subrange(rec.len() as int, whole.len() as int) =~= ttls_bytes(rest));
        assert forall|i: int| 0 <= i < rest.len() implies key_fits((#[trigger] rest[i]).0) by {
            assert(rest[i] == t[i + 1]);
        }
        lemma_load_ttls_bytes(b, off + rec.len(), rest, m, ttl_step(m, x, k, d));
    }
}

/// Loading what a snapshot of pairs `e` and deadlines `t` holds, onto any state, writes the
/// pairs in order and then keeps each deadline whose key the loaded pairs hold.
pub proof fn lemma_snapshot_roundtrip(
    e: Seq<(KeyModel, Seq<u8>)>,
    t: Seq<(KeyModel, u64)>,
    st: StoreView,
)
    requires
        entries_fit(e),
        ttls_fit(t),
        e.len() < 0x1_0000_0000_0000_0000,
        t.len() < 0x1_0000_0000_0000_0000,
    ensures
        load_snapshot(snapshot_bytes(e, t), st) == Ok::<_, SnapshotFault>(
            (put_all(st.0, e), ttl_all(put_all(st.0, e), st.1, t)),
        ),
{
    lemma_pow256_facts();
    let b = snapshot_bytes(e, t);
    let eb = entries_bytes(e);
    let tb = ttls_bytes(t);
    let ce = le_bytes(e.len(), 8);
    let ct = le_bytes(t.len(), 8);
    lemma_le_bytes_len(e.len(), 8);
    lemma_le_bytes_len(t.len(), 8);
    assert(b =~= snapshot_magic(51) + (ce + (eb + (ct + tb))));
    assert(b.take(9) =~= snapshot_magic(51));
    assert(b.subrange(9, 17) =~= ce);
    lemma_le_value_of_bytes(e.len(), 8);
    assert(b.subrange(17, 17 + eb.len() as int) =~= eb);
    lemma_load_entries_bytes(b, 17, e, st.0);
    let off: int = 17 + eb.len() as int;
    assert(b.subrange(off, off + 8) =~= ct);
    lemma_le_value_of_bytes(t.len(), 8);
    assert(b.subrange(off + 8, off + 8 + tb.len() as int) =~= tb);
    lemma_load_ttls_bytes(b, off + 8, t, put_all(st.0, e), st.1);
}


/// The values of the stored pairs of a map.
pub open spec fn entry_views(s: Seq<(KeyEncoding, Vec<u8>)>) -> Seq<(KeyModel, Seq<u8>)> {
    Seq::new(s.len(), |i: int| (s[i].0@, s[i].1@))
}

/// The values of the deadline pairs of a map.
pub open spec fn ttl_views(s: Seq<(KeyEncoding, u64)>) -> Seq<(KeyModel, u64)> {
    Seq::new(s.len(), |i: int| (s[i].0@, s[i].1))
}

/// The deadlines whose keys `m` holds, in order.
pub open spec fn live_ttls(t: Seq<(KeyModel, u64)>, m: KvView) -> Seq<(KeyModel, u64)>
    decreases t.len(),
{
    if t.len() == 0 {
        Seq::empty()
    } else {
        let r = live_ttls(t.drop_last(), m);
        if m.contains_key(t.last().0) {
            r.push(t.last())
        } else {
            r
        }
    }
}

/// The map of deadline pairs, later pairs winning.
pub open spec fn ttl_map(t: Seq<(KeyModel, u64)>) -> ExpView
    decreases t.len(),
{
    if t.len() == 0 {
        Map::empty()
    } else {
        ttl_map(t.drop_last()).insert(t.last().0, t.last().1)
    }
}

/// The bytes of the snapshot of `tree` and `expires`: every pair of `tree`, and the
/// deadlines of the keys that `tree` holds.
pub open spec fn snapshot_of(tree: KvMap, expires: ExpMap) -> Seq<u8> {
    snapshot_bytes(entry_views(tree.pairs()), live_ttls(ttl_views(expires.pairs()), tree@))
}

proof fn lemma_entries_bytes_push(e: Seq<(KeyModel, Seq<u8>)>, p: (KeyModel, Seq<u8>))
    ensures
        entries_bytes(e.push(p)) == entries_bytes(e) + entry_record(p.0, p.1),
    decreases e.len(),
{
    if e.len() == 0 {
        assert(e.push(p).drop_first() =~= e);
        assert(entries_bytes(e.push(p)) =~= entries_bytes(e) + entry_record(p.0, p.1));
    } else {
        lemma_entries_bytes_push(e.drop_first(), p);
        assert(e.push(p).drop_first() =~= e.drop_first().push(p));
        assert(entries_bytes(e.push(p)) =~= entries_bytes(e) + entry_record(p.0, p.1));
    }
}

proof fn lemma_ttls_bytes_push(t: Seq<(KeyModel, u64)>, p: (KeyModel, u64))
    ensures
        ttls_bytes(t.push(p)) == ttls_bytes(t) + ttl_record(p.0, p.1),
    decreases t.len(),
{
    if t.len() == 0 {
        assert(t.push(p).drop_first() =~= t);
        assert(ttls_bytes(t.push(p)) =~= ttls_bytes(t) + ttl_record(p.0, p.1));
    } else {
        lemma_ttls_bytes_push(t.drop_first(), p);
        assert(t.push(p).drop_first() =~= t.drop_first().push(p));
        assert(ttls_bytes(t.push(p)) =~= ttls_bytes(t) + ttl_record(p.0, p.1));
    }
}

proof fn lemma_put_all_push(m: KvView, e: Seq<(KeyModel, Seq<u8>)>, p: (KeyModel, Seq<u8>))
    ensures
        put_all(m, e.push(p)) == put_all(m, e).insert(p.0, p.1),
    decreases e.len(),
{
    if e.len() == 0 {
        assert(e.push(p).drop_first() =~= e);
        assert(e.push(p)[0] == p);
        assert(put_all(m.insert(p.0, p.1), e) == m.insert(p.0, p.1));
    } else {
        lemma_put_all_push(m.insert(e[0].0, e[0].1), e.drop_first(), p);
        assert(e.push(p).drop_first() =~= e.drop_first().push(p));
        assert(e.push(p)[0] == e[0]);
    }
}

proof fn lemma_ttl_all_push(m: KvView, x: ExpView, t: Seq<(KeyModel, u64)>, p: (KeyModel, u64))
    ensures
        ttl_all(m, x, t.push(p)) == ttl_step(m, ttl_all(m, x, t), p.0, p.1),
    decreases t.len(),
{
    if t.len() == 0 {
        assert(t.push(p).drop_first() =~= t);
        assert(t.push(p)[0] == p);
        assert(ttl_all(m, ttl_step(m, x, p.0, p.1), t) == ttl_step(m, x, p.0, p.1));
    } else {
        lemma_ttl_all_push(m, ttl_step(m, x, t[0].0, t[0].1), t.drop_first(), p);
        assert(t.push(p).drop_first() =~= t.drop_first().push(p));
        assert(t.push(p)[0] == t[0]);
    }
}

/// Writing the pairs of a map in order onto nothing gives the map.
proof fn lemma_put_all_map_of(s: Seq<(KeyEncoding, Vec<u8>)>)
    ensures
        put_all(Map::empty(), entry_views(s)) == map_of(s),
    decreases s.len(),
{
    if s.len() > 0 {
        lemma_put_all_map_of(s.drop_last());
        assert(entry_views(s) =~= entry_views(s.drop_last()).push((s.last().0@, s.last().1@)));
        lemma_put_all_push(
            Map::empty(),
            entry_views(s.drop_last()),
            (s.last().0@, s.last().1@),
        );
    }
}

proof fn lemma_ttl_map_of(s: Seq<(KeyEncoding, u64)>)
    ensures
        ttl_map(ttl_views(s)) == map_of(s),
    decreases s.len(),
{
    if s.len() > 0 {
        lemma_ttl_map_of(s.drop_last());
        assert(ttl_views(s).drop_last() =~= ttl_views(s.drop_last()));
    }
}

/// Keeping the deadlines of the keys of `m` and loading them gives the deadlines of
/// those keys.
proof fn lemma_live_ttls_load(t: Seq<(KeyModel, u64)>, m: KvView)
    ensures
        ttl_all(m, Map::empty(), live_ttls(t, m)) == ttl_map(t).restrict(m.dom()),
        live_ttls(t, m).len() <= t.len(),
        forall|i: int| 0 <= i < live_ttls(t, m).len() ==> exists|j: int|
            0 <= j < t.len() && #[trigger] live_ttls(t, m)[i] == t[j],
    decreases t.len(),
{
    if t.len() == 0 {
        assert(ttl_map(t).restrict(m.dom()) =~= Map::empty());
    } else {
        let u = t.drop_last();
        let p = t.last();
        lemma_live_ttls_load(u, m);
        let lu = live_ttls(u, m);
        if m.contains_key(p.0) {
            lemma_ttl_all_push(m, Map::empty(), lu, p);
            assert(ttl_map(u).restrict(m.dom()).insert(p.0, p.1) =~= ttl_map(t).restrict(m.dom()));
            assert forall|i: int| 0 <= i < live_ttls(t, m).len() implies exists|j: int|
                0 <= j < t.len() && #[trigger] live_ttls(t, m)[i] == t[j] by {
                if i < lu.len() {
                    let j = choose|j: int| 0 <= j < u.len() && lu[i] == u[j];
                    assert(t[j] == u[j]);
                } else {
                    assert(live_ttls(t, m)[i] == t[t.len() - 1]);
                }
            }
        } else {
            assert(ttl_map(u).restrict(m.dom()) =~= ttl_map(t).restrict(m.dom()));
            assert forall|i: int| 0 <= i < live_ttls(t, m).len() implies exists|j: int|
                0 <= j < t.len() && #[trigger] live_ttls(t, m)[i] == t[j] by {
                let j = choose|j: int| 0 <= j < u.len() && lu[i] == u[j];
                assert(t[j] == u[j]);
            }
        }
    }
}

/// A snapshot of a map and its deadlines, loaded onto an empty state, gives back the map
/// and the deadlines of the keys it holds.
pub proof fn lemma_snapshot_restores(tree: KvMap, expires: ExpMap)
    requires
        tree.wf(),
        expires.wf(),
        forall|i: int|
            0 <= i < tree.pairs().len() ==> key_fits((#[trigger] tree.pairs()[i]).0@)
                && tree.pairs()[i].1@.len() < 0x1_0000_0000,
        forall|i: int| 0 <= i < expires.pairs().len() ==> key_fits((#[trigger] expires.pairs()[i]).0@),
        tree.pairs().len() < 0x1_0000_0000_0000_0000,
        expires.pairs().len() < 0x1_0000_0000_0000_0000,
    ensures
        load_snapshot(snapshot_of(tree, expires), (Map::empty(), Map::empty())) == Ok::<
            _,
            SnapshotFault,
        >((tree@, expires@.restrict(tree@.dom()))),
{
    let e = entry_views(tree.pairs());
    let tv = ttl_views(expires.pairs());
    let t = live_ttls(tv, tree@);
    lemma_live_ttls_load(tv, tree@);
    assert(entries_fit(e)) by {
        assert forall|i: int| 0 <= i < e.len() implies key_fits((#[trigger] e[i]).0)
            && e[i].1.len() < 0x1_0000_0000 by {
            assert(e[i] == (tree.pairs()[i].0@, tree.pairs()[i].1@));
        }
    }
    assert(ttls_fit(t)) by {
        assert forall|i: int| 0 <= i < t.len() implies key_fits((#[trigger] t[i]).0) by {
            let j = choose|j: int| 0 <= j < tv.len() && t[i] == tv[j];
            assert(tv[j] == (expires.pairs()[j].0@, expires.pairs()[j].1));
        }
    }
    lemma_snapshot_roundtrip(e, t, (Map::empty(), Map::empty()));
    lemma_put_all_map_of(tree.pairs());
    lemma_ttl_map_of(expires.pairs());
}

/// Whether the first nine bytes are a snapshot magic, and which version.
fn read_snapshot_version(bytes: &[u8]) -> (v: u8)
    requires
        bytes@.len() >= 9,
    ensures
        v as int == snapshot_version(bytes@),
{
    let b = bytes;
    let ghost t = bytes@.take(9);
    if b[0] == 65u8 && b[1] == 82u8 && b[2] == 68u8 && b[3] == 66u8 && b[4] == 83u8 && b[5] == 78u8
        && b[6] == 65u8 && b[7] == 80u8 {
        let d = b[8];
        proof {
            assert(t =~= snapshot_magic(d));
        }
        if d == 51u8 {
            3
        } else if d == 50u8 {
            proof {
                assert(t[8] != snapshot_magic(51)[8]);
            }
            2
        } else if d == 49u8 {
            proof {
                assert(t[8] != snapshot_magic(51)[8]);
                assert(t[8] != snapshot_magic(50)[8]);
            }
            1
        } else {
            proof {
                assert(t[8] != snapshot_magic(51)[8]);
                assert(t[8] != snapshot_magic(50)[8]);
                assert(t[8] != snapshot_magic(49)[8]);
            }
            0
        }
    } else {
        proof {
            let j: int = if b[0] != 65u8 {
                0
            } else if b[1] != 82u8 {
                1
            } else if b[2] != 68u8 {
                2
            } else if b[3] != 66u8 {
                3
            } else if b[4] != 83u8 {
                4
            } else if b[5] != 78u8 {
                5
            } else if b[6] != 65u8 {
                6
            } else {
                7
            };
            assert(t[j] != snapshot_magic(51)[j]);
            assert(t[j] != snapshot_magic(50)[j]);
            assert(t[j] != snapshot_magic(49)[j]);
        }
        0
    }
}

/// Reads a stored key at `p`.
fn read_snapshot_key_at(bytes: &[u8], p: usize, version: u8) -> (r: BlobHit)
    requires
        p <= bytes@.len(),
    ensures
        match read_snapshot_key(bytes@, p as int, version as int) {
            BlobRead::Truncated => r is Cut,
            BlobRead::Invalid => r is Bad,
            BlobRead::Key(k, q) => r matches BlobHit::Found(key, q2) && key@ == k && q2 == q,
        },
{
    if version < 2 {
        if bytes.len() - p < 8 {
            BlobHit::Cut
        } else {
            BlobHit::Found(KeyEncoding::Int(bits_to_i64(read_le(bytes, p, 8))), p + 8)
        }
    } else {
        read_blob_at(bytes, p)
    }
}

fn load_entries_at(bytes: &[u8], off: usize, n: u64, version: u8, tree: &mut KvMap) -> (r: Result<
    usize,
    SnapshotFault,
>)
    requires
        off <= bytes@.len(),
        old(tree).wf(),
    ensures
        final(tree).wf(),
        match load_entries(bytes@, off as int, n as nat, version as int, old(tree)@) {
            Ok((m, o)) => r matches Ok(o2) && o2 == o && final(tree)@ == m,
            Err(f) => r == Err::<usize, SnapshotFault>(f),
        },
        r matches Ok(o) ==> o <= bytes@.len(),
{
    let ghost goal = load_entries(bytes@, off as int, n as nat, version as int, tree@);
    let mut pos = off;
    let mut left = n;
    while left > 0
        invariant
            pos <= bytes@.len(),
            tree.wf(),
            goal == load_entries(bytes@, off as int, n as nat, version as int, old(tree)@),
            goal == load_entries(bytes@, pos as int, left as nat, version as int, tree@),
        decreases left,
    {
        match read_snapshot_key_at(bytes, pos, version) {
            BlobHit::Cut => {
                return Err(SnapshotFault::Truncated);
            },
            BlobHit::Bad => {
                return Err(SnapshotFault::InvalidKey);
            },
            BlobHit::Found(key, q) => {
                match read_value_at(bytes, q) {
                    None => {
                        return Err(SnapshotFault::Truncated);
                    },
                    Some((value, next)) => {
                        tree.insert(key, value);
                        pos = next;
                        left = left - 1;
                    },
                }
            },
        }
    }
    Ok(pos)
}

fn load_ttls_at(bytes: &[u8], off: usize, n: u64, tree: &KvMap, expires: &mut ExpMap) -> (r: Result<
    (),
    SnapshotFault,
>)
    requires
        off <= bytes@.len(),
        tree.wf(),
        old(expires).wf(),
    ensures
        final(expires).wf(),
        match load_ttls(bytes@, off as int, n as nat, tree@, old(expires)@) {
            Ok(x) => r is Ok && final(expires)@ == x,
            Err(f) => r == Err::<(), SnapshotFault>(f),
        },
{
    let ghost goal = load_ttls(bytes@, off as int, n as nat, tree@, expires@);
    let mut pos = off;
    let mut left = n;
    while left > 0
        invariant
            pos <= bytes@.len(),
            tree.wf(),
            expires.wf(),
            goal == load_ttls(bytes@, off as int, n as nat, tree@, old(expires)@),
            goal == load_ttls(bytes@, pos as int, left as nat, tree@, expires@),
        decreases left,
    {
        match read_blob_at(bytes, pos) {
            BlobHit::Cut => {
                return Err(SnapshotFault::Truncated);
            },
            BlobHit::Bad => {
                return Err(SnapshotFault::InvalidKey);
            },
            BlobHit::Found(key, q) => {
                if bytes.len() - q < 8 {
                    return Err(SnapshotFault::Truncated);
                }
                let deadline = read_le(bytes, q, 8);
                if tree.contains_key(&key) {
                    expires.insert(key, deadline);
                }
                pos = q + 8;
                left = left - 1;
            },
        }
    }
    Ok(())
}

/// Loads the snapshot `bytes` onto `tree` and `expires` (see `load_snapshot`). On an error
/// the pairs read before it stay applied.
pub fn load_snapshot_bytes(bytes: &[u8], tree: &mut KvMap, expires: &mut ExpMap) -> (r: Result<
    (),
    SnapshotFault,
>)
    requires
        old(tree).wf(),
        old(expires).wf(),
    ensures
        final(tree).wf(),
        final(expires).wf(),
        match load_snapshot(bytes@, (old(tree)@, old(expires)@)) {
            Ok(st) => r is Ok && final(tree)@ == st.0 && final(expires)@ == st.1,
            Err(f) => r == Err::<(), SnapshotFault>(f),
        },
{
    if bytes.len() < 9 {
        return Err(SnapshotFault::Truncated);
    }
    let version = read_snapshot_version(bytes);
    if version == 0 {
        return Err(SnapshotFault::BadMagic);
    }
    if bytes.len() < 17 {
        return Err(SnapshotFault::Truncated);
    }
    let count = read_le(bytes, 9, 8);
    let off = match load_entries_at(bytes, 17, count, version, tree) {
        Ok(o) => o,
        Err(f) => {
            return Err(f);
        },
    };
    if version < 3 {
        return Ok(());
    }
    if bytes.len() - off < 8 {
        return Err(SnapshotFault::Truncated);
    }
    let ttl_count = read_le(bytes, off, 8);
    load_ttls_at(bytes, off + 8, ttl_count, tree, expires)
}

/// The snapshot of `tree` and `expires` (see `snapshot_of`).
pub fn encode_snapshot(tree: &KvMap, expires: &ExpMap) -> (r: Vec<u8>)
    requires
        tree.wf(),
        expires.wf(),
    ensures
        r@ == snapshot_of(*tree, *expires),
{
    let mut out: Vec<u8> = Vec::new();
    out.push(65u8);
    out.push(82u8);
    out.push(68u8);
    out.push(66u8);
    out.push(83u8);
    out.push(78u8);
    out.push(65u8);
    out.push(80u8);
    out.push(51u8);
    let pairs = tree.as_pairs();
    push_le(&mut out, pairs.len() as u64, 8);
    let ghost head = out@;
    let ghost ev = entry_views(pairs@);
    let mut i: usize = 0;
    while i < pairs.len()
        invariant
            i <= pairs@.len(),
            ev == entry_views(pairs@),
            out@ == head + entries_bytes(ev.take(i as int)),
        decreases pairs@.len() - i,
    {
        let (k, v) = &pairs[i];
        push_key_blob(&mut out, k);
        push_le(&mut out, v.len() as u64, 4);
        extend_bytes(&mut out, v.as_slice());
        proof {
            assert(ev.take(i + 1) =~= ev.take(i as int).push(ev[i as int]));
            lemma_entries_bytes_push(ev.take(i as int), ev[i as int]);
        }
        i = i + 1;
    }
    proof {
        assert(ev.take(pairs@.len() as int) =~= ev);
    }
    let eps = expires.as_pairs();
    let ghost tv = ttl_views(eps@);
    let mut live: u64 = 0;
    let mut j: usize = 0;
    proof {
        lemma_live_ttls_load(tv, tree@);
    }
    while j < eps.len()
        invariant
            j <= eps@.len(),
            tree.wf(),
            tv == ttl_views(eps@),
            live <= j,
            live as int == live_ttls(tv.take(j as int), tree@).len(),
        decreases eps@.len() - j,
    {
        proof {
            assert(tv.take(j + 1).drop_last() =~= tv.take(j as int));
            lemma_live_ttls_load(tv.take(j + 1), tree@);
        }
        if tree.contains_key(&eps[j].0) {
            live = live + 1;
        }
        j = j + 1;
    }
    proof {
        assert(tv.take(eps@.len() as int) =~= tv);
    }
    push_le(&mut out, live, 8);
    let ghost head2 = out@;
    let mut j: usize = 0;
    while j < eps.len()
        invariant
            j <= eps@.len(),
            tree.wf(),
            tv == ttl_views(eps@),
            out@ == head2 + ttls_bytes(live_ttls(tv.take(j as int), tree@)),
        decreases eps@.len() - j,
    {
        let (k, d) = &eps[j];
        proof {
            assert(tv.take(j + 1).drop_last() =~= tv.take(j as int));
            assert(tv[j as int] == (k@, *d));
        }
        if tree.contains_key(k) {
            push_key_blob(&mut out, k);
            push_le(&mut out, *d, 8);
            proof {
                lemma_ttls_bytes_push(live_ttls(tv.take(j as int), tree@), (k@, *d));
            }
        }
        j = j + 1;
    }
    proof {
        assert(tv.take(eps@.len() as int) =~= tv);
        assert(out@ =~= snapshot_of(*tree, *expires));
    }
    out
}

} // verus!

use vstd::prelude::*;
use crate::assoc_map::{distinct_keys, lemma_map_of, map_of};
use crate::key_codec::{KeyEncoding, KeyModel};
use crate::key_order::{compare_keys, key_le, key_order, KeyOrder};
use crate::storage::reconcile::{keys_sorted, lemma_insert_keeps_sorted};
use crate::decimal::{nat_digits, u64_to_string};
use vstd::utf8::*;
use crate::storage::io_failure::{io_error, IoFailure};
use crate::text::{copy_range, prefixed};
use crate::storage::reconcile::{KvMap, KvView};
use crate::storage::snapshot::{
    encode_snapshot, lemma_load_keeps_deadlines_present, lemma_snapshot_restores, load_snapshot, load_snapshot_bytes,
    snapshot_of, SnapshotFault,
};
use crate::storage::wal_log::{
    deadlines_present, delete_model, delete_record, encode_delete_record, set_model, lemma_replay_keeps_deadlines_present, encode_expire_record, encode_set_record, expire_record,
    replay_from, replay_wal_bytes, set_record, ExpMap, ExpView, ReplayFault, StoreView, key_fits,
    apply_ops, lemma_replay_ops, lemma_replay_ops_torn, op_fits, op_record, ops_records, WalOp, OP_EXPIRE_V2,
};
use crate::storage::{zero_stats, EngineStats, SyncPolicy, TtlState};

verus! {

/// One more, wrapping at the top as a release build does.
pub open spec fn bump(x: u64) -> u64 {
    if x == u64::MAX {
        0
    } else {
        (x + 1) as u64
    }
}

pub fn bump_exec(x: u64) -> (r: u64)
    ensures
        r == bump(x),
{
    x.wrapping_add(1)
}

/// The keys whose deadline has passed at `now`.
pub open spec fn expired_keys(x: ExpView, now: u64) -> Set<KeyModel> {
    Set::new(|k: KeyModel| x.contains_key(k) && now >= x[k])
}

/// The state without the keys whose deadline has passed.
pub open spec fn purge_view(st: StoreView, now: u64) -> StoreView {
    (st.0.remove_keys(expired_keys(st.1, now)), st.1.remove_keys(expired_keys(st.1, now)))
}

/// The state without `k` if its deadline has passed.
pub open spec fn purge_key_view(st: StoreView, k: KeyModel, now: u64) -> StoreView {
    if st.1.contains_key(k) && now >= st.1[k] {
        (st.0.remove(k), st.1.remove(k))
    } else {
        st
    }
}

/// A deadline `seconds` from `now`, in milliseconds, saturating.
pub open spec fn deadline_after(now: u64, seconds: u64) -> u64 {
    let ms = if seconds * 1000 > u64::MAX {
        u64::MAX as int
    } else {
        seconds * 1000
    };
    if now + ms > u64::MAX {
        u64::MAX
    } else {
        (now + ms) as u64
    }
}

/// What a key's time to live is, in a state that has been purged at `now`.
pub open spec fn ttl_view(st: StoreView, k: KeyModel, now: u64) -> TtlState {
    if !st.0.contains_key(k) {
        TtlState::NotFound
    } else if !st.1.contains_key(k) {
        TtlState::NoExpire
    } else if st.1[k] <= now {
        TtlState::NotFound
    } else {
        TtlState::Seconds(((st.1[k] - now) / 1000) as i64)
    }
}

/// Why a store could not be restored from its files.
#[derive(Debug, Clone, Copy, PartialEq, Eq, Structural)]
pub enum RestoreFault {
    Snapshot(SnapshotFault),
    Wal(ReplayFault),
}

/// The kind of the error that opening a store reports for `fault`: a cut-off snapshot is an
/// unexpected end of file, any other fault invalid data.
pub open spec fn restore_fault_kind(fault: RestoreFault) -> IoFailure {
    match fault {
        RestoreFault::Snapshot(SnapshotFault::Truncated) => IoFailure::UnexpectedEof,
        _ => IoFailure::InvalidData,
    }
}

/// The message of the error that opening a store reports for `fault`, as reading the files
/// reports it.
pub open spec fn restore_fault_text(fault: RestoreFault) -> Seq<char> {
    match fault {
        RestoreFault::Snapshot(SnapshotFault::BadMagic) => "invalid snapshot magic"@,
        RestoreFault::Snapshot(SnapshotFault::Truncated) => "failed to fill whole buffer"@,
        RestoreFault::Snapshot(SnapshotFault::InvalidKey) => "invalid encoded key in snapshot"@,
        RestoreFault::Wal(ReplayFault::InvalidKey) => "invalid encoded key in wal/snapshot"@,
        RestoreFault::Wal(ReplayFault::UnknownOp(op)) => "unknown wal op code: "@ + decode_utf8(
            nat_digits(op as nat),
        ),
    }
}

/// The kind and message of the error that opening a store reports for `fault`.
pub fn restore_fault_parts(fault: RestoreFault) -> (r: (IoFailure, String))
    ensures
        r.0 == restore_fault_kind(fault),
        r.1@ == restore_fault_text(fault),
{
    match fault {
        RestoreFault::Snapshot(SnapshotFault::BadMagic) => (
            IoFailure::InvalidData,
            "invalid snapshot magic".to_owned(),
        ),
        RestoreFault::Snapshot(SnapshotFault::Truncated) => (
            IoFailure::UnexpectedEof,
            "failed to fill whole buffer".to_owned(),
        ),
        RestoreFault::Snapshot(SnapshotFault::InvalidKey) => (
            IoFailure::InvalidData,
            "invalid encoded key in snapshot".to_owned(),
        ),
        RestoreFault::Wal(ReplayFault::InvalidKey) => (
            IoFailure::InvalidData,
            "invalid encoded key in wal/snapshot".to_owned(),
        ),
        RestoreFault::Wal(ReplayFault::UnknownOp(op)) => {
            let code = u64_to_string(op as u64);
            proof {
                encode_utf8_decode_utf8(code@);
            }
            (IoFailure::InvalidData, prefixed("unknown wal op code: ", code.as_str()))
        },
    }
}

/// The error that opening a store reports for a fault in its files: a `std::io::Error` of
/// the kind and with the message that `restore_fault_parts` gives.
pub fn restore_error(fault: RestoreFault) -> std::io::Error {
    let (kind, message) = restore_fault_parts(fault);
    io_error(kind, message.as_str())
}

/// The state a store restores to from a snapshot and a log (either possibly absent), before
/// expired keys are purged.
pub open spec fn restored_view(snapshot: Option<Seq<u8>>, wal: Option<Seq<u8>>) -> Result<
    StoreView,
    RestoreFault,
> {
    let empty: StoreView = (Map::empty(), Map::empty());
    let base = match snapshot {
        None => Ok(empty),
        Some(b) => match load_snapshot(b, empty) {
            Ok(st) => Ok(st),
            Err(f) => Err(RestoreFault::Snapshot(f)),
        },
    };
    match base {
        Err(f) => Err(f),
        Ok(st) => match wal {
            None => Ok(st),
            Some(w) => match replay_from(w, 0, st) {
                Ok(st2) => Ok(st2),
                Err(f) => Err(RestoreFault::Wal(f)),
            },
        },
    }
}

/// Whether `k` lies within the optional inclusive bounds.
pub open spec fn in_bounds(k: KeyModel, lo: Option<KeyModel>, hi: Option<KeyModel>) -> bool {
    (match lo {
        Some(l) => key_le(l, k),
        None => true,
    }) && (match hi {
        Some(h) => key_le(k, h),
        None => true,
    })
}

/// The keys of a list of pairs.
pub open spec fn pair_keys(s: Seq<(KeyEncoding, Vec<u8>)>) -> Seq<KeyModel> {
    s.map_values(|p: (KeyEncoding, Vec<u8>)| p.0@)
}

/// A list of pairs in key order, each key once, holding exactly the pairs of `m` whose
/// keys lie within the bounds.
pub open spec fn sorted_listing(
    r: Seq<(KeyEncoding, Vec<u8>)>,
    m: KvView,
    lo: Option<KeyModel>,
    hi: Option<KeyModel>,
) -> bool {
    &&& keys_sorted(pair_keys(r))
    &&& distinct_keys(r)
    &&& map_of(r) == m.restrict(Set::new(|k: KeyModel| in_bounds(k, lo, hi)))
}

/// Inserts `x` after every pair whose key does not come after its key.
fn insert_pair_sorted(out: &mut Vec<(KeyEncoding, Vec<u8>)>, x: (KeyEncoding, Vec<u8>)) -> (p: usize)
    requires
        keys_sorted(pair_keys(old(out)@)),
    ensures
        keys_sorted(pair_keys(final(out)@)),
        p <= old(out)@.len(),
        final(out)@ == old(out)@.insert(p as int, x),
{
    let mut p: usize = 0;
    let mut done = false;
    while p < out.len() && !done
        invariant
            p <= out@.len(),
            out@ == old(out)@,
            forall|j: int| 0 <= j < p ==> key_order(x.0@, (#[trigger] out@[j]).0@) != KeyOrder::Less,
            done ==> p < out@.len() && key_order(x.0@, out@[p as int].0@) == KeyOrder::Less,
        decreases out@.len() - p + (if done {
            0int
        } else {
            1int
        }),
    {
        if compare_keys(&x.0, &out[p].0) == KeyOrder::Less {
            done = true;
        } else {
            p = p + 1;
        }
    }
    proof {
        let ks = pair_keys(out@);
        assert forall|j: int| 0 <= j < p implies key_order(x.0@, #[trigger] ks[j]) != KeyOrder::Less by {
            assert(ks[j] == out@[j].0@);
        }
        lemma_insert_keeps_sorted(ks, p as int, x.0@);
        assert(pair_keys(out@.insert(p as int, x)) =~= ks.insert(p as int, x.0@));
    }
    out.insert(p, x);
    p
}

/// The pairs of `m` whose keys lie within the bounds, in key order.
fn sorted_pairs_within(m: &KvMap, lo: Option<&KeyEncoding>, hi: Option<&KeyEncoding>) -> (r: Vec<
    (KeyEncoding, Vec<u8>),
>)
    requires
        m.wf(),
    ensures
        sorted_listing(
            r@,
            m@,
            match lo {
                Some(l) => Some(l@),
                None => None,
            },
            match hi {
                Some(h) => Some(h@),
                None => None,
            },
        ),
{
    let ghost lov = match lo {
        Some(l) => Some(l@),
        None => None,
    };
    let ghost hiv = match hi {
        Some(h) => Some(h@),
        None => None,
    };
    let ghost mv = m@;
    proof {
        m.lemma_pairs();
    }
    let pairs = m.as_pairs();
    let mut out: Vec<(KeyEncoding, Vec<u8>)> = Vec::new();
    let mut i: usize = 0;
    while i < pairs.len()
        invariant
            i <= pairs@.len(),
            pairs@ == m.pairs(),
            mv == m@,
            distinct_keys(pairs@),
            forall|k: KeyModel| #[trigger]
                mv.contains_key(k) <==> exists|j: int| 0 <= j < pairs@.len() && pairs@[j].0@ == k,
            forall|j: int| 0 <= j < pairs@.len() ==> #[trigger] mv[pairs@[j].0@] == pairs@[j].1@,
            lov == (match lo {
                Some(l) => Some(l@),
                None => None::<KeyModel>,
            }),
            hiv == (match hi {
                Some(h) => Some(h@),
                None => None::<KeyModel>,
            }),
            keys_sorted(pair_keys(out@)),
            distinct_keys(out@),
            forall|k: KeyModel| #[trigger]
                map_of(out@).contains_key(k) <==> exists|j: int|
                    0 <= j < i && pairs@[j].0@ == k && in_bounds(k, lov, hiv),
            forall|t: int| 0 <= t < out@.len() ==> exists|j: int|
                0 <= j < i && #[trigger] out@[t].0@ == pairs@[j].0@ && out@[t].1@ == pairs@[j].1@,
        decreases pairs@.len() - i,
    {
        let (k, v) = &pairs[i];
        let ghost km = k@;
        let inside = (match lo {
            Some(l) => compare_keys(l, k) != KeyOrder::Greater,
            None => true,
        }) && (match hi {
            Some(h) => compare_keys(k, h) != KeyOrder::Greater,
            None => true,
        });
        if inside {
            let ghost before = out@;
            proof {
                lemma_map_of(before);
            }
            let p = insert_pair_sorted(&mut out, (k.copy(), copy_range(v.as_slice(), 0, v.len())));
            proof {
                assert(v@.subrange(0, v@.len() as int) =~= v@);
                assert(!map_of(before).contains_key(km)) by {
                    if map_of(before).contains_key(km) {
                        let j = choose|j: int| 0 <= j < i && pairs@[j].0@ == km && in_bounds(km, lov, hiv);
                        assert(pairs@[j].0@ == pairs@[i as int].0@);
                    }
                }
                assert forall|a: int, b: int| 0 <= a < b < out@.len() implies #[trigger] out@[a].0@
                    != #[trigger] out@[b].0@ by {
                    if a == p as int {
                        assert(before[b - 1] == out@[b]);
                        assert(map_of(before).contains_key(before[b - 1].0@));
                    } else if b == p as int {
                        assert(before[a] == out@[a]);
                        assert(map_of(before).contains_key(before[a].0@));
                    } else {
                        let a2 = if a < p { a } else { a - 1 };
                        let b2 = if b < p { b } else { b - 1 };
                        assert(before[a2] == out@[a] && before[b2] == out@[b]);
                    }
                }
                lemma_map_of(out@);
                assert forall|kk: KeyModel| #[trigger] map_of(out@).contains_key(kk) <==> exists|j: int|
                    0 <= j < i + 1 && pairs@[j].0@ == kk && in_bounds(kk, lov, hiv) by {
                    if map_of(out@).contains_key(kk) {
                        let t = choose|t: int| 0 <= t < out@.len() && out@[t].0@ == kk;
                        if t != p as int {
                            let t2 = if t < p { t } else { t - 1 };
                            assert(before[t2] == out@[t]);
                            assert(map_of(before).contains_key(kk));
                            let j = choose|j: int| 0 <= j < i && pairs@[j].0@ == kk && in_bounds(kk, lov, hiv);
                            assert(0 <= j < i + 1);
                        } else {
                            assert(0 <= i < i + 1 && pairs@[i as int].0@ == kk);
                        }
                    }
                    if exists|j: int| 0 <= j < i + 1 && pairs@[j].0@ == kk && in_bounds(kk, lov, hiv) {
                        let j = choose|j: int| 0 <= j < i + 1 && pairs@[j].0@ == kk && in_bounds(kk, lov, hiv);
                        if j < i {
                            assert(map_of(before).contains_key(kk));
                            let t = choose|t: int| 0 <= t < before.len() && before[t].0@ == kk;
                            let t2 = if t < p { t } else { t + 1 };
                            assert(out@[t2] == before[t]);
                        } else {
                            assert(out@[p as int].0@ == kk);
                        }
                    }
                }
                assert forall|t: int| 0 <= t < out@.len() implies exists|j: int|
                    0 <= j < i + 1 && #[trigger] out@[t].0@ == pairs@[j].0@ && out@[t].1@ == pairs@[j].1@ by {
                    if t == p as int {
                        assert(0 <= i < i + 1);
                    } else {
                        let t2 = if t < p { t } else { t - 1 };
                        assert(before[t2] == out@[t]);
                        let j = choose|j: int|
                            0 <= j < i && before[t2].0@ == pairs@[j].0@ && before[t2].1@ == pairs@[j].1@;
                        assert(0 <= j < i + 1);
                    }
                }
            }
        } else {
            proof {
                assert(!in_bounds(km, lov, hiv));
                assert forall|kk: KeyModel| #[trigger] map_of(out@).contains_key(kk) <==> exists|j: int|
                    0 <= j < i + 1 && pairs@[j].0@ == kk && in_bounds(kk, lov, hiv) by {
                    if exists|j: int| 0 <= j < i + 1 && pairs@[j].0@ == kk && in_bounds(kk, lov, hiv) {
                        let j = choose|j: int| 0 <= j < i + 1 && pairs@[j].0@ == kk && in_bounds(kk, lov, hiv);
                        assert(j != i);
                        assert(exists|j2: int| 0 <= j2 < i && pairs@[j2].0@ == kk && in_bounds(kk, lov, hiv));
                    }
                    if exists|j: int| 0 <= j < i && pairs@[j].0@ == kk && in_bounds(kk, lov, hiv) {
                        let j = choose|j: int| 0 <= j < i && pairs@[j].0@ == kk && in_bounds(kk, lov, hiv);
                        assert(0 <= j < i + 1);
                    }
                }
                assert forall|t: int| 0 <= t < out@.len() implies exists|j: int|
                    0 <= j < i + 1 && #[trigger] out@[t].0@ == pairs@[j].0@ && out@[t].1@ == pairs@[j].1@ by {
                    let j = choose|j: int|
                        0 <= j < i && out@[t].0@ == pairs@[j].0@ && out@[t].1@ == pairs@[j].1@;
                    assert(0 <= j < i + 1);
                }
            }
        }
        i = i + 1;
    }
    proof {
        lemma_map_of(out@);
        let want = mv.restrict(Set::new(|k: KeyModel| in_bounds(k, lov, hiv)));
        assert forall|k: KeyModel| #[trigger] map_of(out@).contains_key(k) == want.contains_key(k) by {
            if want.contains_key(k) {
                let j = choose|j: int| 0 <= j < pairs@.len() && pairs@[j].0@ == k;
            }
        }
        assert forall|k: KeyModel| #[trigger] map_of(out@).contains_key(k) implies map_of(out@)[k]
            == want[k] by {
            let t = choose|t: int| 0 <= t < out@.len() && out@[t].0@ == k;
            let j = choose|j: int|
                0 <= j < i && out@[t].0@ == pairs@[j].0@ && out@[t].1@ == pairs@[j].1@;
            assert(mv[pairs@[j].0@] == pairs@[j].1@);
        }
        assert(map_of(out@) =~= want);
    }
    out
}

/// The key-value state of a log-structured store: its map, the deadlines of expiring keys,
/// its counters and when its log is flushed. The log and snapshot files themselves are
/// kept by the caller, who appends the records that the methods hand out.
pub struct WalStore {
    tree: KvMap,
    expires: ExpMap,
    stats: EngineStats,
    sync_policy: SyncPolicy,
}

impl WalStore {
    /// The maps are well formed and only present keys have deadlines.
    pub closed spec fn wf(&self) -> bool {
        &&& self.tree.wf()
        &&& self.expires.wf()
        &&& self.expires@.dom().subset_of(self.tree@.dom())
    }

    pub closed spec fn state(&self) -> StoreView {
        (self.tree@, self.expires@)
    }

    pub closed spec fn stats_spec(&self) -> EngineStats {
        self.stats
    }

    pub closed spec fn sync_policy_spec(&self) -> SyncPolicy {
        self.sync_policy
    }

    /// The bytes that `checkpoint_bytes` writes for this state.
    pub closed spec fn snapshot_spec(&self) -> Seq<u8> {
        snapshot_of(self.tree, self.expires)
    }

    /// An empty store that flushes after every append.
    pub fn new() -> (r: WalStore)
        ensures
            r.wf(),
            r.state() == (Map::<KeyModel, Seq<u8>>::empty(), Map::<KeyModel, u64>::empty()),
            r.stats_spec() == zero_stats(),
            r.sync_policy_spec() == SyncPolicy::Always,
    {
        WalStore {
            tree: KvMap::new(),
            expires: ExpMap::new(),
            stats: EngineStats::default(),
            sync_policy: SyncPolicy::Always,
        }
    }

    /// Rebuilds a store from its snapshot and its log, as opening does: the snapshot is
    /// loaded, the log replayed over it, and the keys whose deadline has passed at `now_ms`
    /// are purged. The counters record how many deadlines were loaded and how many purged.
    pub fn restore(snapshot: Option<&[u8]>, wal: Option<&[u8]>, now_ms: u64) -> (r: Result<
        WalStore,
        RestoreFault,
    >)
        ensures
            match restored_view(
                match snapshot {
                    Some(b) => Some(b@),
                    None => None,
                },
                match wal {
                    Some(w) => Some(w@),
                    None => None,
                },
            ) {
                Ok(st) => r matches Ok(s) && s.wf() && s.state() == purge_view(st, now_ms)
                    && s.stats_spec() == (EngineStats {
                    ttl_loaded_on_startup: st.1.len() as u64,
                    ttl_pruned_on_startup: expired_keys(st.1, now_ms).len() as u64,
                    ..zero_stats()
                }) && s.sync_policy_spec() == SyncPolicy::Always,
                Err(f) => r == Err::<WalStore, RestoreFault>(f),
            },
    {
        let mut store = WalStore::new();
        proof {
            assert(deadlines_present(store.state()));
        }
        match snapshot {
            Some(b) => {
                proof {
                    lemma_load_keeps_deadlines_present(b@, store.state());
                }
                match load_snapshot_bytes(b, &mut store.tree, &mut store.expires) {
                    Ok(()) => {},
                    Err(f) => {
                        return Err(RestoreFault::Snapshot(f));
                    },
                }
            },
            None => {},
        }
        match wal {
            Some(w) => {
                proof {
                    lemma_replay_keeps_deadlines_present(w@, 0, store.state());
                }
                match replay_wal_bytes(w, &mut store.tree, &mut store.expires) {
                    Ok(()) => {},
                    Err(f) => {
                        return Err(RestoreFault::Wal(f));
                    },
                }
            },
            None => {},
        }
        let loaded = store.expires.len() as u64;
        let pruned = store.purge_all_expired(now_ms);
        store.stats.ttl_loaded_on_startup = loaded;
        store.stats.ttl_pruned_on_startup = pruned;
        Ok(store)
    }

    /// Removes every key whose deadline has passed at `now_ms`; gives how many.
    pub fn purge_all_expired(&mut self, now_ms: u64) -> (r: u64)
        requires
            old(self).wf(),
        ensures
            final(self).wf(),
            final(self).state() == purge_view(old(self).state(), now_ms),
            r == expired_keys(old(self).state().1, now_ms).len(),
            final(self).stats_spec() == old(self).stats_spec(),
            final(self).sync_policy_spec() == old(self).sync_policy_spec(),
    {
        let ghost t0 = self.tree@;
        let ghost x0 = self.expires@;
        proof {
            self.expires.lemma_pairs();
        }
        let mut kept = ExpMap::new();
        let mut pruned: u64 = 0;
        let ghost mut gone: Set<KeyModel> = Set::empty();
        let pairs = self.expires.as_pairs();
        let mut i: usize = 0;
        while i < pairs.len()
            invariant
                i <= pairs@.len(),
                pairs@ == self.expires.pairs(),
                self.expires@ == x0,
                self.expires.wf(),
                crate::assoc_map::distinct_keys(pairs@),
                forall|k: KeyModel| #[trigger]
                    x0.contains_key(k) <==> exists|j: int| 0 <= j < pairs@.len() && pairs@[j].0@ == k,
                forall|j: int| 0 <= j < pairs@.len() ==> #[trigger] x0[pairs@[j].0@] == pairs@[j].1,
                x0.dom().subset_of(t0.dom()),
                self.stats == old(self).stats,
                self.sync_policy == old(self).sync_policy,
                self.tree.wf(),
                kept.wf(),
                gone.finite(),
                pruned == gone.len(),
                pruned <= i,
                forall|k: KeyModel| #[trigger]
                    gone.contains(k) <==> exists|j: int|
                        0 <= j < i && pairs@[j].0@ == k && now_ms >= pairs@[j].1,
                self.tree@ == t0.remove_keys(gone),
                forall|k: KeyModel| #[trigger]
                    kept@.contains_key(k) <==> exists|j: int|
                        0 <= j < i && pairs@[j].0@ == k && now_ms < pairs@[j].1,
                forall|k: KeyModel| #[trigger] kept@.contains_key(k) ==> kept@[k] == x0[k],
            decreases pairs@.len() - i,
        {
            let (k, d) = &pairs[i];
            let ghost km = k@;
            proof {
                assert(!gone.contains(km) && !kept@.contains_key(km)) by {
                    if gone.contains(km) || kept@.contains_key(km) {
                        let j = choose|j: int| 0 <= j < i && pairs@[j].0@ == km;
                        assert(pairs@[j].0@ == pairs@[i as int].0@);
                    }
                }
                assert(x0[km] == *d);
            }
            if now_ms >= *d {
                self.tree.remove(k);
                pruned = pruned + 1;
                proof {
                    gone = gone.insert(km);
                    assert(self.tree@ =~= t0.remove_keys(gone));
                }
            } else {
                kept.insert(k.copy(), *d);
            }
            proof {
                assert forall|kk: KeyModel| #[trigger] gone.contains(kk) <==> exists|j: int|
                    0 <= j < i + 1 && pairs@[j].0@ == kk && now_ms >= pairs@[j].1 by {
                    if exists|j: int| 0 <= j < i + 1 && pairs@[j].0@ == kk && now_ms >= pairs@[j].1 {
                        let j = choose|j: int|
                            0 <= j < i + 1 && pairs@[j].0@ == kk && now_ms >= pairs@[j].1;
                        if j < i {
                            assert(exists|j2: int|
                                0 <= j2 < i && pairs@[j2].0@ == kk && now_ms >= pairs@[j2].1);
                        }
                    }
                    if exists|j: int| 0 <= j < i && pairs@[j].0@ == kk && now_ms >= pairs@[j].1 {
                        let j = choose|j: int|
                            0 <= j < i && pairs@[j].0@ == kk && now_ms >= pairs@[j].1;
                        assert(0 <= j < i + 1 && pairs@[j].0@ == kk && now_ms >= pairs@[j].1);
                    }
                }
                assert forall|kk: KeyModel| #[trigger] kept@.contains_key(kk) <==> exists|j: int|
                    0 <= j < i + 1 && pairs@[j].0@ == kk && now_ms < pairs@[j].1 by {
                    if exists|j: int| 0 <= j < i + 1 && pairs@[j].0@ == kk && now_ms < pairs@[j].1 {
                        let j = choose|j: int|
                            0 <= j < i + 1 && pairs@[j].0@ == kk && now_ms < pairs@[j].1;
                        if j < i {
                            assert(exists|j2: int|
                                0 <= j2 < i && pairs@[j2].0@ == kk && now_ms < pairs@[j2].1);
                        }
                    }
                    if exists|j: int| 0 <= j < i && pairs@[j].0@ == kk && now_ms < pairs@[j].1 {
                        let j = choose|j: int|
                            0 <= j < i && pairs@[j].0@ == kk && now_ms < pairs@[j].1;
                        assert(0 <= j < i + 1 && pairs@[j].0@ == kk && now_ms < pairs@[j].1);
                    }
                }
            }
            i = i + 1;
        }
        proof {
            let e = expired_keys(x0, now_ms);
            assert forall|k: KeyModel| gone.contains(k) <==> e.contains(k) by {
                if e.contains(k) {
                    let j = choose|j: int| 0 <= j < pairs@.len() && pairs@[j].0@ == k;
                    assert(now_ms >= pairs@[j].1);
                }
            }
            assert(gone =~= e);
            assert(kept@ =~= x0.remove_keys(e)) by {
                assert forall|k: KeyModel| kept@.contains_key(k) <==> x0.remove_keys(
                    e,
                ).contains_key(k) by {
                    if x0.contains_key(k) && !e.contains(k) {
                        let j = choose|j: int| 0 <= j < pairs@.len() && pairs@[j].0@ == k;
                        assert(now_ms < pairs@[j].1);
                    }
                }
            }
        }
        self.expires = kept;
        proof {
            let e = expired_keys(x0, now_ms);
            assert(self.expires@.dom().subset_of(self.tree@.dom())) by {
                assert forall|k: KeyModel| self.expires@.contains_key(k) implies self.tree@.contains_key(
                    k,
                ) by {
                    assert(x0.contains_key(k));
                }
            }
        }
        pruned
    }

    /// Removes `key` if its deadline has passed at `now_ms`.
    pub fn purge_if_expired(&mut self, key: &KeyEncoding, now_ms: u64)
        requires
            old(self).wf(),
        ensures
            final(self).wf(),
            final(self).state() == purge_key_view(old(self).state(), key@, now_ms),
            final(self).stats_spec() == old(self).stats_spec(),
            final(self).sync_policy_spec() == old(self).sync_policy_spec(),
    {
        let expired = match self.expires.get(key) {
            Some(d) => now_ms >= *d,
            None => false,
        };
        if expired {
            self.expires.remove(key);
            self.tree.remove(key);
        }
    }

    /// When the log is flushed.
    pub fn set_sync_policy(&mut self, policy: SyncPolicy)
        requires
            old(self).wf(),
        ensures
            final(self).wf(),
            final(self).state() == old(self).state(),
            final(self).stats_spec() == old(self).stats_spec(),
            final(self).sync_policy_spec() == policy,
    {
        self.sync_policy = policy;
    }

    pub fn sync_policy(&self) -> (r: SyncPolicy)
        ensures
            r == self.sync_policy_spec(),
    {
        self.sync_policy
    }

    /// Whether an append must be flushed before it counts as done.
    pub fn needs_sync(&self) -> (r: bool)
        ensures
            r == (self.sync_policy_spec() == SyncPolicy::Always),
    {
        match self.sync_policy {
            SyncPolicy::Always => true,
            SyncPolicy::Manual => false,
        }
    }

    pub fn stats(&self) -> (r: EngineStats)
        ensures
            r == self.stats_spec(),
    {
        self.stats
    }

    /// The number of keys, expired ones included until they are purged.
    pub fn len(&self) -> (r: usize)
        requires
            self.wf(),
        ensures
            r == self.state().0.len(),
    {
        self.tree.len()
    }

    /// The value of `key`, without looking at its deadline.
    pub fn get(&self, key: &KeyEncoding) -> (r: Option<Vec<u8>>)
        requires
            self.wf(),
        ensures
            match r {
                Some(v) => self.state().0.contains_key(key@) && v@ == self.state().0[key@],
                None => !self.state().0.contains_key(key@),
            },
    {
        match self.tree.get(key) {
            Some(v) => Some(copy_range(v.as_slice(), 0, v.len())),
            None => None,
        }
    }

    /// The value of `key` after purging it if expired, and whether that purge removed it.
    pub fn get_with_expiry_flag(&mut self, key: &KeyEncoding, now_ms: u64) -> (r: (
        Option<Vec<u8>>,
        bool,
    ))
        requires
            old(self).wf(),
        ensures
            final(self).wf(),
            final(self).state() == purge_key_view(old(self).state(), key@, now_ms),
            final(self).stats_spec() == old(self).stats_spec(),
            final(self).sync_policy_spec() == old(self).sync_policy_spec(),
            match r.0 {
                Some(v) => final(self).state().0.contains_key(key@) && v@ == final(self).state().0[key@],
                None => !final(self).state().0.contains_key(key@),
            },
            r.1 == (old(self).state().1.contains_key(key@) && old(self).state().0.contains_key(key@)
                && r.0 is None),
    {
        let had_deadline = self.expires.contains_key(key);
        let existed_before = self.tree.contains_key(key);
        self.purge_if_expired(key, now_ms);
        let value = self.get(key);
        let expired_now = had_deadline && existed_before && value.is_none();
        (value, expired_now)
    }

    /// A read through the engine: counts it, purges the key if expired, and gives its value.
    pub fn get_live(&mut self, key: &KeyEncoding, now_ms: u64) -> (r: Option<Vec<u8>>)
        requires
            old(self).wf(),
        ensures
            final(self).wf(),
            final(self).state() == purge_key_view(old(self).state(), key@, now_ms),
            final(self).stats_spec() == (EngineStats {
                reads: bump(old(self).stats_spec().reads),
                disk_reads: bump(old(self).stats_spec().disk_reads),
                ..old(self).stats_spec()
            }),
            final(self).sync_policy_spec() == old(self).sync_policy_spec(),
            match r {
                Some(v) => final(self).state().0.contains_key(key@) && v@ == final(self).state().0[key@],
                None => !final(self).state().0.contains_key(key@),
            },
    {
        self.stats.reads = bump_exec(self.stats.reads);
        self.stats.disk_reads = bump_exec(self.stats.disk_reads);
        self.purge_if_expired(key, now_ms);
        self.get(key)
    }

    /// A read of the disk alone: counts it and, when the key expired just now, the expiry.
    pub fn get_disk_only(&mut self, key: &KeyEncoding, now_ms: u64) -> (r: Option<Vec<u8>>)
        requires
            old(self).wf(),
        ensures
            final(self).wf(),
            final(self).state() == purge_key_view(old(self).state(), key@, now_ms),
            final(self).stats_spec() == (EngineStats {
                reads: bump(old(self).stats_spec().reads),
                disk_reads: bump(old(self).stats_spec().disk_reads),
                ttl_expired_on_disk: if old(self).state().0.contains_key(key@)
                    && old(self).state().1.contains_key(key@) && r is None {
                    bump(old(self).stats_spec().ttl_expired_on_disk)
                } else {
                    old(self).stats_spec().ttl_expired_on_disk
                },
                ..old(self).stats_spec()
            }),
            final(self).sync_policy_spec() == old(self).sync_policy_spec(),
            match r {
                Some(v) => final(self).state().0.contains_key(key@) && v@ == final(self).state().0[key@],
                None => !final(self).state().0.contains_key(key@),
            },
    {
        self.stats.reads = bump_exec(self.stats.reads);
        self.stats.disk_reads = bump_exec(self.stats.disk_reads);
        let (value, expired_now) = self.get_with_expiry_flag(key, now_ms);
        if expired_now {
            self.stats.ttl_expired_on_disk = bump_exec(self.stats.ttl_expired_on_disk);
        }
        value
    }

    /// Starts a write: counts it and gives the record to append to the log.
    pub fn begin_set(&mut self, key: &KeyEncoding, value: &[u8]) -> (r: Vec<u8>)
        requires
            old(self).wf(),
        ensures
            final(self).wf(),
            r@ == set_record(key@, value@),
            final(self).state() == old(self).state(),
            final(self).stats_spec() == (EngineStats {
                writes: bump(old(self).stats_spec().writes),
                disk_writes: bump(old(self).stats_spec().disk_writes),
                ..old(self).stats_spec()
            }),
            final(self).sync_policy_spec() == old(self).sync_policy_spec(),
    {
        self.stats.writes = bump_exec(self.stats.writes);
        self.stats.disk_writes = bump_exec(self.stats.disk_writes);
        encode_set_record(key, value)
    }

    /// Counts a record appended to the log.
    pub fn note_append(&mut self)
        requires
            old(self).wf(),
        ensures
            final(self).wf(),
            final(self).state() == old(self).state(),
            final(self).stats_spec() == (EngineStats {
                wal_appends: bump(old(self).stats_spec().wal_appends),
                ..old(self).stats_spec()
            }),
            final(self).sync_policy_spec() == old(self).sync_policy_spec(),
    {
        self.stats.wal_appends = bump_exec(self.stats.wal_appends);
    }

    /// Counts a flush of the log.
    pub fn note_sync(&mut self)
        requires
            old(self).wf(),
        ensures
            final(self).wf(),
            final(self).state() == old(self).state(),
            final(self).stats_spec() == (EngineStats {
                fsync_count: bump(old(self).stats_spec().fsync_count),
                ..old(self).stats_spec()
            }),
            final(self).sync_policy_spec() == old(self).sync_policy_spec(),
    {
        self.stats.fsync_count = bump_exec(self.stats.fsync_count);
    }

    /// Counts a write to the disk files.
    pub fn note_disk_write(&mut self)
        requires
            old(self).wf(),
        ensures
            final(self).wf(),
            final(self).state() == old(self).state(),
            final(self).stats_spec() == (EngineStats {
                disk_writes: bump(old(self).stats_spec().disk_writes),
                ..old(self).stats_spec()
            }),
            final(self).sync_policy_spec() == old(self).sync_policy_spec(),
    {
        self.stats.disk_writes = bump_exec(self.stats.disk_writes);
    }

    /// Finishes a write whose record is in the log: the key takes the value and loses its
    /// deadline.
    pub fn apply_set(&mut self, key: KeyEncoding, value: Vec<u8>)
        requires
            old(self).wf(),
        ensures
            final(self).wf(),
            final(self).state() == set_model(old(self).state(), key@, value@),
            final(self).stats_spec() == old(self).stats_spec(),
            final(self).sync_policy_spec() == old(self).sync_policy_spec(),
    {
        self.expires.remove(&key);
        self.tree.insert(key, value);
    }

    /// Starts a delete: counts it and, when the key is present, gives the record to append.
    /// An absent key needs no record.
    pub fn begin_delete(&mut self, key: &KeyEncoding) -> (r: Option<Vec<u8>>)
        requires
            old(self).wf(),
        ensures
            final(self).wf(),
            final(self).state() == old(self).state(),
            final(self).stats_spec() == (EngineStats {
                deletes: bump(old(self).stats_spec().deletes),
                ..old(self).stats_spec()
            }),
            final(self).sync_policy_spec() == old(self).sync_policy_spec(),
            match r {
                Some(rec) => old(self).state().0.contains_key(key@) && rec@ == delete_record(key@),
                None => !old(self).state().0.contains_key(key@),
            },
    {
        self.stats.deletes = bump_exec(self.stats.deletes);
        if !self.tree.contains_key(key) {
            self.expires.remove(key);
            proof {
                assert(self.expires@ =~= old(self).expires@);
            }
            return None;
        }
        Some(encode_delete_record(key))
    }

    /// Finishes a delete whose record is in the log: counts the disk write, removes the key
    /// and its deadline, and gives the value it had.
    pub fn apply_delete(&mut self, key: &KeyEncoding) -> (r: Option<Vec<u8>>)
        requires
            old(self).wf(),
        ensures
            final(self).wf(),
            final(self).state() == delete_model(old(self).state(), key@),
            final(self).stats_spec() == (EngineStats {
                disk_writes: bump(old(self).stats_spec().disk_writes),
                ..old(self).stats_spec()
            }),
            final(self).sync_policy_spec() == old(self).sync_policy_spec(),
            match r {
                Some(v) => old(self).state().0.contains_key(key@) && v@ == old(self).state().0[key@],
                None => !old(self).state().0.contains_key(key@),
            },
    {
        self.stats.disk_writes = bump_exec(self.stats.disk_writes);
        let deleted = self.tree.remove(key);
        self.expires.remove(key);
        deleted
    }

    /// Starts giving `key` a time to live of `seconds`: purges it if expired, and, when it is
    /// present, gives its record and deadline (`now_ms` plus the seconds, saturating).
    pub fn begin_expire(&mut self, key: &KeyEncoding, seconds: u64, now_ms: u64) -> (r: Option<
        (Vec<u8>, u64),
    >)
        requires
            old(self).wf(),
        ensures
            final(self).wf(),
            final(self).state() == purge_key_view(old(self).state(), key@, now_ms),
            final(self).stats_spec() == old(self).stats_spec(),
            final(self).sync_policy_spec() == old(self).sync_policy_spec(),
            match r {
                Some((rec, d)) => final(self).state().0.contains_key(key@) && d == deadline_after(
                    now_ms,
                    seconds,
                ) && rec@ == expire_record(key@, d),
                None => !final(self).state().0.contains_key(key@),
            },
    {
        self.purge_if_expired(key, now_ms);
        if !self.tree.contains_key(key) {
            return None;
        }
        let ms: u64 = if seconds > u64::MAX / 1000 {
            u64::MAX
        } else {
            seconds * 1000
        };
        let deadline = now_ms.saturating_add(ms);
        Some((encode_expire_record(key, deadline), deadline))
    }

    /// Finishes a time to live whose record is in the log: `key` gets the deadline.
    pub fn apply_expire(&mut self, key: KeyEncoding, deadline_ms: u64)
        requires
            old(self).wf(),
            old(self).state().0.contains_key(key@),
        ensures
            final(self).wf(),
            final(self).state() == (old(self).state().0, old(self).state().1.insert(
                key@,
                deadline_ms,
            )),
            final(self).stats_spec() == old(self).stats_spec(),
            final(self).sync_policy_spec() == old(self).sync_policy_spec(),
    {
        self.expires.insert(key, deadline_ms);
    }

    /// The time to live of `key` at `now_ms`, after purging it if expired.
    pub fn ttl(&mut self, key: &KeyEncoding, now_ms: u64) -> (r: TtlState)
        requires
            old(self).wf(),
        ensures
            final(self).wf(),
            final(self).state() == purge_key_view(old(self).state(), key@, now_ms),
            final(self).stats_spec() == old(self).stats_spec(),
            final(self).sync_policy_spec() == old(self).sync_policy_spec(),
            r == ttl_view(final(self).state(), key@, now_ms),
    {
        self.purge_if_expired(key, now_ms);
        if !self.tree.contains_key(key) {
            return TtlState::NotFound;
        }
        match self.expires.get(key) {
            None => TtlState::NoExpire,
            Some(d) => {
                if *d <= now_ms {
                    TtlState::NotFound
                } else {
                    TtlState::Seconds(((*d - now_ms) / 1000) as i64)
                }
            },
        }
    }

    /// All pairs in key order, after purging the expired keys.
    pub fn entries(&mut self, now_ms: u64) -> (r: Vec<(KeyEncoding, Vec<u8>)>)
        requires
            old(self).wf(),
        ensures
            final(self).wf(),
            final(self).state() == purge_view(old(self).state(), now_ms),
            final(self).stats_spec() == old(self).stats_spec(),
            final(self).sync_policy_spec() == old(self).sync_policy_spec(),
            sorted_listing(r@, final(self).state().0, None, None),
    {
        self.purge_all_expired(now_ms);
        sorted_pairs_within(&self.tree, None, None)
    }

    /// The pairs whose keys lie from `start` to `end`, both included, in key order, after
    /// purging the expired keys.
    pub fn range(&mut self, start: &KeyEncoding, end: &KeyEncoding, now_ms: u64) -> (r: Vec<
        (KeyEncoding, Vec<u8>),
    >)
        requires
            old(self).wf(),
        ensures
            final(self).wf(),
            final(self).state() == purge_view(old(self).state(), now_ms),
            final(self).stats_spec() == old(self).stats_spec(),
            final(self).sync_policy_spec() == old(self).sync_policy_spec(),
            sorted_listing(r@, final(self).state().0, Some(start@), Some(end@)),
    {
        self.purge_all_expired(now_ms);
        sorted_pairs_within(&self.tree, Some(start), Some(end))
    }

    /// Starts a checkpoint: purges the expired keys and gives the snapshot bytes to write.
    /// After they are written the log is emptied.
    pub fn checkpoint_bytes(&mut self, now_ms: u64) -> (r: Vec<u8>)
        requires
            old(self).wf(),
        ensures
            final(self).wf(),
            final(self).state() == purge_view(old(self).state(), now_ms),
            final(self).stats_spec() == old(self).stats_spec(),
            final(self).sync_policy_spec() == old(self).sync_policy_spec(),
            r@ == final(self).snapshot_spec(),
    {
        self.purge_all_expired(now_ms);
        encode_snapshot(&self.tree, &self.expires)
    }
}

impl WalStore {
    /// Every key fits a key blob and every value a four-byte length, as the log and the
    /// snapshot need to write them back.
    pub closed spec fn writable(&self) -> bool {
        &&& forall|i: int|
            0 <= i < self.tree.pairs().len() ==> key_fits((#[trigger] self.tree.pairs()[i]).0@)
                && self.tree.pairs()[i].1@.len() < 0x1_0000_0000
        &&& forall|i: int|
            0 <= i < self.expires.pairs().len() ==> key_fits(
                (#[trigger] self.expires.pairs()[i]).0@,
            )
        &&& self.tree.pairs().len() < 0x1_0000_0000_0000_0000
        &&& self.expires.pairs().len() < 0x1_0000_0000_0000_0000
    }

    /// A checkpoint restores the state it was taken of: restoring from its snapshot alone,
    /// before any purge, gives back the keys, values and deadlines.
    pub proof fn lemma_checkpoint_restores(&self)
        requires
            self.wf(),
            self.writable(),
        ensures
            restored_view(Some(self.snapshot_spec()), None) == Ok::<_, RestoreFault>(self.state()),
    {
        lemma_snapshot_restores(self.tree, self.expires);
        assert(self.expires@.restrict(self.tree@.dom()) =~= self.expires@);
    }

    /// The log replays over the snapshot: restoring from a checkpoint of this store and the
    /// records of the changes made after it gives this state with those changes made in
    /// order, so a later write, delete or deadline wins over what the snapshot holds.
    pub proof fn lemma_checkpoint_then_log_restores(&self, ops: Seq<WalOp>)
        requires
            self.wf(),
            self.writable(),
            forall|i: int| 0 <= i < ops.len() ==> op_fits(#[trigger] ops[i]),
        ensures
            restored_view(Some(self.snapshot_spec()), Some(ops_records(ops))) == Ok::<_, RestoreFault>(
                apply_ops(self.state(), ops),
            ),
    {
        self.lemma_checkpoint_restores();
        lemma_replay_ops(ops, Seq::empty(), self.state());
        assert(ops_records(ops) + Seq::<u8>::empty() =~= ops_records(ops));
    }
}

/// An expire sets the deadline `1000 * seconds` milliseconds after `now`, saturating at the
/// largest time; right after it, a present key's time to live is those `seconds` (none left
/// for zero seconds).
pub proof fn lemma_expire_deadline(now: u64, seconds: u64, st: StoreView, k: KeyModel)
    requires
        st.0.contains_key(k),
    ensures
        deadline_after(now, seconds) as int == if now + 1000 * seconds <= u64::MAX {
            now + 1000 * seconds
        } else {
            u64::MAX as int
        },
        now + 1000 * seconds <= u64::MAX ==> ttl_view(
            (st.0, st.1.insert(k, deadline_after(now, seconds))),
            k,
            now,
        ) == if seconds == 0 {
            TtlState::NotFound
        } else {
            TtlState::Seconds(seconds as i64)
        },
{
    let d = deadline_after(now, seconds);
    if now + 1000 * seconds <= u64::MAX && seconds > 0 {
        assert((d - now) / 1000 == seconds as int);
    }
}

/// Restarting from a log replays its writes, deletes and deadlines in order: restoring from
/// the records of a list of changes, cut after at most the first byte of one more record,
/// gives the state after those changes.
pub proof fn lemma_restart_replays_changes(ops: Seq<WalOp>, tail: Seq<u8>)
    requires
        forall|i: int| 0 <= i < ops.len() ==> op_fits(#[trigger] ops[i]),
        tail.len() == 0 || (tail.len() == 1 && tail[0] <= OP_EXPIRE_V2),
    ensures
        restored_view(None, Some(ops_records(ops) + tail)) == Ok::<_, RestoreFault>(
            apply_ops((Map::empty(), Map::empty()), ops),
        ),
{
    lemma_replay_ops(ops, tail, (Map::empty(), Map::empty()));
}

/// Restarting from a log whose last record a crash cut short anywhere after its operation
/// byte replays the complete records before it, of either kind, in order.
pub proof fn lemma_restart_replays_torn(ops: Seq<WalOp>, last: WalOp, n: int)
    requires
        forall|i: int| 0 <= i < ops.len() ==> op_fits(#[trigger] ops[i]),
        op_fits(last),
        1 <= n < op_record(last).len(),
    ensures
        restored_view(None, Some(ops_records(ops) + op_record(last).take(n))) == Ok::<_, RestoreFault>(
            apply_ops((Map::empty(), Map::empty()), ops),
        ),
{
    lemma_replay_ops_torn(ops, last, n, (Map::empty(), Map::empty()));
}

} // verus!

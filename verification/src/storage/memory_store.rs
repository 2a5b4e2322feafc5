use vstd::prelude::*;
use crate::assoc_map::{distinct_keys, lemma_map_of, map_of};
use crate::clock::now_unix_ms;
use crate::key_codec::{KeyEncoding, KeyModel};
use crate::storage::reconcile::KvView;
use crate::storage::snapshot::entry_views;
use crate::storage::wal_log::{ExpMap, ExpView};
use crate::storage::wal_store::{deadline_after, expired_keys, ttl_view};
use crate::storage::{
    zero_stats, CacheCapacityEngine, CachePolicyEngine, ConsistencyEngine, ConsistencyRepairEngine,
    DiskReadEngine, DurabilityEngine, EngineStats, FaultInjectionEngine, RangeReadEngine,
    RepairControlEngine, StoragePathIntrospection, StorageStatsIntrospection, TtlEngine, TtlState,
};
use crate::text::copy_range;

verus! {

/// Whether a list of pairs holds `k`.
pub open spec fn has_key(s: Seq<(KeyModel, Seq<u8>)>, k: KeyModel) -> bool {
    exists|i: int| 0 <= i < s.len() && s[i].0 == k
}

/// Where a list of pairs holds `k`.
pub open spec fn key_index(s: Seq<(KeyModel, Seq<u8>)>, k: KeyModel) -> int {
    choose|i: int| 0 <= i < s.len() && s[i].0 == k
}

/// The list without its pair for `k`, if it has one.
pub open spec fn without_key(s: Seq<(KeyModel, Seq<u8>)>, k: KeyModel) -> Seq<(KeyModel, Seq<u8>)> {
    if has_key(s, k) {
        s.remove(key_index(s, k))
    } else {
        s
    }
}

/// How many of the oldest entries a bound of `max` keys (0: no bound) drops from `len`.
pub open spec fn overflow(len: nat, max: usize) -> nat {
    if max > 0 && len > max {
        (len - max) as nat
    } else {
        0
    }
}

/// The list after dropping its oldest entries beyond a bound of `max` keys.
pub open spec fn trim_oldest(s: Seq<(KeyModel, Seq<u8>)>, max: usize) -> Seq<(KeyModel, Seq<u8>)> {
    s.skip(overflow(s.len(), max) as int)
}

/// The keys of a list of pairs.
pub open spec fn model_keys(s: Seq<(KeyModel, Seq<u8>)>) -> Set<KeyModel> {
    Set::new(|k: KeyModel| has_key(s, k))
}

/// `n` more, wrapping at the top.
pub open spec fn add_wrapping(x: u64, n: nat) -> u64 {
    ((x + n) % 0x1_0000_0000_0000_0000) as u64
}

/// The deadlines of the keys that a list still holds.
pub open spec fn keep_deadlines(x: ExpView, s: Seq<(KeyModel, Seq<u8>)>) -> ExpView {
    x.restrict(model_keys(s))
}

/// The map a list of pairs stands for, later pairs winning.
pub open spec fn list_map(s: Seq<(KeyModel, Seq<u8>)>) -> KvView
    decreases s.len(),
{
    if s.len() == 0 {
        Map::empty()
    } else {
        list_map(s.drop_last()).insert(s.last().0, s.last().1)
    }
}

/// The value stored last under `k` in a list of stored pairs, if any.
pub open spec fn stored_value(s: Seq<(KeyEncoding, Vec<u8>)>, k: KeyModel) -> Option<Vec<u8>>
    decreases s.len(),
{
    if s.len() == 0 {
        None
    } else if s.last().0@ == k {
        Some(s.last().1)
    } else {
        stored_value(s.drop_last(), k)
    }
}

/// The value stored last under `k` is the map's value of `k`.
pub proof fn lemma_stored_value(s: Seq<(KeyEncoding, Vec<u8>)>, k: KeyModel)
    ensures
        match stored_value(s, k) {
            Some(v) => map_of(s).contains_key(k) && map_of(s)[k] == v@,
            None => !map_of(s).contains_key(k),
        },
    decreases s.len(),
{
    if s.len() > 0 {
        lemma_stored_value(s.drop_last(), k);
    }
}

/// With each key once, the value stored under the key of the `i`th pair is that pair's.
proof fn lemma_stored_at(s: Seq<(KeyEncoding, Vec<u8>)>, i: int)
    requires
        distinct_keys(s),
        0 <= i < s.len(),
    ensures
        stored_value(s, s[i].0@) == Some(s[i].1),
    decreases s.len(),
{
    if i < s.len() - 1 {
        assert(s[i].0@ != s[s.len() - 1].0@);
        assert(s.drop_last()[i] == s[i]);
        lemma_stored_at(s.drop_last(), i);
    }
}

pub proof fn lemma_list_map_views(e: Seq<(KeyEncoding, Vec<u8>)>)
    ensures
        list_map(entry_views(e)) == map_of(e),
    decreases e.len(),
{
    if e.len() > 0 {
        assert(entry_views(e.drop_last()) =~= entry_views(e).drop_last());
        lemma_list_map_views(e.drop_last());
    }
}

proof fn lemma_key_index(s: Seq<(KeyEncoding, Vec<u8>)>, i: int)
    requires
        distinct_keys(s),
        0 <= i < s.len(),
    ensures
        has_key(entry_views(s), s[i].0@),
        key_index(entry_views(s), s[i].0@) == i,
{
    let v = entry_views(s);
    assert(v[i].0 == s[i].0@);
    let j = key_index(v, s[i].0@);
    assert(v[j].0 == s[j].0@);
}

/// An in-memory cache of keys and values, with deadlines for expiring keys and an optional
/// bound on its number of keys. The pairs are kept from the least to the most recently
/// used; when the bound is passed, the least recently used go first.
pub struct LruCache {
    entries: Vec<(KeyEncoding, Vec<u8>)>,
    expires: ExpMap,
    max_keys: usize,
    evictions: u64,
}

impl LruCache {
    pub closed spec fn wf(&self) -> bool {
        &&& distinct_keys(self.entries@)
        &&& self.expires.wf()
        &&& self.expires@.dom().subset_of(model_keys(entry_views(self.entries@)))
        &&& (self.max_keys == 0 || self.entries@.len() <= self.max_keys)
    }

    /// The pairs, least recently used first.
    pub closed spec fn lru(&self) -> Seq<(KeyModel, Seq<u8>)> {
        entry_views(self.entries@)
    }

    /// The map of keys to values.
    pub closed spec fn kv(&self) -> KvView {
        map_of(self.entries@)
    }
    /// The value stored under `k`, if any.
    pub closed spec fn stored(&self, k: KeyModel) -> Option<Vec<u8>> {
        stored_value(self.entries@, k)
    }

    /// The pairs as they are stored.
    pub closed spec fn entries_seq(&self) -> Seq<(KeyEncoding, Vec<u8>)> {
        self.entries@
    }

    /// The map and the list are both read off the stored pairs.
    pub proof fn lemma_entries_seq(&self)
        ensures
            self.kv() == map_of(self.entries_seq()),
            self.lru() == entry_views(self.entries_seq()),
            self.kv() == list_map(self.lru()),
    {
        lemma_list_map_views(self.entries@);
    }

    pub closed spec fn deadlines(&self) -> ExpView {
        self.expires@
    }

    /// The bound on the number of keys; 0 for none.
    pub closed spec fn max_keys_spec(&self) -> usize {
        self.max_keys
    }

    /// How many keys the bound has evicted.
    pub closed spec fn evictions_spec(&self) -> u64 {
        self.evictions
    }

    /// The map holds exactly the pairs of the list, which has each key once.
    pub proof fn lemma_kv(&self)
        requires
            self.wf(),
        ensures
            forall|i: int, j: int|
                0 <= i < j < self.lru().len() ==> #[trigger] self.lru()[i].0 != #[trigger] self.lru()[j].0,
            forall|k: KeyModel| #[trigger] self.kv().contains_key(k) <==> has_key(self.lru(), k),
            forall|i: int| 0 <= i < self.lru().len() ==> #[trigger] self.kv()[self.lru()[i].0] == self.lru()[i].1,
            self.kv().len() == self.lru().len(),
            self.kv().dom().finite(),
            self.deadlines().dom().subset_of(self.kv().dom()),
    {
        lemma_map_of(self.entries@);
        let v = self.lru();
        assert forall|i: int, j: int| 0 <= i < j < v.len() implies #[trigger] v[i].0 != #[trigger] v[j].0 by {
            assert(v[i].0 == self.entries@[i].0@ && v[j].0 == self.entries@[j].0@);
        }
        assert forall|k: KeyModel| #[trigger] self.kv().contains_key(k) <==> has_key(v, k) by {
            if has_key(v, k) {
                let i = choose|i: int| 0 <= i < v.len() && v[i].0 == k;
                assert(self.entries@[i].0@ == k);
            }
            if self.kv().contains_key(k) {
                let i = choose|i: int| 0 <= i < self.entries@.len() && self.entries@[i].0@ == k;
                assert(v[i].0 == k);
            }
        }
        assert forall|k: KeyModel| self.deadlines().contains_key(k) implies self.kv().contains_key(k) by {
            assert(model_keys(v).contains(k));
        }
    }

    /// An empty cache without a bound.
    pub fn new() -> (r: LruCache)
        ensures
            r.wf(),
            r.lru().len() == 0,
            r.deadlines() == Map::<KeyModel, u64>::empty(),
            r.max_keys_spec() == 0,
            r.evictions_spec() == 0,
    {
        let r = LruCache { entries: Vec::new(), expires: ExpMap::new(), max_keys: 0, evictions: 0 };
        proof {
            assert(r.expires@.dom() =~= Set::empty());
        }
        r
    }

    /// Where the pairs hold `key`.
    fn find(&self, key: &KeyEncoding) -> (r: Option<usize>)
        requires
            self.wf(),
        ensures
            match r {
                Some(i) => i < self.lru().len() && has_key(self.lru(), key@) && key_index(
                    self.lru(),
                    key@,
                ) == i,
                None => !has_key(self.lru(), key@),
            },
    {
        let mut i: usize = 0;
        while i < self.entries.len()
            invariant
                i <= self.entries@.len(),
                self.wf(),
                forall|j: int| 0 <= j < i ==> (#[trigger] self.entries@[j]).0@ != key@,
            decreases self.entries@.len() - i,
        {
            if self.entries[i].0.same_key(key) {
                proof {
                    lemma_key_index(self.entries@, i as int);
                }
                return Some(i);
            }
            i = i + 1;
        }
        proof {
            if has_key(self.lru(), key@) {
                let j = choose|j: int| 0 <= j < self.lru().len() && self.lru()[j].0 == key@;
                assert(self.entries@[j].0@ == key@);
            }
        }
        None
    }

    /// Drops the least recently used pairs beyond the bound, with their deadlines, counting
    /// them as evictions.
    fn evict_overflow(&mut self)
        requires
            distinct_keys(old(self).entries@),
            old(self).expires.wf(),
            old(self).expires@.dom().subset_of(model_keys(entry_views(old(self).entries@))),
        ensures
            final(self).wf(),
            final(self).lru() == trim_oldest(old(self).lru(), old(self).max_keys),
            final(self).deadlines() == keep_deadlines(old(self).deadlines(), final(self).lru()),
            final(self).max_keys_spec() == old(self).max_keys_spec(),
            final(self).evictions_spec() == add_wrapping(
                old(self).evictions_spec(),
                overflow(old(self).lru().len(), old(self).max_keys),
            ),
    {
        let ghost s0 = self.lru();
        let ghost x0 = self.expires@;
        let ghost e0 = self.evictions;
        let ghost n = overflow(s0.len(), self.max_keys);
        let len0 = self.entries.len();
        let mut dropped: usize = 0;
        while self.max_keys > 0 && self.entries.len() > self.max_keys
            invariant
                self.max_keys == old(self).max_keys,
                n == overflow(s0.len(), self.max_keys),
                dropped <= n,
                s0.len() == len0,
                self.entries@.len() == s0.len() - dropped,
                self.lru() == s0.skip(dropped as int),
                distinct_keys(self.entries@),
                self.expires.wf(),
                self.expires@ == keep_deadlines(x0, self.lru()),
                x0.dom().subset_of(model_keys(s0)),
                self.evictions == add_wrapping(e0, dropped as nat),
                !(self.max_keys > 0 && self.entries@.len() > self.max_keys) ==> dropped == n,
            decreases self.entries@.len(),
        {
            proof {
                assert(s0.len() >= self.entries@.len());
                assert(dropped < n);
            }
            let ghost before = self.entries@;
            let ghost lru_before = self.lru();
            let (k, _v) = self.entries.remove(0);
            self.expires.remove(&k);
            self.evictions = self.evictions.wrapping_add(1);
            dropped = dropped + 1;
            proof {
                assert(self.entries@ =~= before.drop_first());
                assert(self.lru() =~= lru_before.drop_first());
                assert(s0.skip(dropped - 1).drop_first() =~= s0.skip(dropped as int));
                assert forall|a: int, b: int| 0 <= a < b < self.entries@.len() implies #[trigger] self.entries@[a].0@
                    != #[trigger] self.entries@[b].0@ by {
                    assert(self.entries@[a] == before[a + 1] && self.entries@[b] == before[b + 1]);
                }
                assert(!has_key(self.lru(), k@)) by {
                    if has_key(self.lru(), k@) {
                        let i = choose|i: int| 0 <= i < self.lru().len() && self.lru()[i].0 == k@;
                        assert(self.entries@[i] == before[i + 1]);
                    }
                }
                assert forall|kk: KeyModel| model_keys(entry_views(before)).contains(kk) && kk != k@
                    implies model_keys(self.lru()).contains(kk) by {
                    let i = choose|i: int| 0 <= i < before.len() && entry_views(before)[i].0 == kk;
                    assert(i != 0);
                    assert(self.lru()[i - 1].0 == kk);
                }
                assert forall|kk: KeyModel| model_keys(self.lru()).contains(kk) implies model_keys(
                    entry_views(before),
                ).contains(kk) by {
                    let i = choose|i: int| 0 <= i < self.lru().len() && self.lru()[i].0 == kk;
                    assert(entry_views(before)[i + 1].0 == kk);
                }
                assert(self.expires@ =~= keep_deadlines(x0, self.lru()));
                assert(self.evictions == add_wrapping(e0, dropped as nat));
            }
        }
        proof {
            assert forall|kk: KeyModel| self.expires@.contains_key(kk) implies model_keys(
                entry_views(self.entries@),
            ).contains(kk) by {}
        }
    }

    /// The map after removing `k` from the list is the map without `k`.
    proof fn lemma_kv_without(a: &LruCache, b: &LruCache, k: KeyModel)
        requires
            a.wf(),
            b.wf(),
            b.lru() == without_key(a.lru(), k),
        ensures
            b.kv() == a.kv().remove(k),
    {
        a.lemma_kv();
        b.lemma_kv();
        let s = a.lru();
        let t = b.lru();
        if has_key(s, k) {
            let i = key_index(s, k);
            assert forall|j: KeyModel| #[trigger] b.kv().contains_key(j) == a.kv().remove(k).contains_key(j) by {
                if has_key(t, j) {
                    let x = choose|x: int| 0 <= x < t.len() && t[x].0 == j;
                    let y = if x < i { x } else { x + 1 };
                    assert(t[x] == s[y]);
                    assert(y != i);
                }
                if has_key(s, j) && j != k {
                    let y = choose|y: int| 0 <= y < s.len() && s[y].0 == j;
                    assert(y != i);
                    let x = if y < i { y } else { y - 1 };
                    assert(t[x] == s[y]);
                }
            }
            assert forall|j: KeyModel| #[trigger] b.kv().contains_key(j) implies b.kv()[j] == a.kv()[j] by {
                let x = choose|x: int| 0 <= x < t.len() && t[x].0 == j;
                let y = if x < i { x } else { x + 1 };
                assert(t[x] == s[y]);
            }
        } else {
            assert forall|j: KeyModel| #[trigger] b.kv().contains_key(j) == a.kv().remove(k).contains_key(j) by {
                if has_key(t, j) {
                    let x = choose|x: int| 0 <= x < t.len() && t[x].0 == j;
                    assert(j != k);
                }
            }
            assert forall|j: KeyModel| #[trigger] b.kv().contains_key(j) implies b.kv()[j] == a.kv()[j] by {
                let x = choose|x: int| 0 <= x < t.len() && t[x].0 == j;
            }
        }
        assert(b.kv() =~= a.kv().remove(k));
    }

    /// After a write of `k`, the map holds `k` with its value and otherwise only old pairs;
    /// when nothing is evicted it is the old map with the write.
    proof fn lemma_kv_after_set(a: &LruCache, b: &LruCache, k: KeyModel, v: Seq<u8>)
        requires
            a.wf(),
            b.wf(),
            b.lru() == trim_oldest(without_key(a.lru(), k).push((k, v)), a.max_keys),
        ensures
            b.kv().contains_key(k) && b.kv()[k] == v,
            forall|j: KeyModel|
                #[trigger] b.kv().contains_key(j) && j != k ==> a.kv().contains_key(j) && b.kv()[j]
                    == a.kv()[j],
            has_key(a.lru(), k) ==> overflow(without_key(a.lru(), k).len() + 1, a.max_keys) == 0,
            overflow(without_key(a.lru(), k).len() + 1, a.max_keys) == 0 ==> b.kv() == a.kv().insert(
                k,
                v,
            ),
    {
        a.lemma_kv();
        b.lemma_kv();
        let s = a.lru();
        let w = without_key(s, k);
        let f = w.push((k, v));
        let n = overflow(f.len(), a.max_keys) as int;
        let t = b.lru();
        assert(t =~= f.skip(n));
        // positions of w in s
        assert forall|x: int| 0 <= x < w.len() implies has_key(s, #[trigger] w[x].0) && w[x].0 != k
            && a.kv()[w[x].0] == w[x].1 by {
            if has_key(s, k) {
                let i = key_index(s, k);
                let y = if x < i { x } else { x + 1 };
                assert(w[x] == s[y]);
                assert(y != i);
            } else {
                assert(w[x] == s[x]);
            }
        }
        assert(n < f.len());
        assert(t[t.len() - 1] == (k, v));
        assert(has_key(t, k));
        assert forall|j: KeyModel| #[trigger] b.kv().contains_key(j) && j != k implies a.kv().contains_key(j)
            && b.kv()[j] == a.kv()[j] by {
            let x = choose|x: int| 0 <= x < t.len() && t[x].0 == j;
            assert(t[x] == f[x + n]);
            assert(x + n < w.len());
            assert(f[x + n] == w[x + n]);
        }
        if has_key(s, k) {
            assert(w.len() == s.len() - 1);
        }
        if n == 0 {
            assert forall|j: KeyModel| #[trigger] b.kv().contains_key(j) == a.kv().insert(k, v).contains_key(j) by {
                if a.kv().contains_key(j) && j != k {
                    let y = choose|y: int| 0 <= y < s.len() && s[y].0 == j;
                    if has_key(s, k) {
                        let i = key_index(s, k);
                        assert(y != i);
                        let x = if y < i { y } else { y - 1 };
                        assert(w[x] == s[y]);
                        assert(t[x] == w[x]);
                    } else {
                        assert(w[y] == s[y]);
                        assert(t[y] == w[y]);
                    }
                }
            }
            assert(b.kv() =~= a.kv().insert(k, v));
        }
    }

    /// Moves the pair at `i` to the most recently used end.
    fn touch(&mut self, i: usize)
        requires
            old(self).wf(),
            i < old(self).lru().len(),
        ensures
            final(self).wf(),
            final(self).lru() == old(self).lru().remove(i as int).push(old(self).lru()[i as int]),
            final(self).kv() == old(self).kv(),
            final(self).deadlines() == old(self).deadlines(),
            final(self).max_keys_spec() == old(self).max_keys_spec(),
            final(self).evictions_spec() == old(self).evictions_spec(),
    {
        let ghost before = self.entries@;
        let e = self.entries.remove(i);
        self.entries.push(e);
        proof {
            let after = self.entries@;
            assert(after =~= before.remove(i as int).push(before[i as int]));
            assert(self.lru() =~= entry_views(before).remove(i as int).push(entry_views(before)[i as int]));
            assert forall|a: int, b: int| 0 <= a < b < after.len() implies #[trigger] after[a].0@
                != #[trigger] after[b].0@ by {
                let a2 = if a < i { a } else if a < after.len() - 1 { a + 1 } else { i as int };
                let b2 = if b < i { b } else if b < after.len() - 1 { b + 1 } else { i as int };
                assert(after[a] == before[a2] && after[b] == before[b2]);
            }
            lemma_map_of(before);
            lemma_map_of(after);
            assert forall|k: KeyModel| #[trigger] map_of(after).contains_key(k) == map_of(before).contains_key(k) by {
                if map_of(before).contains_key(k) {
                    let j = choose|j: int| 0 <= j < before.len() && before[j].0@ == k;
                    let j2 = if j < i { j } else if j == i { after.len() - 1 } else { j - 1 };
                    assert(after[j2] == before[j]);
                }
                if map_of(after).contains_key(k) {
                    let j = choose|j: int| 0 <= j < after.len() && after[j].0@ == k;
                    let j2 = if j < i { j } else if j < after.len() - 1 { j + 1 } else { i as int };
                    assert(after[j] == before[j2]);
                }
            }
            assert forall|k: KeyModel| #[trigger] map_of(after).contains_key(k) implies map_of(after)[k] == map_of(before)[k] by {
                let j = choose|j: int| 0 <= j < after.len() && after[j].0@ == k;
                let j2 = if j < i { j } else if j < after.len() - 1 { j + 1 } else { i as int };
                assert(after[j] == before[j2]);
            }
            assert(map_of(after) =~= map_of(before));
            assert forall|k: KeyModel| model_keys(entry_views(before)).contains(k) implies model_keys(
                entry_views(after),
            ).contains(k) by {
                let j = choose|j: int| 0 <= j < before.len() && entry_views(before)[j].0 == k;
                let j2 = if j < i { j } else if j == i { after.len() - 1 } else { j - 1 };
                assert(after[j2] == before[j]);
                assert(entry_views(after)[j2].0 == k);
            }
        }
    }

    /// Removes the pair at `i` and its deadline.
    fn drop_at(&mut self, i: usize) -> (r: Vec<u8>)
        requires
            old(self).wf(),
            i < old(self).lru().len(),
        ensures
            final(self).wf(),
            final(self).lru() == old(self).lru().remove(i as int),
            final(self).deadlines() == old(self).deadlines().remove(old(self).lru()[i as int].0),
            r@ == old(self).lru()[i as int].1,
            r == old(self).entries_seq()[i as int].1,
            final(self).max_keys_spec() == old(self).max_keys_spec(),
            final(self).evictions_spec() == old(self).evictions_spec(),
    {
        let ghost before = self.entries@;
        let (k, v) = self.entries.remove(i);
        self.expires.remove(&k);
        proof {
            let after = self.entries@;
            assert(self.lru() =~= entry_views(before).remove(i as int));
            assert forall|a: int, b: int| 0 <= a < b < after.len() implies #[trigger] after[a].0@
                != #[trigger] after[b].0@ by {
                let a2 = if a < i { a } else { a + 1 };
                let b2 = if b < i { b } else { b + 1 };
                assert(after[a] == before[a2] && after[b] == before[b2]);
            }
            assert forall|kk: KeyModel| self.expires@.contains_key(kk) implies model_keys(
                entry_views(after),
            ).contains(kk) by {
                assert(model_keys(entry_views(before)).contains(kk));
                let j = choose|j: int| 0 <= j < before.len() && entry_views(before)[j].0 == kk;
                assert(j != i);
                let j2 = if j < i { j } else { j - 1 };
                assert(after[j2] == before[j]);
                assert(entry_views(after)[j2].0 == kk);
            }
        }
        v
    }

    /// Sets `key` to `value` as the most recently used pair, clearing its deadline, then
    /// evicts the least recently used pairs beyond the bound. It cannot fail.
    pub fn set(&mut self, key: KeyEncoding, value: Vec<u8>) -> (r: Result<(), std::io::Error>)
        requires
            old(self).wf(),
        ensures
            r is Ok,
            final(self).wf(),
            final(self).lru() == trim_oldest(
                without_key(old(self).lru(), key@).push((key@, value@)),
                old(self).max_keys_spec(),
            ),
            final(self).deadlines() == keep_deadlines(
                old(self).deadlines().remove(key@),
                final(self).lru(),
            ),
            final(self).max_keys_spec() == old(self).max_keys_spec(),
            final(self).evictions_spec() == add_wrapping(
                old(self).evictions_spec(),
                overflow(without_key(old(self).lru(), key@).len() + 1, old(self).max_keys_spec()),
            ),
            final(self).kv().contains_key(key@) && final(self).kv()[key@] == value@,
            forall|j: KeyModel|
                #[trigger] final(self).kv().contains_key(j) && j != key@ ==> old(self).kv().contains_key(j)
                    && final(self).kv()[j] == old(self).kv()[j],
            old(self).kv().contains_key(key@) ==> final(self).kv() == old(self).kv().insert(
                key@,
                value@,
            ),
            overflow(without_key(old(self).lru(), key@).len() + 1, old(self).max_keys_spec()) == 0
                ==> final(self).kv() == old(self).kv().insert(key@, value@),
    {
        proof {
            self.lemma_kv();
        }
        match self.find(&key) {
            Some(i) => {
                self.drop_at(i);
            },
            None => {},
        }
        let ghost mid = self.entries@;
        proof {
            assert(self.lru() == without_key(old(self).lru(), key@));
            assert(self.deadlines() == old(self).deadlines().remove(key@)) by {
                if !has_key(old(self).lru(), key@) {
                    assert(!old(self).deadlines().contains_key(key@)) by {
                        if old(self).deadlines().contains_key(key@) {
                            assert(model_keys(old(self).lru()).contains(key@));
                        }
                    }
                    assert(old(self).deadlines().remove(key@) =~= old(self).deadlines());
                }
            }
            assert(!has_key(self.lru(), key@)) by {
                if has_key(old(self).lru(), key@) {
                    old(self).lemma_kv();
                    let i = key_index(old(self).lru(), key@);
                    if has_key(self.lru(), key@) {
                        let j = choose|j: int| 0 <= j < self.lru().len() && self.lru()[j].0 == key@;
                        let j2 = if j < i { j } else { j + 1 };
                        assert(old(self).lru()[j2].0 == key@);
                    }
                }
            }
        }
        let ghost kv = key@;
        let ghost vv = value@;
        self.entries.push((key, value));
        proof {
            let after = self.entries@;
            assert(self.lru() =~= without_key(old(self).lru(), kv).push((kv, vv)));
            assert forall|a: int, b: int| 0 <= a < b < after.len() implies #[trigger] after[a].0@
                != #[trigger] after[b].0@ by {
                if b == after.len() - 1 {
                    assert(after[a] == mid[a]);
                    assert(entry_views(mid)[a].0 == mid[a].0@);
                }
            }
            assert forall|kk: KeyModel| self.expires@.contains_key(kk) implies model_keys(
                entry_views(after),
            ).contains(kk) by {
                assert(model_keys(entry_views(mid)).contains(kk));
                let j = choose|j: int| 0 <= j < mid.len() && entry_views(mid)[j].0 == kk;
                assert(after[j] == mid[j]);
                assert(entry_views(after)[j].0 == kk);
            }
        }
        self.evict_overflow();
        proof {
            let full = without_key(old(self).lru(), kv).push((kv, vv));
            assert(keep_deadlines(keep_deadlines(old(self).deadlines().remove(kv), full), self.lru())
                =~= keep_deadlines(old(self).deadlines().remove(kv), self.lru())) by {
                assert forall|kk: KeyModel| model_keys(self.lru()).contains(kk) implies model_keys(
                    full,
                ).contains(kk) by {
                    let j = choose|j: int| 0 <= j < self.lru().len() && self.lru()[j].0 == kk;
                    let n = overflow(full.len(), old(self).max_keys);
                    assert(self.lru()[j] == full[j + n]);
                }
            }
            assert(old(self).deadlines().remove(kv).dom().subset_of(model_keys(full))) by {
                assert forall|kk: KeyModel| old(self).deadlines().remove(kv).contains_key(kk) implies model_keys(
                    full,
                ).contains(kk) by {
                    assert(model_keys(entry_views(mid)).contains(kk));
                    let j = choose|j: int| 0 <= j < mid.len() && entry_views(mid)[j].0 == kk;
                    assert(full[j].0 == kk);
                }
            }
            assert(keep_deadlines(old(self).deadlines().remove(kv), full) =~= old(self).deadlines().remove(kv));
            LruCache::lemma_kv_after_set(&*old(self), &*self, kv, vv);
        }
        Ok(())
    }

    /// The value of `key`, leaving the order of use as it is.
    pub fn get(&self, key: &KeyEncoding) -> (r: Option<Vec<u8>>)
        requires
            self.wf(),
        ensures
            match r {
                Some(v) => self.kv().contains_key(key@) && v@ == self.kv()[key@],
                None => !self.kv().contains_key(key@),
            },
    {
        proof {
            self.lemma_kv();
        }
        match self.find(key) {
            Some(i) => {
                let v = &self.entries[i].1;
                proof {
                    assert(self.lru()[i as int].1 == v@);
                }
                Some(copy_range(v.as_slice(), 0, v.len()))
            },
            None => None,
        }
    }

    /// The value of `key`, which becomes the most recently used pair.
    pub fn read(&mut self, key: &KeyEncoding) -> (r: Option<Vec<u8>>)
        requires
            old(self).wf(),
        ensures
            final(self).wf(),
            final(self).kv() == old(self).kv(),
            final(self).deadlines() == old(self).deadlines(),
            final(self).max_keys_spec() == old(self).max_keys_spec(),
            final(self).evictions_spec() == old(self).evictions_spec(),
            match r {
                Some(v) => old(self).kv().contains_key(key@) && v@ == old(self).kv()[key@]
                    && final(self).lru() == without_key(old(self).lru(), key@).push(
                    (key@, v@),
                ),
                None => !old(self).kv().contains_key(key@) && final(self).lru() == old(self).lru(),
            },
    {
        proof {
            self.lemma_kv();
        }
        match self.find(key) {
            Some(i) => {
                let v = copy_range(self.entries[i].1.as_slice(), 0, self.entries[i].1.len());
                self.touch(i);
                proof {
                    assert(old(self).lru()[i as int].1 == v@);
                    assert(old(self).lru()[i as int] == (key@, v@));
                }
                Some(v)
            },
            None => None,
        }
    }

    /// Removes `key` and its deadline; gives the value it had.
    pub fn remove(&mut self, key: &KeyEncoding) -> (r: Option<Vec<u8>>)
        requires
            old(self).wf(),
        ensures
            final(self).wf(),
            final(self).lru() == without_key(old(self).lru(), key@),
            final(self).kv() == old(self).kv().remove(key@),
            final(self).deadlines() == old(self).deadlines().remove(key@),
            final(self).max_keys_spec() == old(self).max_keys_spec(),
            final(self).evictions_spec() == old(self).evictions_spec(),
            match r {
                Some(v) => old(self).kv().contains_key(key@) && v@ == old(self).kv()[key@],
                None => !old(self).kv().contains_key(key@),
            },
            r == old(self).stored(key@),
    {
        proof {
            self.lemma_kv();
            lemma_stored_value(self.entries@, key@);
        }
        match self.find(key) {
            Some(i) => {
                proof {
                    lemma_stored_at(self.entries@, i as int);
                }
                let v = self.drop_at(i);
                proof {
                    LruCache::lemma_kv_without(&*old(self), &*self, key@);
                }
                Some(v)
            },
            None => {
                proof {
                    LruCache::lemma_kv_without(&*old(self), &*self, key@);
                }
                proof {
                    assert(!self.deadlines().contains_key(key@));
                    assert(self.deadlines().remove(key@) =~= self.deadlines());
                }
                None
            },
        }
    }

    /// Removes `key`; whether it was there.
    pub fn delete(&mut self, key: &KeyEncoding) -> (r: bool)
        requires
            old(self).wf(),
        ensures
            final(self).wf(),
            final(self).lru() == without_key(old(self).lru(), key@),
            final(self).deadlines() == old(self).deadlines().remove(key@),
            final(self).max_keys_spec() == old(self).max_keys_spec(),
            final(self).evictions_spec() == old(self).evictions_spec(),
            final(self).kv() == old(self).kv().remove(key@),
            r == old(self).kv().contains_key(key@),
    {
        self.remove(key).is_some()
    }

    pub fn contains_key(&self, key: &KeyEncoding) -> (r: bool)
        requires
            self.wf(),
        ensures
            r == self.kv().contains_key(key@),
    {
        proof {
            self.lemma_kv();
        }
        self.find(key).is_some()
    }

    /// The number of keys.
    pub fn len(&self) -> (r: usize)
        requires
            self.wf(),
        ensures
            r == self.kv().len(),
            r == self.lru().len(),
    {
        proof {
            self.lemma_kv();
        }
        self.entries.len()
    }

    pub fn is_empty(&self) -> (r: bool)
        requires
            self.wf(),
        ensures
            r == (self.kv().len() == 0),
    {
        proof {
            self.lemma_kv();
        }
        self.entries.len() == 0
    }

    /// A copy of every pair, least recently used first.
    pub fn iter(&self) -> (r: Vec<(KeyEncoding, Vec<u8>)>)
        requires
            self.wf(),
        ensures
            entry_views(r@) == self.lru(),
    {
        let mut out: Vec<(KeyEncoding, Vec<u8>)> = Vec::new();
        let mut i: usize = 0;
        while i < self.entries.len()
            invariant
                i <= self.entries@.len(),
                out@.len() == i,
                entry_views(out@) == self.lru().take(i as int),
            decreases self.entries@.len() - i,
        {
            let (k, v) = &self.entries[i];
            let ghost prev = out@;
            out.push((k.copy(), copy_range(v.as_slice(), 0, v.len())));
            proof {
                assert(v@.subrange(0, v@.len() as int) =~= v@);
                assert(self.lru()[i as int] == (k@, v@));
                assert forall|t: int| 0 <= t < i + 1 implies entry_views(out@)[t] == self.lru().take(i + 1)[t] by {
                    if t < i {
                        assert(out@[t] == prev[t]);
                        assert(entry_views(prev)[t] == self.lru().take(i as int)[t]);
                    }
                }
                assert(entry_views(out@) =~= self.lru().take(i + 1));
            }
            i = i + 1;
        }
        proof {
            assert(self.lru().take(self.entries@.len() as int) =~= self.lru());
        }
        out
    }

    /// Removes `key` if its deadline has passed at `now_ms`.
    pub fn purge_if_expired(&mut self, key: &KeyEncoding, now_ms: u64)
        requires
            old(self).wf(),
        ensures
            final(self).wf(),
            if old(self).deadlines().contains_key(key@) && now_ms >= old(self).deadlines()[key@] {
                &&& final(self).lru() == without_key(old(self).lru(), key@)
                &&& final(self).kv() == old(self).kv().remove(key@)
                &&& final(self).deadlines() == old(self).deadlines().remove(key@)
            } else {
                &&& final(self).lru() == old(self).lru()
                &&& final(self).kv() == old(self).kv()
                &&& final(self).deadlines() == old(self).deadlines()
            },
            final(self).max_keys_spec() == old(self).max_keys_spec(),
            final(self).evictions_spec() == old(self).evictions_spec(),
    {
        let expired = match self.expires.get(key) {
            Some(d) => now_ms >= *d,
            None => false,
        };
        if expired {
            self.remove(key);
        }
    }

    /// The value of `key` after purging it if expired, which then becomes the most recently
    /// used pair; and whether the purge removed it.
    pub fn get_with_expiry_flag(&mut self, key: &KeyEncoding, now_ms: u64) -> (r: (
        Option<Vec<u8>>,
        bool,
    ))
        requires
            old(self).wf(),
        ensures
            final(self).wf(),
            final(self).max_keys_spec() == old(self).max_keys_spec(),
            final(self).evictions_spec() == old(self).evictions_spec(),
            r.1 == (old(self).deadlines().contains_key(key@) && now_ms >= old(self).deadlines()[key@]),
            r.1 ==> r.0 is None && final(self).lru() == without_key(old(self).lru(), key@)
                && final(self).deadlines() == old(self).deadlines().remove(key@) && final(self).kv()
                == old(self).kv().remove(key@),
            !r.1 ==> final(self).kv() == old(self).kv(),
            !r.1 ==> final(self).deadlines() == old(self).deadlines() && match r.0 {
                Some(v) => old(self).kv().contains_key(key@) && v@ == old(self).kv()[key@]
                    && final(self).lru() == without_key(old(self).lru(), key@).push((key@, v@)),
                None => !old(self).kv().contains_key(key@) && final(self).lru() == old(self).lru(),
            },
    {
        let expired = match self.expires.get(key) {
            Some(d) => now_ms >= *d,
            None => false,
        };
        if expired {
            self.remove(key);
            (None, true)
        } else {
            (self.read(key), false)
        }
    }

    /// Gives `key` a deadline `seconds` from `now_ms` (saturating) if it is present after
    /// purging it if expired; whether it was.
    pub fn expire(&mut self, key: &KeyEncoding, seconds: u64, now_ms: u64) -> (r: bool)
        requires
            old(self).wf(),
        ensures
            final(self).wf(),
            final(self).max_keys_spec() == old(self).max_keys_spec(),
            final(self).evictions_spec() == old(self).evictions_spec(),
            r == (old(self).kv().contains_key(key@) && !(old(self).deadlines().contains_key(key@)
                && now_ms >= old(self).deadlines()[key@])),
            r ==> final(self).lru() == old(self).lru() && final(self).deadlines() == old(
                self,
            ).deadlines().insert(key@, deadline_after(now_ms, seconds)),
            !r ==> final(self).lru() == without_key(old(self).lru(), key@) && final(self).deadlines()
                == old(self).deadlines().remove(key@),
    {
        proof {
            self.lemma_kv();
        }
        self.purge_if_expired(key, now_ms);
        if !self.contains_key(key) {
            proof {
                self.lemma_kv();
                old(self).lemma_kv();
                if !old(self).kv().contains_key(key@) {
                    assert(!has_key(old(self).lru(), key@));
                    assert(!old(self).deadlines().contains_key(key@));
                    assert(old(self).deadlines().remove(key@) =~= old(self).deadlines());
                }
            }
            return false;
        }
        let ms: u64 = if seconds > u64::MAX / 1000 {
            u64::MAX
        } else {
            seconds * 1000
        };
        let deadline = now_ms.saturating_add(ms);
        proof {
            self.lemma_kv();
        }
        self.expires.insert(key.copy(), deadline);
        proof {
            assert(model_keys(self.lru()).contains(key@));
        }
        true
    }

    /// The time to live of `key` at `now_ms`, after purging it if expired.
    pub fn ttl(&mut self, key: &KeyEncoding, now_ms: u64) -> (r: TtlState)
        requires
            old(self).wf(),
        ensures
            final(self).wf(),
            final(self).max_keys_spec() == old(self).max_keys_spec(),
            final(self).evictions_spec() == old(self).evictions_spec(),
            if old(self).deadlines().contains_key(key@) && now_ms >= old(self).deadlines()[key@] {
                &&& final(self).lru() == without_key(old(self).lru(), key@)
                &&& final(self).deadlines() == old(self).deadlines().remove(key@)
                &&& r == TtlState::NotFound
            } else {
                &&& final(self).lru() == old(self).lru()
                &&& final(self).deadlines() == old(self).deadlines()
                &&& r == ttl_view((old(self).kv(), old(self).deadlines()), key@, now_ms)
            },
    {
        self.purge_if_expired(key, now_ms);
        proof {
            self.lemma_kv();
            old(self).lemma_kv();
        }
        if !self.contains_key(key) {
            return TtlState::NotFound;
        }
        match self.expires.get(key) {
            None => TtlState::NoExpire,
            Some(d) => {
                if *d <= now_ms {
                    TtlState::NotFound
                } else {
                    TtlState::Seconds(((*d - now_ms) / 1000) as i64)
                }
            },
        }
    }

    /// Sets the bound on the number of keys (0 for none) and evicts the least recently used
    /// pairs beyond it.
    pub fn set_cache_max_keys(&mut self, max_keys: usize)
        requires
            old(self).wf(),
        ensures
            final(self).wf(),
            final(self).max_keys_spec() == max_keys,
            final(self).lru() == trim_oldest(old(self).lru(), max_keys),
            final(self).deadlines() == keep_deadlines(old(self).deadlines(), final(self).lru()),
            final(self).evictions_spec() == add_wrapping(
                old(self).evictions_spec(),
                overflow(old(self).lru().len(), max_keys),
            ),
    {
        self.max_keys = max_keys;
        self.evict_overflow();
    }

    pub fn cache_max_keys(&self) -> (r: usize)
        ensures
            r == self.max_keys_spec(),
    {
        self.max_keys
    }

    pub fn cache_current_keys(&self) -> (r: usize)
        requires
            self.wf(),
        ensures
            r == self.lru().len(),
    {
        self.entries.len()
    }

    pub fn cache_evictions(&self) -> (r: u64)
        ensures
            r == self.evictions_spec(),
    {
        self.evictions
    }

    /// Empties the cache, keeping its bound and eviction count.
    pub fn clear_cache(&mut self)
        ensures
            final(self).wf(),
            final(self).lru().len() == 0,
            final(self).deadlines() == Map::<KeyModel, u64>::empty(),
            final(self).max_keys_spec() == old(self).max_keys_spec(),
            final(self).evictions_spec() == old(self).evictions_spec(),
    {
        self.entries = Vec::new();
        self.expires.clear();
        proof {
            assert(self.expires@.dom() =~= Set::empty());
        }
    }

    /// Removes every key whose deadline has passed at `now_ms`; the others keep their order.
    pub fn purge_all_expired(&mut self, now_ms: u64)
        requires
            old(self).wf(),
        ensures
            final(self).wf(),
            final(self).lru() == old(self).lru().filter(
                |p: (KeyModel, Seq<u8>)| !expired_keys(old(self).deadlines(), now_ms).contains(p.0),
            ),
            final(self).deadlines() == old(self).deadlines().remove_keys(
                expired_keys(old(self).deadlines(), now_ms),
            ),
            final(self).max_keys_spec() == old(self).max_keys_spec(),
            final(self).evictions_spec() == old(self).evictions_spec(),
    {
        let ghost x0 = self.expires@;
        let ghost e = expired_keys(x0, now_ms);
        let ghost pred = |p: (KeyModel, Seq<u8>)| !e.contains(p.0);
        let mut old_entries: Vec<(KeyEncoding, Vec<u8>)> = Vec::new();
        std::mem::swap(&mut old_entries, &mut self.entries);
        let ghost lv = entry_views(old_entries@);
        let mut kept: Vec<(KeyEncoding, Vec<u8>)> = Vec::new();
        let mut i: usize = 0;
        while i < old_entries.len()
            invariant
                i <= old_entries@.len(),
                lv == entry_views(old_entries@),
                distinct_keys(old_entries@),
                self.expires.wf(),
                x0.dom().subset_of(model_keys(lv)),
                e == expired_keys(x0, now_ms),
                pred == (|p: (KeyModel, Seq<u8>)| !e.contains(p.0)),
                self.max_keys == old(self).max_keys,
                self.evictions == old(self).evictions,
                self.max_keys == 0 || old_entries@.len() <= self.max_keys,
                entry_views(kept@) == lv.take(i as int).filter(pred),
                kept@.len() <= i,
                forall|t: int| 0 <= t < kept@.len() ==> exists|j: int|
                    0 <= j < i && #[trigger] kept@[t].0@ == old_entries@[j].0@,
                distinct_keys(kept@),
                self.expires@ == x0.remove_keys(e.intersect(model_keys(lv.take(i as int)))),
            decreases old_entries@.len() - i,
        {
            let (k, v) = &old_entries[i];
            let ghost km = k@;
            proof {
                assert(lv[i as int] == (k@, v@));
                assert(lv.take(i + 1).drop_last() =~= lv.take(i as int));
                reveal(Seq::filter);
                assert(!model_keys(lv.take(i as int)).contains(km)) by {
                    let t0 = lv.take(i as int);
                    if model_keys(t0).contains(km) {
                        let j = choose|j: int| 0 <= j < t0.len() && t0[j].0 == km;
                        assert(old_entries@[j].0@ == old_entries@[i as int].0@);
                    }
                }
                let t0 = lv.take(i as int);
                let t1 = lv.take(i + 1);
                assert(model_keys(t1) =~= model_keys(t0).insert(km)) by {
                    assert forall|kk: KeyModel| model_keys(t1).contains(kk) implies model_keys(
                        t0,
                    ).insert(km).contains(kk) by {
                        let j = choose|j: int| 0 <= j < t1.len() && t1[j].0 == kk;
                        if j < i {
                            assert(t0[j].0 == kk);
                        }
                    }
                    assert forall|kk: KeyModel| model_keys(t0).insert(km).contains(kk) implies model_keys(
                        t1,
                    ).contains(kk) by {
                        if kk == km {
                            assert(t1[i as int].0 == kk);
                        } else {
                            let j = choose|j: int| 0 <= j < t0.len() && t0[j].0 == kk;
                            assert(t1[j].0 == kk);
                        }
                    }
                }
            }
            let expired = match self.expires.get(k) {
                Some(d) => now_ms >= *d,
                None => false,
            };
            proof {
                assert(expired == e.contains(km)) by {
                    if x0.contains_key(km) {
                        assert(self.expires@.contains_key(km));
                    }
                }
            }
            if expired {
                self.expires.remove(k);
                proof {
                    reveal(Seq::filter);
                    assert(lv.take(i + 1).last() == lv[i as int]);
                    assert(!pred(lv[i as int]));
                    assert(lv.take(i + 1).filter(pred) == lv.take(i as int).filter(pred));
                    assert(self.expires@ =~= x0.remove_keys(e.intersect(model_keys(lv.take(i + 1)))));
                }
            } else {
                let ghost prev = kept@;
                kept.push((k.copy(), copy_range(v.as_slice(), 0, v.len())));
                proof {
                    assert(v@.subrange(0, v@.len() as int) =~= v@);
                    assert(entry_views(kept@) =~= entry_views(prev).push(lv[i as int]));
                    reveal(Seq::filter);
                    assert(lv.take(i + 1).last() == lv[i as int]);
                    assert(pred(lv[i as int]));
                    assert(lv.take(i + 1).filter(pred) == lv.take(i as int).filter(pred).push(lv[i as int]));
                    assert forall|a: int, b: int| 0 <= a < b < kept@.len() implies #[trigger] kept@[a].0@
                        != #[trigger] kept@[b].0@ by {
                        if b == kept@.len() - 1 {
                            assert(kept@[a] == prev[a]);
                            let j = choose|j: int| 0 <= j < i && prev[a].0@ == old_entries@[j].0@;
                            assert(old_entries@[j].0@ != old_entries@[i as int].0@);
                        } else {
                            assert(kept@[a] == prev[a] && kept@[b] == prev[b]);
                        }
                    }
                    assert forall|t: int| 0 <= t < kept@.len() implies exists|j: int|
                        0 <= j < i + 1 && #[trigger] kept@[t].0@ == old_entries@[j].0@ by {
                        if t < prev.len() {
                            assert(kept@[t] == prev[t]);
                            let j = choose|j: int| 0 <= j < i && prev[t].0@ == old_entries@[j].0@;
                            assert(0 <= j < i + 1);
                        } else {
                            assert(kept@[t].0@ == old_entries@[i as int].0@);
                        }
                    }
                    assert(self.expires@ =~= x0.remove_keys(e.intersect(model_keys(lv.take(i + 1)))));
                }
            }
            i = i + 1;
        }
        self.entries = kept;
        proof {
            assert(lv.take(old_entries@.len() as int) =~= lv);
            assert(e.intersect(model_keys(lv)) =~= e);
            lv.lemma_filter_len(pred);
            assert forall|kk: KeyModel| self.expires@.contains_key(kk) implies model_keys(
                entry_views(self.entries@),
            ).contains(kk) by {
                assert(model_keys(lv).contains(kk));
                let j = choose|j: int| 0 <= j < lv.len() && lv[j].0 == kk;
                assert(pred(lv[j]));
                lv.lemma_filter_contains(pred, j);
                let t = choose|t: int| 0 <= t < lv.filter(pred).len() && lv.filter(pred)[t] == lv[j];
                assert(entry_views(self.entries@)[t].0 == kk);
            }
        }
    }

    /// Every pair, least recently used first, after purging the expired keys.
    pub fn entries(&mut self, now_ms: u64) -> (r: Vec<(KeyEncoding, Vec<u8>)>)
        requires
            old(self).wf(),
        ensures
            final(self).wf(),
            final(self).lru() == old(self).lru().filter(
                |p: (KeyModel, Seq<u8>)| !expired_keys(old(self).deadlines(), now_ms).contains(p.0),
            ),
            final(self).deadlines() == old(self).deadlines().remove_keys(
                expired_keys(old(self).deadlines(), now_ms),
            ),
            final(self).max_keys_spec() == old(self).max_keys_spec(),
            final(self).evictions_spec() == old(self).evictions_spec(),
            entry_views(r@) == final(self).lru(),
    {
        self.purge_all_expired(now_ms);
        self.iter()
    }

    /// The value of the most recently used pair.
    pub fn newest_value(&self) -> (r: &[u8])
        requires
            self.wf(),
            self.lru().len() > 0,
        ensures
            r@ == self.lru().last().1,
    {
        self.entries[self.entries.len() - 1].1.as_slice()
    }
}

/// The bytes a read gave, if any.
pub open spec fn bytes_view(r: Option<&[u8]>) -> Option<Seq<u8>> {
    match r {
        Some(v) => Some(v@),
        None => None,
    }
}

/// A key-value engine held in memory alone: nothing survives the process. It is an
/// `LruCache`, by default without a bound on its keys.
pub struct MemoryStore {
    cache: LruCache,
}

impl MemoryStore {
    #[verifier::type_invariant]
    spec fn inv(self) -> bool {
        self.cache.wf()
    }

    /// The pairs, least recently used first.
    pub closed spec fn lru(&self) -> Seq<(KeyModel, Seq<u8>)> {
        self.cache.lru()
    }

    pub closed spec fn kv(&self) -> KvView {
        self.cache.kv()
    }

    pub closed spec fn deadlines(&self) -> ExpView {
        self.cache.deadlines()
    }

    pub closed spec fn max_keys_spec(&self) -> usize {
        self.cache.max_keys_spec()
    }

    pub closed spec fn evictions_spec(&self) -> u64 {
        self.cache.evictions_spec()
    }

    /// `after` is this store with the keys whose deadline has passed at `now` purged.
    pub open spec fn purged_to(self, after: MemoryStore, now: u64) -> bool {
        &&& after.lru() == self.lru().filter(
            |p: (KeyModel, Seq<u8>)| !expired_keys(self.deadlines(), now).contains(p.0),
        )
        &&& after.deadlines() == self.deadlines().remove_keys(expired_keys(self.deadlines(), now))
        &&& after.max_keys_spec() == self.max_keys_spec()
    }

    /// A read of `k` at `now` that gave `out` and left `after`: a key whose deadline has
    /// passed is purged and reads as absent; a present key reads its value and becomes the
    /// most recently used; an absent key changes nothing.
    pub open spec fn read_to(self, after: MemoryStore, k: KeyModel, now: u64, out: Option<Seq<u8>>) -> bool {
        &&& after.max_keys_spec() == self.max_keys_spec()
        &&& if self.deadlines().contains_key(k) && now >= self.deadlines()[k] {
            &&& out is None
            &&& after.lru() == without_key(self.lru(), k)
            &&& after.deadlines() == self.deadlines().remove(k)
        } else {
            &&& after.deadlines() == self.deadlines()
            &&& match out {
                Some(v) => self.kv().contains_key(k) && v == self.kv()[k] && after.lru()
                    == without_key(self.lru(), k).push((k, v)),
                None => !self.kv().contains_key(k) && after.lru() == self.lru(),
            }
        }
    }

    /// A deadline `seconds` after `now` for `k`, answered `b` and leaving `after`: it is set
    /// exactly when `k` is present and unexpired at `now`; otherwise the key is dropped.
    pub open spec fn expire_to(self, after: MemoryStore, k: KeyModel, now: u64, seconds: u64, b: bool) -> bool {
        &&& b == (self.kv().contains_key(k) && !(self.deadlines().contains_key(k) && now >= self.deadlines()[k]))
        &&& after.max_keys_spec() == self.max_keys_spec()
        &&& b ==> after.lru() == self.lru() && after.deadlines() == self.deadlines().insert(
            k,
            deadline_after(now, seconds),
        )
        &&& !b ==> after.lru() == without_key(self.lru(), k) && after.deadlines() == self.deadlines().remove(k)
    }

    /// The time to live `t` of `k` at `now`, which left `after`: a key whose deadline has
    /// passed is purged and is not found; otherwise nothing changes.
    pub open spec fn ttl_to(self, after: MemoryStore, k: KeyModel, now: u64, t: TtlState) -> bool {
        &&& after.max_keys_spec() == self.max_keys_spec()
        &&& if self.deadlines().contains_key(k) && now >= self.deadlines()[k] {
            &&& after.lru() == without_key(self.lru(), k)
            &&& after.deadlines() == self.deadlines().remove(k)
            &&& t == TtlState::NotFound
        } else {
            &&& after.lru() == self.lru()
            &&& after.deadlines() == self.deadlines()
            &&& t == ttl_view((self.kv(), self.deadlines()), k, now)
        }
    }

    /// Takes the cache out, leaving an empty one.
    fn take_cache(&mut self) -> (c: LruCache)
        ensures
            c == old(self).cache,
            c.wf(),
    {
        proof {
            use_type_invariant(&*self);
        }
        let mut c = LruCache::new();
        std::mem::swap(&mut c, &mut self.cache);
        c
    }

    /// The value stored under `k`, if any.
    pub closed spec fn stored(&self, k: KeyModel) -> Option<Vec<u8>> {
        self.cache.stored(k)
    }

    /// The value stored under `k` is the map's value of `k`, and there is one exactly when
    /// the map holds `k`.
    pub proof fn lemma_stored(&self, k: KeyModel)
        ensures
            match self.stored(k) {
                Some(v) => self.kv().contains_key(k) && self.kv()[k] == v@,
                None => !self.kv().contains_key(k),
            },
    {
        lemma_stored_value(self.cache.entries_seq(), k);
        self.cache.lemma_entries_seq();
    }

    /// The map is the one the list stands for, later pairs winning.
    pub proof fn lemma_views(&self)
        ensures
            self.kv() == list_map(self.lru()),
    {
        self.cache.lemma_entries_seq();
    }

    /// An empty store.
    pub fn new() -> (r: MemoryStore)
        ensures
            r.kv() == Map::<KeyModel, Seq<u8>>::empty(),
            r.lru().len() == 0,
            r.deadlines() == Map::<KeyModel, u64>::empty(),
            r.max_keys_spec() == 0,
            r.evictions_spec() == 0,
    {
        let r = MemoryStore { cache: LruCache::new() };
        proof {
            r.cache.lemma_entries_seq();
            assert(r.kv() =~= Map::<KeyModel, Seq<u8>>::empty());
        }
        r
    }

    /// Sets `key` to `value` (see `LruCache::set`). It cannot fail.
    pub fn set(&mut self, key: KeyEncoding, value: Vec<u8>) -> (r: Result<(), std::io::Error>)
        ensures
            r is Ok,
            final(self).lru() == trim_oldest(
                without_key(old(self).lru(), key@).push((key@, value@)),
                old(self).max_keys_spec(),
            ),
            final(self).deadlines() == keep_deadlines(
                old(self).deadlines().remove(key@),
                final(self).lru(),
            ),
            final(self).max_keys_spec() == old(self).max_keys_spec(),
            final(self).kv().contains_key(key@) && final(self).kv()[key@] == value@,
            forall|j: KeyModel|
                #[trigger] final(self).kv().contains_key(j) && j != key@ ==> old(self).kv().contains_key(j)
                    && final(self).kv()[j] == old(self).kv()[j],
            old(self).kv().contains_key(key@) ==> final(self).kv() == old(self).kv().insert(key@, value@),
            old(self).max_keys_spec() == 0 ==> final(self).kv() == old(self).kv().insert(key@, value@),
    {
        let mut c = self.take_cache();
        let r = c.set(key, value);
        self.cache = c;
        r
    }

    /// The value of `key`.
    pub fn get(&self, key: &KeyEncoding) -> (r: Option<Vec<u8>>)
        ensures
            match r {
                Some(v) => self.kv().contains_key(key@) && v@ == self.kv()[key@],
                None => !self.kv().contains_key(key@),
            },
    {
        proof {
            use_type_invariant(self);
        }
        self.cache.get(key)
    }

    /// Removes `key`; whether it was there.
    pub fn delete(&mut self, key: &KeyEncoding) -> (r: bool)
        ensures
            final(self).lru() == without_key(old(self).lru(), key@),
            final(self).deadlines() == old(self).deadlines().remove(key@),
            final(self).max_keys_spec() == old(self).max_keys_spec(),
            final(self).kv() == old(self).kv().remove(key@),
            r == old(self).kv().contains_key(key@),
    {
        let mut c = self.take_cache();
        let r = c.delete(key);
        self.cache = c;
        r
    }

    pub fn contains_key(&self, key: &KeyEncoding) -> (r: bool)
        ensures
            r == self.kv().contains_key(key@),
    {
        proof {
            use_type_invariant(self);
        }
        self.cache.contains_key(key)
    }

    pub fn len(&self) -> (r: usize)
        ensures
            r == self.kv().len(),
            r == self.lru().len(),
    {
        proof {
            use_type_invariant(self);
        }
        self.cache.len()
    }

    pub fn is_empty(&self) -> (r: bool)
        ensures
            r == (self.kv().len() == 0),
    {
        proof {
            use_type_invariant(self);
        }
        self.cache.is_empty()
    }

    /// A copy of every pair, least recently used first.
    pub fn iter(&self) -> (r: Vec<(KeyEncoding, Vec<u8>)>)
        ensures
            entry_views(r@) == self.lru(),
            r@.len() == self.kv().len(),
            forall|i: int, j: int| 0 <= i < j < r@.len() ==> #[trigger] r@[i].0@ != #[trigger] r@[j].0@,
            forall|i: int|
                0 <= i < r@.len() ==> self.kv().contains_key(#[trigger] r@[i].0@) && self.kv()[r@[i].0@]
                    == r@[i].1@,
            forall|k: KeyModel| #[trigger] self.kv().contains_key(k) ==> exists|i: int| 0 <= i < r@.len() && r@[i].0@ == k,
    {
        proof {
            use_type_invariant(self);
            self.cache.lemma_kv();
        }
        let r = self.cache.iter();
        proof {
            assert forall|i: int| 0 <= i < r@.len() implies self.kv().contains_key(#[trigger] r@[i].0@) && self.kv()[r@[i].0@]
                == r@[i].1@ by {
                assert(self.lru()[i] == entry_views(r@)[i]);
                assert(has_key(self.lru(), r@[i].0@));
            }
            assert forall|i: int, j: int| 0 <= i < j < r@.len() implies #[trigger] r@[i].0@ != #[trigger] r@[j].0@ by {
                assert(self.lru()[i] == entry_views(r@)[i]);
                assert(self.lru()[j] == entry_views(r@)[j]);
            }
            assert forall|k: KeyModel| #[trigger] self.kv().contains_key(k) implies exists|i: int| 0 <= i < r@.len() && r@[i].0@ == k by {
                let i = choose|i: int| 0 <= i < self.lru().len() && self.lru()[i].0 == k;
                assert(self.lru()[i] == entry_views(r@)[i]);
            }
        }
        r
    }
}

impl MemoryStore {
    /// The number of keys, after purging those whose deadline has passed by the clock.
    pub(crate) fn count_live(&mut self) -> (r: usize)
        ensures
            exists|now: u64| #[trigger] old(self).purged_to(*final(self), now),
            r == final(self).kv().len(),
    {
        let now = now_unix_ms();
        let mut c = self.take_cache();
        c.purge_all_expired(now);
        let n = c.len();
        self.cache = c;
        proof {
            assert(old(self).purged_to(*self, now));
        }
        n
    }

    /// The value of `key` after purging it if its deadline has passed by the clock; a hit
    /// makes it the most recently used pair.
    pub(crate) fn read_live(&mut self, key: &KeyEncoding) -> (r: Option<&[u8]>)
        ensures
            exists|now: u64| #[trigger] old(self).read_to(*final(self), key@, now, bytes_view(r)),
    {
        let now = now_unix_ms();
        let mut c = self.take_cache();
        let (v, _) = c.get_with_expiry_flag(key, now);
        self.cache = c;
        match v {
            Some(x) => {
                proof {
                    use_type_invariant(&*self);
                }
                let out = self.cache.newest_value();
                proof {
                    assert(out@ == x@);
                    assert(old(self).read_to(*self, key@, now, bytes_view(Some(out))));
                }
                Some(out)
            },
            None => {
                proof {
                    assert(old(self).read_to(*self, key@, now, bytes_view(None)));
                }
                None
            },
        }
    }

    /// Removes `key`, giving its value if it was there.
    pub(crate) fn take_key(&mut self, key: &KeyEncoding) -> (r: Option<Vec<u8>>)
        ensures
            final(self).lru() == without_key(old(self).lru(), key@),
            final(self).deadlines() == old(self).deadlines().remove(key@),
            final(self).max_keys_spec() == old(self).max_keys_spec(),
            final(self).kv() == old(self).kv().remove(key@),
            match r {
                Some(v) => old(self).kv().contains_key(key@) && v@ == old(self).kv()[key@],
                None => !old(self).kv().contains_key(key@),
            },
            r == old(self).stored(key@),
    {
        let mut c = self.take_cache();
        let r = c.remove(key);
        self.cache = c;
        r
    }
}

impl MemoryStore {
    /// Gives `key` a deadline `seconds` after the clock's now, if it is present and
    /// unexpired then.
    pub(crate) fn expire_live(&mut self, key: &KeyEncoding, seconds: u64) -> (b: bool)
        ensures
            exists|now: u64| #[trigger] old(self).expire_to(*final(self), key@, now, seconds, b),
    {
        let now = now_unix_ms();
        let mut c = self.take_cache();
        let b = c.expire(key, seconds, now);
        self.cache = c;
        proof {
            assert(old(self).expire_to(*self, key@, now, seconds, b));
        }
        b
    }
}

impl TtlEngine for MemoryStore {
    /// Gives `key` a deadline `seconds` after the clock's now, if it is present and unexpired
    /// then; otherwise drops it.
    fn expire(&mut self, key: &KeyEncoding, seconds: u64) -> (r: Result<bool, std::io::Error>)
        ensures
            r is Ok,
            final(self).max_keys_spec() == old(self).max_keys_spec(),
            r->Ok_0 ==> old(self).kv().contains_key(key@) && final(self).lru() == old(self).lru()
                && exists|when: u64|
                final(self).deadlines() == old(self).deadlines().insert(key@, #[trigger] deadline_after(when, seconds))
                    && !(old(self).deadlines().contains_key(key@) && when >= old(self).deadlines()[key@]),
            !r->Ok_0 ==> final(self).lru() == without_key(old(self).lru(), key@) && final(self).deadlines()
                == old(self).deadlines().remove(key@) && (!old(self).kv().contains_key(key@)
                || old(self).deadlines().contains_key(key@)),
    {
        let ghost s0 = *self;
        let b = self.expire_live(key, seconds);
        proof {
            let now = choose|now: u64| #[trigger] s0.expire_to(*self, key@, now, seconds, b);
            assert(old(self).expire_to(*self, key@, now, seconds, b));
        }
        Ok(b)
    }

    /// The time to live of `key` now (see `ttl_to`).
    fn ttl(&mut self, key: &KeyEncoding) -> (r: Result<TtlState, std::io::Error>)
        ensures
            r matches Ok(t) && exists|now: u64| #[trigger] old(self).ttl_to(*final(self), key@, now, t),
    {
        let now = now_unix_ms();
        let mut c = self.take_cache();
        let t = c.ttl(key, now);
        self.cache = c;
        proof {
            assert(old(self).ttl_to(*self, key@, now, t));
        }
        Ok(t)
    }
}

impl CacheCapacityEngine for MemoryStore {
    fn set_cache_max_keys(&mut self, max_keys: usize) -> (r: Result<(), std::io::Error>)
        ensures
            r is Ok,
            final(self).max_keys_spec() == max_keys,
            final(self).lru() == trim_oldest(old(self).lru(), max_keys),
    {
        let mut c = self.take_cache();
        c.set_cache_max_keys(max_keys);
        self.cache = c;
        Ok(())
    }

    fn cache_max_keys(&self) -> (r: Option<usize>)
        ensures
            r == Some(self.max_keys_spec()),
    {
        Some(self.cache.cache_max_keys())
    }

    fn cache_current_keys(&self) -> (r: Option<usize>)
        ensures
            r == Some(self.lru().len() as usize),
    {
        proof {
            use_type_invariant(self);
        }
        Some(self.cache.cache_current_keys())
    }
}

impl StorageStatsIntrospection for MemoryStore {
    /// No counters but the evictions.
    fn stats(&self) -> (r: EngineStats)
        ensures
            r == (EngineStats { cache_evictions: self.evictions_spec(), ..zero_stats() }),
    {
        let mut out = EngineStats::default();
        out.cache_evictions = self.cache.cache_evictions();
        out
    }
}

impl DiskReadEngine for MemoryStore {

}

impl RangeReadEngine for MemoryStore {

}

impl ConsistencyEngine for MemoryStore {

}

impl ConsistencyRepairEngine for MemoryStore {

}

impl RepairControlEngine for MemoryStore {

}

impl FaultInjectionEngine for MemoryStore {

}

impl DurabilityEngine for MemoryStore {

}

impl CachePolicyEngine for MemoryStore {

}

impl StoragePathIntrospection for MemoryStore {

}

} // verus!

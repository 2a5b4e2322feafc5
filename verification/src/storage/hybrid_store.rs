use vstd::prelude::*;
use vstd::utf8::*;
use crate::key_codec::{KeyEncoding, KeyModel};
use crate::assoc_map::map_of;
use crate::storage::io_failure::{io_error, IoFailure};
use crate::storage::memory_store::{has_key, keep_deadlines, list_map, trim_oldest, without_key, LruCache};
use crate::storage::reconcile::{
    apply_action, apply_actions, build_consistency_report, puts_within, mismatch_keys, only_in_cache_keys, only_in_disk_keys,
    plan_repair, report_describes, KvMap, RepairAction,
};
use crate::storage::repair_target::RepairTarget;
use crate::storage::snapshot::entry_views;
use crate::storage::wal_store::{deadline_after, expired_keys, purge_view, sorted_listing, ttl_view};
use crate::storage::{ConsistencyReport, RepairReport, SyncPolicy, TtlState};
use crate::text::copy_range;
use crate::storage::reconcile::KvView;
use crate::storage::repair_mode::RepairMode;
use crate::storage::wal_log::{ExpView, StoreView};
use crate::storage::wal_store::{bump, bump_exec, purge_key_view, WalStore};
use crate::storage::{zero_stats, EngineStats, RepairSummary};
use crate::text::{ascii_lower_bytes, ascii_lower_eq, bytes_equal};

verus! {

/// Whether the hybrid store keeps what it reads and writes in its cache.
#[derive(Debug, Clone, Copy, PartialEq, Eq, Structural)]
pub enum CachePolicy {
    Lru,
    NoCache,
}

pub open spec fn cache_policy_name(p: CachePolicy) -> Seq<u8> {
    match p {
        CachePolicy::Lru => seq![108u8, 114u8, 117u8],
        CachePolicy::NoCache => seq![110u8, 111u8, 110u8, 101u8],
    }
}

/// The policy whose name the ASCII-lower-cased bytes spell, if any.
pub open spec fn cache_policy_named(lower: Seq<u8>) -> Option<CachePolicy> {
    if lower == cache_policy_name(CachePolicy::Lru) {
        Some(CachePolicy::Lru)
    } else if lower == cache_policy_name(CachePolicy::NoCache) {
        Some(CachePolicy::NoCache)
    } else {
        None
    }
}

impl CachePolicy {
    /// The policy that `raw` names (`lru` or `none`), ignoring ASCII case.
    pub fn from_input(raw: &str) -> (r: Option<CachePolicy>)
        ensures
            r == cache_policy_named(ascii_lower_bytes(encode_utf8(raw@))),
    {
        let b = raw.as_bytes();
        let lru: [u8; 3] = [108u8, 114u8, 117u8];
        let none: [u8; 4] = [110u8, 111u8, 110u8, 101u8];
        proof {
            assert(lru@ =~= cache_policy_name(CachePolicy::Lru));
            assert(none@ =~= cache_policy_name(CachePolicy::NoCache));
        }
        if ascii_lower_eq(b, lru.as_slice()) {
            Some(CachePolicy::Lru)
        } else if ascii_lower_eq(b, none.as_slice()) {
            Some(CachePolicy::NoCache)
        } else {
            None
        }
    }

    /// The policy's name.
    pub fn as_str(self) -> (r: &'static str)
        ensures
            encode_utf8(r@) == cache_policy_name(self),
    {
        proof {
            reveal_strlit("lru");
            reveal_strlit("none");
            is_ascii_chars_encode_utf8("lru"@);
            is_ascii_chars_encode_utf8("none"@);
            assert(encode_utf8("lru"@) =~= cache_policy_name(CachePolicy::Lru));
            assert(encode_utf8("none"@) =~= cache_policy_name(CachePolicy::NoCache));
        }
        match self {
            CachePolicy::Lru => "lru",
            CachePolicy::NoCache => "none",
        }
    }
}

/// One more if `c`.
pub open spec fn bump_if(x: u64, c: bool) -> u64 {
    if c {
        bump(x)
    } else {
        x
    }
}

pub fn bump_if_exec(x: u64, c: bool) -> (r: u64)
    ensures
        r == bump_if(x, c),
{
    if c {
        bump_exec(x)
    } else {
        x
    }
}

/// `n` more, wrapping at the top.
pub open spec fn wrap_add(x: u64, n: u64) -> u64 {
    ((x + n) % 0x1_0000_0000_0000_0000) as u64
}

fn wrap_add_exec(x: u64, n: u64) -> (r: u64)
    ensures
        r == wrap_add(x, n),
{
    x.wrapping_add(n)
}

/// The counters after a repair of `report` made on a write.
pub open spec fn auto_repair_stats(s: EngineStats, report: RepairReport) -> EngineStats {
    let a = report.repaired_only_in_cache as u64;
    let b = report.repaired_only_in_disk as u64;
    let c = report.repaired_value_mismatches as u64;
    let t = wrap_add(wrap_add(a, b), c);
    EngineStats {
        auto_repairs: wrap_add(s.auto_repairs, t),
        auto_repairs_write: wrap_add(s.auto_repairs_write, t),
        ..s
    }
}

/// Two lists of pairs with the same values stand for the same map.
proof fn lemma_map_of_views(a: Seq<(KeyEncoding, Vec<u8>)>, b: Seq<(KeyEncoding, Vec<u8>)>)
    requires
        entry_views(a) == entry_views(b),
    ensures
        map_of(a) == map_of(b),
    decreases a.len(),
{
    assert(a.len() == entry_views(a).len() && b.len() == entry_views(b).len());
    if a.len() > 0 {
        assert(entry_views(a.drop_last()) =~= entry_views(a).drop_last());
        assert(entry_views(b.drop_last()) =~= entry_views(b).drop_last());
        assert(entry_views(a)[a.len() - 1] == entry_views(b)[b.len() - 1]);
        assert(entry_views(a)[a.len() - 1] == (a.last().0@, a.last().1@));
        assert(entry_views(b)[b.len() - 1] == (b.last().0@, b.last().1@));
        lemma_map_of_views(a.drop_last(), b.drop_last());
    }
}

/// The map of a list of pairs, later pairs winning.
fn map_from_pairs(pairs: &Vec<(KeyEncoding, Vec<u8>)>) -> (m: KvMap)
    ensures
        m.wf(),
        m@ == map_of(pairs@),
{
    let mut m = KvMap::new();
    let mut i: usize = 0;
    while i < pairs.len()
        invariant
            i <= pairs@.len(),
            m.wf(),
            m@ == map_of(pairs@.take(i as int)),
        decreases pairs@.len() - i,
    {
        let (k, v) = &pairs[i];
        m.insert(k.copy(), copy_range(v.as_slice(), 0, v.len()));
        proof {
            assert(v@.subrange(0, v@.len() as int) =~= v@);
            assert(pairs@.take(i + 1).drop_last() =~= pairs@.take(i as int));
        }
        i = i + 1;
    }
    proof {
        assert(pairs@.take(pairs@.len() as int) =~= pairs@);
    }
    m
}

/// A store with an in-memory cache in front of a log-structured disk store. The disk is
/// the truth: writes go to it first, and the cache is filled from it. The disk's files are
/// kept by the caller, who appends the records that the write methods hand out.
pub struct HybridStore {
    memory: LruCache,
    wal: WalStore,
    stats: EngineStats,
    strict_read_check: bool,
    repair_mode: RepairMode,
    cache_policy: CachePolicy,
    last_repair_summary: Option<RepairSummary>,
}

/// The cache's list after one change of a repair, made as the cache makes it: a write
/// moves the key to the most recent end and then drops the oldest pairs beyond the bound
/// `max` (0: none); a delete drops the key.
pub open spec fn lru_step(s: Seq<(KeyModel, Seq<u8>)>, a: RepairAction, max: usize) -> Seq<(KeyModel, Seq<u8>)> {
    match a {
        RepairAction::Put(k, v) => trim_oldest(without_key(s, k@).push((k@, v@)), max),
        RepairAction::Delete(k) => without_key(s, k@),
    }
}

/// The cache's list after a list of changes, made in order.
pub open spec fn lru_run(s: Seq<(KeyModel, Seq<u8>)>, acts: Seq<RepairAction>, max: usize) -> Seq<(KeyModel, Seq<u8>)>
    decreases acts.len(),
{
    if acts.len() == 0 {
        s
    } else {
        lru_step(lru_run(s, acts.drop_last(), max), acts.last(), max)
    }
}

/// Reads are checked against the disk exactly when the store is strict or its repair mode
/// is `Read` or `Always`: then a read answers the disk's value (purged at `now`), whatever
/// the cache holds; otherwise a cache hit answers the cache's value.
pub proof fn lemma_checked_reads_answer_disk(s: HybridStore, k: KeyModel, now: u64)
    ensures
        s.strict_spec() || s.repair_mode_spec() == RepairMode::Read || s.repair_mode_spec()
            == RepairMode::Always ==> s.get_answer(k, now) == s.disk_after(k, now).0.get(k),
        !(s.strict_spec() || s.repair_mode_spec() == RepairMode::Read || s.repair_mode_spec()
            == RepairMode::Always) && s.cache_hit(k, now) ==> s.get_answer(k, now) == Some(
            s.cache_kv()[k],
        ),
{
}

/// Writing a key of `u` into a cache whose keys are within `u`, with a bound no smaller
/// than `u`, evicts nothing.
proof fn lemma_set_fits(a: &LruCache, k: KeyModel, u: Set<KeyModel>)
    requires
        a.wf(),
        u.finite(),
        a.kv().dom().subset_of(u),
        u.contains(k),
        u.len() <= a.max_keys_spec(),
    ensures
        without_key(a.lru(), k).len() + 1 <= a.max_keys_spec(),
{
    a.lemma_kv();
    let s = a.kv().dom().insert(k);
    vstd::set_lib::lemma_len_subset(s, u);
    if has_key(a.lru(), k) {
        assert(a.kv().dom().contains(k));
        assert(s =~= a.kv().dom());
    } else {
        assert(!a.kv().dom().contains(k));
    }
}

impl HybridStore {
    pub closed spec fn wf(&self) -> bool {
        self.memory.wf() && self.wal.wf()
    }

    /// The cache's pairs, least recently used first.
    pub closed spec fn cache_lru(&self) -> Seq<(KeyModel, Seq<u8>)> {
        self.memory.lru()
    }

    pub closed spec fn cache_kv(&self) -> KvView {
        self.memory.kv()
    }

    pub closed spec fn cache_deadlines(&self) -> ExpView {
        self.memory.deadlines()
    }

    /// The cache's map is the one its list stands for; the list holds each key once, as many
    /// pairs as the map; the deadlines are of keys in the cache.
    pub proof fn lemma_cache_views(&self)
        requires
            self.wf(),
        ensures
            self.cache_kv() == list_map(self.cache_lru()),
            forall|i: int, j: int|
                0 <= i < j < self.cache_lru().len() ==> #[trigger] self.cache_lru()[i].0
                    != #[trigger] self.cache_lru()[j].0,
            forall|k: KeyModel| #[trigger] self.cache_kv().contains_key(k) <==> has_key(self.cache_lru(), k),
            forall|i: int|
                0 <= i < self.cache_lru().len() ==> #[trigger] self.cache_kv()[self.cache_lru()[i].0]
                    == self.cache_lru()[i].1,
            self.cache_kv().len() == self.cache_lru().len(),
            self.cache_deadlines().dom().subset_of(self.cache_kv().dom()),
    {
        self.memory.lemma_kv();
        self.memory.lemma_entries_seq();
    }

    pub closed spec fn cache_max_keys_spec(&self) -> usize {
        self.memory.max_keys_spec()
    }

    pub closed spec fn cache_evictions_spec(&self) -> u64 {
        self.memory.evictions_spec()
    }

    /// The disk's map and deadlines.
    pub closed spec fn disk_state(&self) -> StoreView {
        self.wal.state()
    }

    /// The disk store.
    pub closed spec fn disk_view(&self) -> WalStore {
        self.wal
    }

    pub closed spec fn disk_stats(&self) -> EngineStats {
        self.wal.stats_spec()
    }

    /// The hybrid store's own counters.
    pub closed spec fn own_stats(&self) -> EngineStats {
        self.stats
    }

    pub closed spec fn strict_spec(&self) -> bool {
        self.strict_read_check
    }

    pub closed spec fn repair_mode_spec(&self) -> RepairMode {
        self.repair_mode
    }

    pub closed spec fn policy_spec(&self) -> CachePolicy {
        self.cache_policy
    }

    pub closed spec fn last_summary_spec(&self) -> Option<RepairSummary> {
        self.last_repair_summary
    }

    /// Reads check the cache against the disk.
    pub open spec fn read_repair_spec(&self) -> bool {
        self.strict_spec() || self.repair_mode_spec() == RepairMode::Read || self.repair_mode_spec()
            == RepairMode::Always
    }

    /// Writes first make the cache agree with the disk.
    pub open spec fn write_repair_spec(&self) -> bool {
        self.repair_mode_spec() == RepairMode::Write || self.repair_mode_spec() == RepairMode::Always
    }

    /// The cache's map after purging its expired keys at `now`.
    pub open spec fn cache_after_purge(&self, now: u64) -> KvView {
        list_map(self.cache_lru_after_purge(now))
    }

    /// The cache's list without the keys whose deadline has passed at `now`.
    pub open spec fn cache_lru_after_purge(&self, now: u64) -> Seq<(KeyModel, Seq<u8>)> {
        self.cache_lru().filter(
            |p: (KeyModel, Seq<u8>)| !expired_keys(self.cache_deadlines(), now).contains(p.0),
        )
    }

    /// A repair of the cache at `now` cannot evict: the cache has no bound, or the keys of
    /// the cache and the disk after purging fit in it together.
    pub open spec fn repair_fits(&self, now: u64) -> bool {
        self.cache_max_keys_spec() == 0 || self.cache_after_purge(now).dom().union(
            self.disk_after_purge(now).dom(),
        ).len() <= self.cache_max_keys_spec()
    }

    /// The disk's map after purging its expired keys at `now`.
    pub open spec fn disk_after_purge(&self, now: u64) -> KvView {
        purge_view(self.disk_state(), now).0
    }

    /// The same strict check, repair mode, cache policy, cache bound and last repair.
    pub open spec fn same_settings(&self, o: &HybridStore) -> bool {
        &&& self.strict_spec() == o.strict_spec()
        &&& self.repair_mode_spec() == o.repair_mode_spec()
        &&& self.policy_spec() == o.policy_spec()
        &&& self.cache_max_keys_spec() == o.cache_max_keys_spec()
        &&& self.last_summary_spec() == o.last_summary_spec()
    }

    /// The same cache contents, deadlines and evictions.
    pub open spec fn same_cache(&self, o: &HybridStore) -> bool {
        &&& self.cache_lru() == o.cache_lru()
        &&& self.cache_kv() == o.cache_kv()
        &&& self.cache_deadlines() == o.cache_deadlines()
        &&& self.cache_evictions_spec() == o.cache_evictions_spec()
    }

    /// The same disk state and disk counters.
    pub open spec fn same_disk(&self, o: &HybridStore) -> bool {
        &&& self.disk_state() == o.disk_state()
        &&& self.disk_stats() == o.disk_stats()
    }

    /// After a write of `v` under `k`: the disk holds it without a deadline, and the cache
    /// holds it without a deadline or, without a cache policy, not at all.
    pub open spec fn holds_written(&self, k: KeyModel, v: Seq<u8>) -> bool {
        &&& self.disk_state().0.contains_key(k)
        &&& self.disk_state().0[k] == v
        &&& !self.disk_state().1.contains_key(k)
        &&& !self.cache_deadlines().contains_key(k)
        &&& self.policy_spec() == CachePolicy::Lru ==> self.cache_kv().contains_key(k)
            && self.cache_kv()[k] == v
        &&& self.policy_spec() == CachePolicy::NoCache ==> !self.cache_kv().contains_key(k)
    }

    /// After a delete of `k`: neither the disk nor the cache holds it.
    pub open spec fn holds_deleted(&self, k: KeyModel) -> bool {
        !self.disk_state().0.contains_key(k) && !self.cache_kv().contains_key(k)
    }

    /// Whether the cache holds an unexpired value for `k` at `now`.
    pub open spec fn cache_hit(&self, k: KeyModel, now: u64) -> bool {
        &&& self.policy_spec() == CachePolicy::Lru
        &&& !(self.cache_deadlines().contains_key(k) && now >= self.cache_deadlines()[k])
        &&& self.cache_kv().contains_key(k)
    }

    /// The disk after purging `k` if expired at `now`.
    pub open spec fn disk_after(&self, k: KeyModel, now: u64) -> StoreView {
        purge_key_view(self.disk_state(), k, now)
    }

    /// Whether purging `k` at `now` removed it from the disk.
    pub open spec fn disk_expires(&self, k: KeyModel, now: u64) -> bool {
        self.disk_state().1.contains_key(k) && self.disk_state().0.contains_key(k)
            && !self.disk_after(k, now).0.contains_key(k)
    }

    /// What a read of `k` at `now` answers: the cache's value on a hit that is not checked
    /// against the disk, else the disk's.
    pub open spec fn get_answer(&self, k: KeyModel, now: u64) -> Option<Seq<u8>> {
        if self.cache_hit(k, now) && !self.read_repair_spec() {
            Some(self.cache_kv()[k])
        } else {
            self.disk_after(k, now).0.get(k)
        }
    }

    /// The counters after a read of `k` at `now`.
    pub open spec fn get_stats(&self, k: KeyModel, now: u64) -> EngineStats {
        let s = self.own_stats();
        let none = self.policy_spec() == CachePolicy::NoCache;
        let hit = self.cache_hit(k, now);
        let repair = hit && self.read_repair_spec();
        let mem_expired = self.cache_deadlines().contains_key(k) && now >= self.cache_deadlines()[k];
        let disk_read = !hit || repair;
        let on_disk = self.disk_after(k, now).0.contains_key(k);
        let fixed = repair && on_disk && self.disk_after(k, now).0[k] != self.cache_kv()[k];
        let dropped = repair && !on_disk;
        EngineStats {
            reads: bump(s.reads),
            cache_hits: bump_if(s.cache_hits, hit),
            cache_misses: bump_if(s.cache_misses, !none && !hit),
            ttl_expired_in_cache: bump_if(s.ttl_expired_in_cache, !none && mem_expired),
            ttl_expired_on_disk: bump_if(s.ttl_expired_on_disk, disk_read && self.disk_expires(k, now)),
            disk_reads: bump_if(s.disk_reads, repair || (!hit && on_disk)),
            cache_repaired: bump_if(s.cache_repaired, fixed),
            cache_invalidated: bump_if(s.cache_invalidated, dropped),
            auto_repairs: bump_if(s.auto_repairs, fixed || dropped),
            auto_repairs_read: bump_if(s.auto_repairs_read, fixed || dropped),
            ..s
        }
    }

    /// A hybrid store over `wal` with an empty cache. With a strict read check, reads are
    /// checked against the disk from the start.
    pub fn new(wal: WalStore, strict_read_check: bool) -> (r: HybridStore)
        requires
            wal.wf(),
        ensures
            r.wf(),
            r.cache_lru().len() == 0,
            r.cache_deadlines() == Map::<KeyModel, u64>::empty(),
            r.cache_max_keys_spec() == 0,
            r.cache_evictions_spec() == 0,
            r.disk_state() == wal.state(),
            r.disk_stats() == wal.stats_spec(),
            r.own_stats() == zero_stats(),
            r.strict_spec() == strict_read_check,
            r.repair_mode_spec() == if strict_read_check {
                RepairMode::Read
            } else {
                RepairMode::Off
            },
            r.policy_spec() == CachePolicy::Lru,
            r.last_summary_spec() is None,
    {
        HybridStore {
            memory: LruCache::new(),
            wal,
            stats: EngineStats::default(),
            strict_read_check,
            repair_mode: if strict_read_check {
                RepairMode::Read
            } else {
                RepairMode::Off
            },
            cache_policy: CachePolicy::Lru,
            last_repair_summary: None,
        }
    }

    fn read_repair_enabled(&self) -> (r: bool)
        ensures
            r == self.read_repair_spec(),
    {
        self.strict_read_check || match self.repair_mode {
            RepairMode::Read | RepairMode::Always => true,
            _ => false,
        }
    }

    fn write_repair_enabled(&self) -> (r: bool)
        ensures
            r == self.write_repair_spec(),
    {
        match self.repair_mode {
            RepairMode::Write | RepairMode::Always => true,
            _ => false,
        }
    }

    /// Reads `key` at `now_ms`. Without a cache policy the disk answers. Otherwise a cache
    /// hit answers, unless reads are checked: then the disk's value replaces a stale cached
    /// one, or the cached one is dropped if the disk lacks the key, and the disk answers. A
    /// miss is answered by the disk and fills the cache.
    pub fn get(&mut self, key: &KeyEncoding, now_ms: u64) -> (r: Option<Vec<u8>>)
        requires
            old(self).wf(),
        ensures
            final(self).wf(),
            match r {
                Some(v) => old(self).get_answer(key@, now_ms) == Some(v@),
                None => old(self).get_answer(key@, now_ms) is None,
            },
            final(self).own_stats() == old(self).get_stats(key@, now_ms),
            final(self).disk_state() == if old(self).cache_hit(key@, now_ms)
                && !old(self).read_repair_spec() {
                old(self).disk_state()
            } else {
                old(self).disk_after(key@, now_ms)
            },
            final(self).disk_stats() == old(self).disk_stats(),
            old(self).policy_spec() == CachePolicy::NoCache ==> final(self).cache_lru() == old(self).cache_lru() && final(self).cache_kv() == old(self).cache_kv(),
            old(self).cache_hit(key@, now_ms) && !old(self).read_repair_spec() ==> final(self).cache_kv() == old(self).cache_kv(),
            old(self).cache_hit(key@, now_ms) && old(self).read_repair_spec() ==> final(self).cache_kv() == match old(self).disk_after(key@, now_ms).0.get(key@) {
                Some(d) => old(self).cache_kv().insert(key@, d),
                None => old(self).cache_kv().remove(key@),
            },
            old(self).policy_spec() == CachePolicy::Lru && !old(self).cache_hit(key@, now_ms)
                ==> match old(self).disk_after(key@, now_ms).0.get(key@) {
                Some(d) => final(self).cache_kv().contains_key(key@) && final(self).cache_kv()[key@]
                    == d && forall|j: KeyModel|
                    #[trigger] final(self).cache_kv().contains_key(j) && j != key@
                        ==> old(self).cache_kv().contains_key(j) && final(self).cache_kv()[j] == old(self).cache_kv()[j],
                None => final(self).cache_kv() == old(self).cache_kv().remove(key@),
            },
            final(self).cache_max_keys_spec() == old(self).cache_max_keys_spec(),
            final(self).strict_spec() == old(self).strict_spec(),
            final(self).repair_mode_spec() == old(self).repair_mode_spec(),
            final(self).policy_spec() == old(self).policy_spec(),
            final(self).last_summary_spec() == old(self).last_summary_spec(),
            final(self).cache_deadlines().submap_of(old(self).cache_deadlines()),
    {
        let ghost k = key@;
        proof {
            self.memory.lemma_kv();
        }
        self.stats.reads = bump_exec(self.stats.reads);
        match self.cache_policy {
            CachePolicy::NoCache => {
                let (disk, disk_expired) = self.wal.get_with_expiry_flag(key, now_ms);
                if disk_expired {
                    self.stats.ttl_expired_on_disk = bump_exec(self.stats.ttl_expired_on_disk);
                }
                if disk.is_some() {
                    self.stats.disk_reads = bump_exec(self.stats.disk_reads);
                }
                return disk;
            },
            CachePolicy::Lru => {},
        }
        let (mem_value, mem_expired) = self.memory.get_with_expiry_flag(key, now_ms);
        if mem_expired {
            self.stats.ttl_expired_in_cache = bump_exec(self.stats.ttl_expired_in_cache);
        }
        match mem_value {
            Some(mv) => {
                self.stats.cache_hits = bump_exec(self.stats.cache_hits);
                if self.read_repair_enabled() {
                    self.stats.disk_reads = bump_exec(self.stats.disk_reads);
                    let (disk_value, disk_expired) = self.wal.get_with_expiry_flag(key, now_ms);
                    if disk_expired {
                        self.stats.ttl_expired_on_disk = bump_exec(self.stats.ttl_expired_on_disk);
                    }
                    match disk_value {
                        Some(dv) => {
                            if !bytes_equal(dv.as_slice(), mv.as_slice()) {
                                let _ = self.memory.set(key.copy(), dv);
                                self.stats.cache_repaired = bump_exec(self.stats.cache_repaired);
                                self.stats.auto_repairs = bump_exec(self.stats.auto_repairs);
                                self.stats.auto_repairs_read = bump_exec(self.stats.auto_repairs_read);
                            } else {
                                proof {
                                    assert(old(self).cache_kv().insert(k, dv@) =~= old(self).cache_kv());
                                }
                            }
                            return self.memory.read(key);
                        },
                        None => {
                            self.memory.remove(key);
                            self.stats.cache_invalidated = bump_exec(self.stats.cache_invalidated);
                            self.stats.auto_repairs = bump_exec(self.stats.auto_repairs);
                            self.stats.auto_repairs_read = bump_exec(self.stats.auto_repairs_read);
                            return None;
                        },
                    }
                }
                Some(mv)
            },
            None => {
                self.stats.cache_misses = bump_exec(self.stats.cache_misses);
                let (disk_value, disk_expired) = self.wal.get_with_expiry_flag(key, now_ms);
                if disk_expired {
                    self.stats.ttl_expired_on_disk = bump_exec(self.stats.ttl_expired_on_disk);
                }
                match disk_value {
                    Some(v) => {
                        self.stats.disk_reads = bump_exec(self.stats.disk_reads);
                        let _ = self.memory.set(key.copy(), v);
                        self.memory.read(key)
                    },
                    None => {
                        proof {
                            assert(!old(self).cache_kv().contains_key(k) || mem_expired);
                            if !mem_expired {
                                assert(self.memory.kv() =~= old(self).cache_kv().remove(k));
                            }
                        }
                        None
                    },
                }
            },
        }
    }

    /// The cache's map and the disk's map, after purging the expired keys of both at
    /// `now_ms`.
    fn snapshot_maps(&mut self, now_ms: u64) -> (r: (KvMap, KvMap))
        requires
            old(self).wf(),
        ensures
            final(self).wf(),
            r.0.wf(),
            r.1.wf(),
            r.0@ == final(self).cache_kv(),
            r.1@ == final(self).disk_state().0,
            r.0@ == old(self).cache_after_purge(now_ms),
            r.1@ == old(self).disk_after_purge(now_ms),
            final(self).cache_lru() == old(self).cache_lru().filter(
                |p: (KeyModel, Seq<u8>)| !expired_keys(old(self).cache_deadlines(), now_ms).contains(p.0),
            ),
            final(self).disk_state() == purge_view(old(self).disk_state(), now_ms),
            final(self).disk_stats() == old(self).disk_stats(),
            final(self).own_stats() == old(self).own_stats(),
            final(self).cache_max_keys_spec() == old(self).cache_max_keys_spec(),
            final(self).strict_spec() == old(self).strict_spec(),
            final(self).repair_mode_spec() == old(self).repair_mode_spec(),
            final(self).policy_spec() == old(self).policy_spec(),
            final(self).last_summary_spec() == old(self).last_summary_spec(),
    {
        let cache_pairs = self.memory.entries(now_ms);
        let disk_pairs = self.wal.entries(now_ms);
        proof {
            self.memory.lemma_entries_seq();
            lemma_map_of_views(cache_pairs@, self.memory.entries_seq());
        }
        let cache = map_from_pairs(&cache_pairs);
        let disk = map_from_pairs(&disk_pairs);
        (cache, disk)
    }

    /// Compares the cache with the disk after purging the expired keys of both at `now_ms`.
    pub fn verify_consistency(&mut self, now_ms: u64) -> (r: ConsistencyReport)
        requires
            old(self).wf(),
        ensures
            final(self).wf(),
            report_describes(r, final(self).cache_kv(), final(self).disk_state().0),
            report_describes(r, old(self).cache_after_purge(now_ms), old(self).disk_after_purge(now_ms)),
            final(self).cache_lru() == old(self).cache_lru().filter(
                |p: (KeyModel, Seq<u8>)| !expired_keys(old(self).cache_deadlines(), now_ms).contains(p.0),
            ),
            final(self).disk_state() == purge_view(old(self).disk_state(), now_ms),
            final(self).disk_stats() == old(self).disk_stats(),
            final(self).own_stats() == old(self).own_stats(),
            final(self).cache_max_keys_spec() == old(self).cache_max_keys_spec(),
            final(self).strict_spec() == old(self).strict_spec(),
            final(self).repair_mode_spec() == old(self).repair_mode_spec(),
            final(self).policy_spec() == old(self).policy_spec(),
            final(self).last_summary_spec() == old(self).last_summary_spec(),
    {
        let (cache, disk) = self.snapshot_maps(now_ms);
        build_consistency_report(&cache, &disk)
    }

    /// Makes the cache agree with the disk, after purging the expired keys of both at
    /// `now_ms`: writes what the disk holds differently and drops what it lacks. The counts
    /// are those of each kind of difference found. Every key the cache then holds has the
    /// disk's value (writes into a bounded cache may evict others); without a bound on the
    /// cache, it holds exactly what the disk holds.
    pub fn repair_cache(&mut self, now_ms: u64) -> (r: RepairReport)
        requires
            old(self).wf(),
        ensures
            final(self).wf(),
            r.target == RepairTarget::Cache,
            r.repaired_only_in_cache == only_in_cache_keys(
                old(self).cache_after_purge(now_ms),
                old(self).disk_after_purge(now_ms),
            ).len(),
            r.repaired_only_in_disk == only_in_disk_keys(
                old(self).cache_after_purge(now_ms),
                old(self).disk_after_purge(now_ms),
            ).len(),
            r.repaired_value_mismatches == mismatch_keys(
                old(self).cache_after_purge(now_ms),
                old(self).disk_after_purge(now_ms),
            ).len(),
            final(self).cache_kv().submap_of(final(self).disk_state().0),
            old(self).repair_fits(now_ms) ==> final(self).cache_kv() == final(self).disk_state().0,
            exists|acts: Seq<RepairAction>|
                #![trigger lru_run(old(self).cache_lru_after_purge(now_ms), acts, old(self).cache_max_keys_spec())]
                {
                    &&& apply_actions(old(self).cache_after_purge(now_ms), acts) == old(self).disk_after_purge(now_ms)
                    &&& puts_within(acts, old(self).disk_after_purge(now_ms))
                    &&& final(self).cache_lru() == lru_run(
                        old(self).cache_lru_after_purge(now_ms),
                        acts,
                        old(self).cache_max_keys_spec(),
                    )
                },
            final(self).last_summary_spec() == Some(
                RepairSummary {
                    target: r.target,
                    repaired_only_in_cache: r.repaired_only_in_cache,
                    repaired_only_in_disk: r.repaired_only_in_disk,
                    repaired_value_mismatches: r.repaired_value_mismatches,
                },
            ),
            final(self).disk_state() == purge_view(old(self).disk_state(), now_ms),
            final(self).disk_stats() == old(self).disk_stats(),
            final(self).own_stats() == old(self).own_stats(),
            final(self).cache_max_keys_spec() == old(self).cache_max_keys_spec(),
            final(self).strict_spec() == old(self).strict_spec(),
            final(self).repair_mode_spec() == old(self).repair_mode_spec(),
            final(self).policy_spec() == old(self).policy_spec(),
    {
        let (cache, disk) = self.snapshot_maps(now_ms);
        let ghost c = cache@;
        let ghost d = disk@;
        let (actions, report) = plan_repair(&cache, &disk, RepairTarget::Cache);
        let ghost u = c.dom().union(d.dom());
        let ghost fits = old(self).repair_fits(now_ms);
        let ghost lru0 = self.memory.lru();
        proof {
            cache.lemma_pairs();
            disk.lemma_pairs();
            assert(fits == (self.memory.max_keys_spec() == 0 || u.len() <= self.memory.max_keys_spec()));
        }
        let mut i: usize = 0;
        while i < actions.len()
            invariant
                i <= actions@.len(),
                self.wf(),
                self.memory.max_keys_spec() == old(self).cache_max_keys_spec(),
                fits == (self.memory.max_keys_spec() == 0 || u.len() <= self.memory.max_keys_spec()),
                u == c.dom().union(d.dom()),
                u.finite(),
                self.memory.kv().dom().subset_of(u),
                puts_within(actions@, d),
                self.wal.state() == purge_view(old(self).disk_state(), now_ms),
                self.wal.stats_spec() == old(self).disk_stats(),
                d == self.wal.state().0,
                c == self.memory.kv() || i > 0,
                self.stats == old(self).stats,
                self.strict_read_check == old(self).strict_read_check,
                self.repair_mode == old(self).repair_mode,
                self.cache_policy == old(self).cache_policy,
                fits ==> self.memory.kv() == apply_actions(c, actions@.take(i as int)),
                self.memory.lru() == lru_run(lru0, actions@.take(i as int), self.memory.max_keys_spec()),
                self.memory.kv().submap_of(apply_actions(c, actions@.take(i as int))),
                apply_actions(c, actions@) == d,
            decreases actions@.len() - i,
        {
            let ghost m0 = apply_actions(c, actions@.take(i as int));
            let ghost kv0 = self.memory.kv();
            let ghost m1 = apply_actions(c, actions@.take(i + 1));
            proof {
                assert(actions@.take(i + 1).drop_last() =~= actions@.take(i as int));
                assert(actions@.take(i + 1).last() == actions@[i as int]);
                assert(m1 == apply_action(m0, actions@[i as int]));
            }
            match &actions[i] {
                RepairAction::Put(k, v) => {
                    proof {
                        assert(d.contains_key(k@));
                        if fits && self.memory.max_keys_spec() > 0 {
                            lemma_set_fits(&self.memory, k@, u);
                        }
                    }
                    let _ = self.memory.set(k.copy(), copy_range(v.as_slice(), 0, v.len()));
                    proof {
                        assert(v@.subrange(0, v@.len() as int) =~= v@);
                        assert forall|j: KeyModel| self.memory.kv().dom().contains(j) implies u.contains(j) by {
                            if j != k@ {
                                assert(self.memory.kv().contains_key(j));
                            }
                        }
                        assert forall|j: KeyModel| #[trigger] self.memory.kv().dom().contains(j) implies m1.dom().contains(
                            j,
                        ) && self.memory.kv()[j] == m1[j] by {
                            if j != k@ {
                                assert(self.memory.kv().contains_key(j));
                                assert(kv0.contains_key(j));
                                assert(kv0.dom().contains(j));
                                assert(m0.dom().contains(j));
                            }
                        }
                    }
                },
                RepairAction::Delete(k) => {
                    self.memory.remove(k);
                    proof {
                        assert(self.memory.kv().dom().subset_of(kv0.dom()));
                        assert forall|j: KeyModel| #[trigger] self.memory.kv().dom().contains(j) implies m1.dom().contains(
                            j,
                        ) && self.memory.kv()[j] == m1[j] by {
                            assert(self.memory.kv() == kv0.remove(k@));
                            assert(m1 == m0.remove(k@));
                            assert(j != k@);
                            assert(kv0.dom().contains(j));
                            assert(m0.dom().contains(j));
                        }
                    }
                },
            }
            proof {
                assert(self.memory.kv().submap_of(m1));
                assert(lru_run(lru0, actions@.take(i + 1), self.memory.max_keys_spec()) == lru_step(
                    lru_run(lru0, actions@.take(i as int), self.memory.max_keys_spec()),
                    actions@[i as int],
                    self.memory.max_keys_spec(),
                ));
            }
            i = i + 1;
        }
        proof {
            assert(actions@.take(actions@.len() as int) =~= actions@);
            assert(lru0 == old(self).cache_lru_after_purge(now_ms));
            assert(self.memory.lru() == lru_run(old(self).cache_lru_after_purge(now_ms), actions@, old(self).cache_max_keys_spec()));
        }
        self.last_repair_summary = Some(
            RepairSummary {
                target: report.target,
                repaired_only_in_cache: report.repaired_only_in_cache,
                repaired_only_in_disk: report.repaired_only_in_disk,
                repaired_value_mismatches: report.repaired_value_mismatches,
            },
        );
        report
    }

    /// The changes that make the disk agree with the cache, after purging the expired keys
    /// of both at `now_ms`, and their counts; records the repair as the last one. The caller
    /// makes the changes with `begin_disk_write`/`finish_disk_write` and
    /// `begin_disk_delete`/`finish_disk_delete`.
    pub fn plan_disk_repair(&mut self, now_ms: u64) -> (r: (Vec<RepairAction>, RepairReport))
        requires
            old(self).wf(),
        ensures
            final(self).wf(),
            r.1.target == RepairTarget::Disk,
            apply_actions(final(self).disk_state().0, r.0@) == final(self).cache_kv(),
            r.1.repaired_only_in_cache == only_in_cache_keys(
                old(self).cache_after_purge(now_ms),
                old(self).disk_after_purge(now_ms),
            ).len(),
            r.1.repaired_only_in_disk == only_in_disk_keys(
                old(self).cache_after_purge(now_ms),
                old(self).disk_after_purge(now_ms),
            ).len(),
            r.1.repaired_value_mismatches == mismatch_keys(
                old(self).cache_after_purge(now_ms),
                old(self).disk_after_purge(now_ms),
            ).len(),
            final(self).last_summary_spec() == Some(
                RepairSummary {
                    target: RepairTarget::Disk,
                    repaired_only_in_cache: r.1.repaired_only_in_cache,
                    repaired_only_in_disk: r.1.repaired_only_in_disk,
                    repaired_value_mismatches: r.1.repaired_value_mismatches,
                },
            ),
            final(self).cache_kv() == old(self).cache_after_purge(now_ms),
            final(self).disk_state() == purge_view(old(self).disk_state(), now_ms),
            final(self).disk_stats() == old(self).disk_stats(),
            final(self).own_stats() == old(self).own_stats(),
            final(self).strict_spec() == old(self).strict_spec(),
            final(self).repair_mode_spec() == old(self).repair_mode_spec(),
            final(self).policy_spec() == old(self).policy_spec(),
            final(self).cache_max_keys_spec() == old(self).cache_max_keys_spec(),
    {
        let (cache, disk) = self.snapshot_maps(now_ms);
        let (actions, report) = plan_repair(&cache, &disk, RepairTarget::Disk);
        self.last_repair_summary = Some(
            RepairSummary {
                target: report.target,
                repaired_only_in_cache: report.repaired_only_in_cache,
                repaired_only_in_disk: report.repaired_only_in_disk,
                repaired_value_mismatches: report.repaired_value_mismatches,
            },
        );
        (actions, report)
    }

    /// With repairs on write, makes the cache agree with the disk first and counts the
    /// repairs made.
    fn maybe_auto_repair_on_write(&mut self, now_ms: u64)
        requires
            old(self).wf(),
        ensures
            final(self).wf(),
            final(self).strict_spec() == old(self).strict_spec(),
            final(self).repair_mode_spec() == old(self).repair_mode_spec(),
            final(self).policy_spec() == old(self).policy_spec(),
            final(self).cache_max_keys_spec() == old(self).cache_max_keys_spec(),
            final(self).disk_stats() == old(self).disk_stats(),
            !old(self).write_repair_spec() ==> *final(self) == *old(self),
            old(self).write_repair_spec() ==> final(self).disk_state() == purge_view(
                old(self).disk_state(),
                now_ms,
            ) && exists|rep: RepairReport|
                #[trigger] auto_repair_stats(old(self).own_stats(), rep) == final(self).own_stats()
                    && rep.repaired_only_in_cache == only_in_cache_keys(
                    old(self).cache_after_purge(now_ms),
                    old(self).disk_after_purge(now_ms),
                ).len() && rep.repaired_only_in_disk == only_in_disk_keys(
                    old(self).cache_after_purge(now_ms),
                    old(self).disk_after_purge(now_ms),
                ).len() && rep.repaired_value_mismatches == mismatch_keys(
                    old(self).cache_after_purge(now_ms),
                    old(self).disk_after_purge(now_ms),
                ).len(),
            old(self).write_repair_spec() ==> final(self).cache_kv().submap_of(final(self).disk_state().0),
            old(self).write_repair_spec() && old(self).repair_fits(now_ms) ==> final(self).cache_kv()
                == final(self).disk_state().0,
    {
        if !self.write_repair_enabled() {
            return;
        }
        let report = self.repair_cache(now_ms);
        let t = wrap_add_exec(
            wrap_add_exec(report.repaired_only_in_cache as u64, report.repaired_only_in_disk as u64),
            report.repaired_value_mismatches as u64,
        );
        self.stats.auto_repairs = wrap_add_exec(self.stats.auto_repairs, t);
        self.stats.auto_repairs_write = wrap_add_exec(self.stats.auto_repairs_write, t);
        proof {
            assert(auto_repair_stats(old(self).own_stats(), report) == self.own_stats());
        }
    }

    /// Starts a write of `value` under `key`: repairs the cache first if writes do so, counts
    /// the write, and gives the record to append to the disk's log.
    pub fn begin_set(&mut self, key: &KeyEncoding, value: &[u8], now_ms: u64) -> (r: Vec<u8>)
        requires
            old(self).wf(),
        ensures
            final(self).wf(),
            r@ == crate::storage::wal_log::set_record(key@, value@),
            final(self).strict_spec() == old(self).strict_spec(),
            final(self).repair_mode_spec() == old(self).repair_mode_spec(),
            final(self).policy_spec() == old(self).policy_spec(),
            final(self).cache_max_keys_spec() == old(self).cache_max_keys_spec(),
            !old(self).write_repair_spec() ==> final(self).disk_state() == old(self).disk_state()
                && final(self).same_cache(&*old(self)),
            old(self).write_repair_spec() ==> final(self).disk_state() == purge_view(
                old(self).disk_state(),
                now_ms,
            ),
            old(self).write_repair_spec() ==> final(self).cache_kv().submap_of(final(self).disk_state().0),
            old(self).write_repair_spec() && old(self).repair_fits(now_ms) ==> final(self).cache_kv()
                == final(self).disk_state().0,
            !old(self).write_repair_spec() ==> final(self).own_stats() == (EngineStats {
                writes: bump(old(self).own_stats().writes),
                disk_writes: bump(old(self).own_stats().disk_writes),
                ..old(self).own_stats()
            }),
            old(self).write_repair_spec() ==> exists|rep: RepairReport|
                #![trigger auto_repair_stats(old(self).own_stats(), rep)]
                {
                    &&& final(self).own_stats() == (EngineStats {
                        writes: bump(old(self).own_stats().writes),
                        disk_writes: bump(old(self).own_stats().disk_writes),
                        ..auto_repair_stats(old(self).own_stats(), rep)
                    })
                    &&& rep.repaired_only_in_cache == only_in_cache_keys(
                        old(self).cache_after_purge(now_ms),
                        old(self).disk_after_purge(now_ms),
                    ).len()
                    &&& rep.repaired_only_in_disk == only_in_disk_keys(
                        old(self).cache_after_purge(now_ms),
                        old(self).disk_after_purge(now_ms),
                    ).len()
                    &&& rep.repaired_value_mismatches == mismatch_keys(
                        old(self).cache_after_purge(now_ms),
                        old(self).disk_after_purge(now_ms),
                    ).len()
                },
            final(self).own_stats().writes == bump(old(self).own_stats().writes),
            final(self).own_stats().disk_writes == bump(old(self).own_stats().disk_writes),
    {
        self.maybe_auto_repair_on_write(now_ms);
        let ghost mid = self.own_stats();
        self.stats.writes = bump_exec(self.stats.writes);
        self.stats.disk_writes = bump_exec(self.stats.disk_writes);
        let r = self.wal.begin_set(key, value);
        proof {
            if old(self).write_repair_spec() {
                let rep = choose|rep: RepairReport|
                    #[trigger] auto_repair_stats(old(self).own_stats(), rep) == mid && rep.repaired_only_in_cache
                        == only_in_cache_keys(old(self).cache_after_purge(now_ms), old(self).disk_after_purge(now_ms)).len()
                        && rep.repaired_only_in_disk == only_in_disk_keys(
                        old(self).cache_after_purge(now_ms),
                        old(self).disk_after_purge(now_ms),
                    ).len() && rep.repaired_value_mismatches == mismatch_keys(
                        old(self).cache_after_purge(now_ms),
                        old(self).disk_after_purge(now_ms),
                    ).len();
                assert(self.own_stats() == (EngineStats {
                    writes: bump(old(self).own_stats().writes),
                    disk_writes: bump(old(self).own_stats().disk_writes),
                    ..auto_repair_stats(old(self).own_stats(), rep)
                }));
            }
        }
        r
    }

    /// Finishes a write whose record is in the disk's log: the disk takes the value, and so
    /// does the cache under the LRU policy; without a cache policy the cache drops the key.
    pub fn finish_set(&mut self, key: KeyEncoding, value: Vec<u8>)
        requires
            old(self).wf(),
        ensures
            final(self).wf(),
            final(self).disk_state() == crate::storage::wal_log::set_model(
                old(self).disk_state(),
                key@,
                value@,
            ),
            final(self).disk_stats() == old(self).disk_stats(),
            final(self).own_stats() == old(self).own_stats(),
            final(self).same_settings(&*old(self)),
            old(self).policy_spec() == CachePolicy::Lru ==> final(self).cache_kv().contains_key(
                key@,
            ) && final(self).cache_kv()[key@] == value@,
            !final(self).cache_deadlines().contains_key(key@),
            final(self).holds_written(key@, value@),
            old(self).policy_spec() == CachePolicy::NoCache ==> final(self).cache_kv() == old(self).cache_kv().remove(key@),
    {
        let k2 = key.copy();
        let v2 = copy_range(value.as_slice(), 0, value.len());
        proof {
            assert(value@.subrange(0, value@.len() as int) =~= value@);
        }
        self.wal.apply_set(key, value);
        match self.cache_policy {
            CachePolicy::Lru => {
                let _ = self.memory.set(k2, v2);
            },
            CachePolicy::NoCache => {
                self.memory.remove(&k2);
            },
        }
    }

    /// Starts a delete of `key`: repairs the cache first if writes do so, counts the delete,
    /// and gives the record to append to the disk's log if the disk holds the key.
    pub fn begin_delete(&mut self, key: &KeyEncoding, now_ms: u64) -> (r: Option<Vec<u8>>)
        requires
            old(self).wf(),
        ensures
            final(self).wf(),
            match r {
                Some(rec) => final(self).disk_state().0.contains_key(key@) && rec@
                    == crate::storage::wal_log::delete_record(key@),
                None => !final(self).disk_state().0.contains_key(key@),
            },
            final(self).strict_spec() == old(self).strict_spec(),
            final(self).repair_mode_spec() == old(self).repair_mode_spec(),
            final(self).policy_spec() == old(self).policy_spec(),
            final(self).cache_max_keys_spec() == old(self).cache_max_keys_spec(),
            !old(self).write_repair_spec() ==> final(self).disk_state() == old(self).disk_state()
                && final(self).same_cache(&*old(self)),
            final(self).own_stats().deletes == bump(old(self).own_stats().deletes),
    {
        self.maybe_auto_repair_on_write(now_ms);
        self.stats.deletes = bump_exec(self.stats.deletes);
        self.wal.begin_delete(key)
    }

    /// Finishes a delete of `key`: when its record went to the disk's log the disk drops
    /// the key (a disk write); the cache drops it too. Gives the disk's old value, else the
    /// cache's.
    pub fn finish_delete(&mut self, key: &KeyEncoding, logged: bool) -> (r: Option<Vec<u8>>)
        requires
            old(self).wf(),
        ensures
            final(self).wf(),
            final(self).disk_state() == if logged {
                crate::storage::wal_log::delete_model(old(self).disk_state(), key@)
            } else {
                old(self).disk_state()
            },
            final(self).cache_kv() == old(self).cache_kv().remove(key@),
            final(self).same_settings(&*old(self)),
            logged ==> final(self).holds_deleted(key@),
            match r {
                Some(v) => (logged && old(self).disk_state().0.contains_key(key@) && v@ == old(self).disk_state().0[key@]) || (!(logged && old(self).disk_state().0.contains_key(
                    key@,
                )) && old(self).cache_kv().contains_key(key@) && v@ == old(self).cache_kv()[key@]),
                None => !(logged && old(self).disk_state().0.contains_key(key@)) && !old(self).cache_kv().contains_key(key@),
            },
            final(self).own_stats() == (EngineStats {
                disk_writes: bump_if(
                    old(self).own_stats().disk_writes,
                    logged && old(self).disk_state().0.contains_key(key@),
                ),
                ..old(self).own_stats()
            }),
    {
        let disk_deleted = if logged {
            self.wal.apply_delete(key)
        } else {
            None
        };
        let mem_deleted = self.memory.remove(key);
        if disk_deleted.is_some() {
            self.stats.disk_writes = bump_exec(self.stats.disk_writes);
        }
        match disk_deleted {
            Some(v) => Some(v),
            None => mem_deleted,
        }
    }

    /// Reads the disk alone, purging `key` there if expired at `now_ms`.
    pub fn get_disk_only(&mut self, key: &KeyEncoding, now_ms: u64) -> (r: Option<Vec<u8>>)
        requires
            old(self).wf(),
        ensures
            final(self).wf(),
            match r {
                Some(v) => old(self).disk_after(key@, now_ms).0.get(key@) == Some(v@),
                None => !old(self).disk_after(key@, now_ms).0.contains_key(key@),
            },
            final(self).disk_state() == old(self).disk_after(key@, now_ms),
            final(self).disk_stats() == old(self).disk_stats(),
            final(self).same_cache(&*old(self)),
            final(self).same_settings(&*old(self)),
            final(self).own_stats() == (EngineStats {
                reads: bump(old(self).own_stats().reads),
                ttl_expired_on_disk: bump_if(
                    old(self).own_stats().ttl_expired_on_disk,
                    old(self).disk_expires(key@, now_ms),
                ),
                disk_reads: bump_if(old(self).own_stats().disk_reads, r is Some),
                ..old(self).own_stats()
            }),
    {
        self.stats.reads = bump_exec(self.stats.reads);
        let (disk_value, disk_expired) = self.wal.get_with_expiry_flag(key, now_ms);
        if disk_expired {
            self.stats.ttl_expired_on_disk = bump_exec(self.stats.ttl_expired_on_disk);
        }
        if disk_value.is_some() {
            self.stats.disk_reads = bump_exec(self.stats.disk_reads);
        }
        disk_value
    }

    /// The disk's pairs from `start` to `end`, both included, in key order, after purging
    /// its expired keys at `now_ms`.
    pub fn range(&mut self, start: &KeyEncoding, end: &KeyEncoding, now_ms: u64) -> (r: Vec<
        (KeyEncoding, Vec<u8>),
    >)
        requires
            old(self).wf(),
        ensures
            final(self).wf(),
            sorted_listing(r@, final(self).disk_state().0, Some(start@), Some(end@)),
            final(self).disk_state() == purge_view(old(self).disk_state(), now_ms),
            final(self).disk_stats() == old(self).disk_stats(),
            final(self).same_cache(&*old(self)),
            final(self).same_settings(&*old(self)),
            final(self).own_stats() == old(self).own_stats(),
    {
        self.wal.range(start, end, now_ms)
    }

    /// Writes to the cache alone, making it disagree with the disk.
    pub fn inject_cache_fault(&mut self, key: KeyEncoding, value: Vec<u8>)
        requires
            old(self).wf(),
        ensures
            final(self).wf(),
            final(self).cache_kv().contains_key(key@) && final(self).cache_kv()[key@] == value@,
            forall|j: KeyModel|
                #[trigger] final(self).cache_kv().contains_key(j) && j != key@ ==> old(self).cache_kv().contains_key(j)
                    && final(self).cache_kv()[j] == old(self).cache_kv()[j],
            old(self).cache_kv().contains_key(key@) ==> final(self).cache_kv() == old(self).cache_kv().insert(
                key@,
                value@,
            ),
            old(self).cache_max_keys_spec() == 0 ==> final(self).cache_kv() == old(self).cache_kv().insert(
                key@,
                value@,
            ),
            final(self).cache_deadlines() == keep_deadlines(
                old(self).cache_deadlines().remove(key@),
                final(self).cache_lru(),
            ),
            final(self).same_disk(&*old(self)),
            final(self).same_settings(&*old(self)),
            final(self).own_stats() == old(self).own_stats(),
    {
        let _ = self.memory.set(key, value);
    }

    /// Starts a write to the disk alone: gives the record to append to its log.
    pub fn begin_disk_write(&mut self, key: &KeyEncoding, value: &[u8]) -> (r: Vec<u8>)
        requires
            old(self).wf(),
        ensures
            final(self).wf(),
            r@ == crate::storage::wal_log::set_record(key@, value@),
            final(self).disk_state() == old(self).disk_state(),
            final(self).disk_stats() == (EngineStats {
                writes: bump(old(self).disk_stats().writes),
                disk_writes: bump(old(self).disk_stats().disk_writes),
                ..old(self).disk_stats()
            }),
            final(self).same_cache(&*old(self)),
            final(self).same_settings(&*old(self)),
            final(self).own_stats() == old(self).own_stats(),
    {
        self.wal.begin_set(key, value)
    }

    /// Finishes a write to the disk alone, whose record is in its log.
    pub fn finish_disk_write(&mut self, key: KeyEncoding, value: Vec<u8>)
        requires
            old(self).wf(),
        ensures
            final(self).wf(),
            final(self).disk_state() == crate::storage::wal_log::set_model(
                old(self).disk_state(),
                key@,
                value@,
            ),
            final(self).disk_stats() == old(self).disk_stats(),
            final(self).same_cache(&*old(self)),
            final(self).same_settings(&*old(self)),
            final(self).own_stats() == old(self).own_stats(),
    {
        self.wal.apply_set(key, value);
    }

    /// Starts a delete on the disk alone: the record to append, if the disk holds the key.
    pub fn begin_disk_delete(&mut self, key: &KeyEncoding) -> (r: Option<Vec<u8>>)
        requires
            old(self).wf(),
        ensures
            final(self).wf(),
            match r {
                Some(rec) => old(self).disk_state().0.contains_key(key@) && rec@
                    == crate::storage::wal_log::delete_record(key@),
                None => !old(self).disk_state().0.contains_key(key@),
            },
            final(self).disk_state() == old(self).disk_state(),
            final(self).disk_stats() == (EngineStats {
                deletes: bump(old(self).disk_stats().deletes),
                ..old(self).disk_stats()
            }),
            final(self).same_cache(&*old(self)),
            final(self).same_settings(&*old(self)),
            final(self).own_stats() == old(self).own_stats(),
    {
        self.wal.begin_delete(key)
    }

    /// Finishes a delete on the disk alone, whose record is in its log.
    pub fn finish_disk_delete(&mut self, key: &KeyEncoding) -> (r: Option<Vec<u8>>)
        requires
            old(self).wf(),
        ensures
            final(self).wf(),
            final(self).disk_state() == crate::storage::wal_log::delete_model(
                old(self).disk_state(),
                key@,
            ),
            match r {
                Some(v) => old(self).disk_state().0.contains_key(key@) && v@ == old(self).disk_state().0[key@],
                None => !old(self).disk_state().0.contains_key(key@),
            },
            final(self).same_cache(&*old(self)),
            final(self).same_settings(&*old(self)),
            final(self).own_stats() == old(self).own_stats(),
    {
        self.wal.apply_delete(key)
    }

    /// Starts giving `key` a time to live on the disk (see `WalStore::begin_expire`).
    pub fn begin_expire(&mut self, key: &KeyEncoding, seconds: u64, now_ms: u64) -> (r: Option<
        (Vec<u8>, u64),
    >)
        requires
            old(self).wf(),
        ensures
            final(self).wf(),
            final(self).disk_state() == old(self).disk_after(key@, now_ms),
            final(self).disk_stats() == old(self).disk_stats(),
            match r {
                Some((rec, d)) => final(self).disk_state().0.contains_key(key@) && d
                    == crate::storage::wal_store::deadline_after(now_ms, seconds) && rec@
                    == crate::storage::wal_log::expire_record(key@, d),
                None => !final(self).disk_state().0.contains_key(key@),
            },
            final(self).same_cache(&*old(self)),
            final(self).same_settings(&*old(self)),
            final(self).own_stats() == old(self).own_stats(),
    {
        self.wal.begin_expire(key, seconds, now_ms)
    }

    /// Finishes a time to live whose record is in the disk's log: the disk keeps the
    /// deadline, and the cache gets one `seconds` from `now_ms` if it holds the key.
    pub fn finish_expire(&mut self, key: &KeyEncoding, deadline_ms: u64, seconds: u64, now_ms: u64)
        requires
            old(self).wf(),
            old(self).disk_state().0.contains_key(key@),
        ensures
            final(self).wf(),
            final(self).disk_state() == (old(self).disk_state().0, old(self).disk_state().1.insert(
                key@,
                deadline_ms,
            )),
            final(self).disk_stats() == old(self).disk_stats(),
            final(self).same_settings(&*old(self)),
            final(self).own_stats() == old(self).own_stats(),
            final(self).cache_evictions_spec() == old(self).cache_evictions_spec(),
            old(self).cache_kv().contains_key(key@) && !(old(self).cache_deadlines().contains_key(key@)
                && now_ms >= old(self).cache_deadlines()[key@]) ==> final(self).cache_lru() == old(
                self,
            ).cache_lru() && final(self).cache_deadlines() == old(self).cache_deadlines().insert(
                key@,
                deadline_after(now_ms, seconds),
            ),
            !(old(self).cache_kv().contains_key(key@) && !(old(self).cache_deadlines().contains_key(key@)
                && now_ms >= old(self).cache_deadlines()[key@])) ==> final(self).cache_lru()
                == without_key(old(self).cache_lru(), key@) && final(self).cache_deadlines() == old(
                self,
            ).cache_deadlines().remove(key@),
    {
        self.wal.apply_expire(key.copy(), deadline_ms);
        let _ = self.memory.expire(key, seconds, now_ms);
    }

    /// The time to live of `key` on the disk at `now_ms`.
    pub fn ttl(&mut self, key: &KeyEncoding, now_ms: u64) -> (r: TtlState)
        requires
            old(self).wf(),
        ensures
            final(self).wf(),
            r == ttl_view(final(self).disk_state(), key@, now_ms),
            final(self).disk_state() == old(self).disk_after(key@, now_ms),
            final(self).disk_stats() == old(self).disk_stats(),
            final(self).same_cache(&*old(self)),
            final(self).same_settings(&*old(self)),
            final(self).own_stats() == old(self).own_stats(),
    {
        self.wal.ttl(key, now_ms)
    }

    /// Bounds the cache to `max_keys` keys (0: no bound), evicting the least recently used.
    pub fn set_cache_max_keys(&mut self, max_keys: usize)
        requires
            old(self).wf(),
        ensures
            final(self).wf(),
            final(self).cache_max_keys_spec() == max_keys,
            final(self).cache_lru() == trim_oldest(old(self).cache_lru(), max_keys),
            final(self).same_disk(&*old(self)),
            final(self).own_stats() == old(self).own_stats(),
            final(self).strict_spec() == old(self).strict_spec(),
            final(self).repair_mode_spec() == old(self).repair_mode_spec(),
            final(self).policy_spec() == old(self).policy_spec(),
            final(self).last_summary_spec() == old(self).last_summary_spec(),
    {
        self.memory.set_cache_max_keys(max_keys);
    }

    pub fn cache_max_keys(&self) -> (r: usize)
        ensures
            r == self.cache_max_keys_spec(),
    {
        self.memory.cache_max_keys()
    }

    pub fn cache_current_keys(&self) -> (r: usize)
        requires
            self.wf(),
        ensures
            r == self.cache_lru().len(),
            r == self.cache_kv().len(),
    {
        proof {
            self.memory.lemma_kv();
        }
        self.memory.cache_current_keys()
    }

    /// Sets the cache policy by name (`lru` or `none`, any case); `none` empties the cache.
    /// Another name is refused as invalid input.
    pub fn set_cache_policy(&mut self, policy: &str) -> (r: Result<(), std::io::Error>)
        requires
            old(self).wf(),
        ensures
            final(self).wf(),
            match cache_policy_named(ascii_lower_bytes(encode_utf8(policy@))) {
                Some(p) => r is Ok && final(self).policy_spec() == p && (p == CachePolicy::NoCache
                    ==> final(self).cache_lru().len() == 0) && (p == CachePolicy::Lru
                    ==> final(self).same_cache(&*old(self))),
                None => r is Err && *final(self) == *old(self),
            },
            final(self).same_disk(&*old(self)),
            final(self).own_stats() == old(self).own_stats(),
            final(self).strict_spec() == old(self).strict_spec(),
            final(self).repair_mode_spec() == old(self).repair_mode_spec(),
            final(self).cache_max_keys_spec() == old(self).cache_max_keys_spec(),
            final(self).last_summary_spec() == old(self).last_summary_spec(),
    {
        match CachePolicy::from_input(policy) {
            None => Err(io_error(IoFailure::InvalidInput, "invalid cache policy: use lru|none")),
            Some(p) => {
                self.cache_policy = p;
                match p {
                    CachePolicy::NoCache => {
                        self.memory.clear_cache();
                    },
                    CachePolicy::Lru => {},
                }
                Ok(())
            },
        }
    }

    pub fn cache_policy(&self) -> (r: &'static str)
        ensures
            encode_utf8(r@) == cache_policy_name(self.policy_spec()),
    {
        self.cache_policy.as_str()
    }

    pub fn set_repair_mode(&mut self, mode: RepairMode)
        ensures
            final(self).repair_mode_spec() == mode,
            final(self).wf() == old(self).wf(),
            final(self).same_disk(&*old(self)),
            final(self).same_cache(&*old(self)),
            final(self).own_stats() == old(self).own_stats(),
            final(self).strict_spec() == old(self).strict_spec(),
            final(self).policy_spec() == old(self).policy_spec(),
            final(self).cache_max_keys_spec() == old(self).cache_max_keys_spec(),
            final(self).last_summary_spec() == old(self).last_summary_spec(),
    {
        self.repair_mode = mode;
    }

    pub fn repair_mode(&self) -> (r: RepairMode)
        ensures
            r == self.repair_mode_spec(),
    {
        self.repair_mode
    }

    pub fn last_repair_summary(&self) -> (r: Option<RepairSummary>)
        ensures
            r == self.last_summary_spec(),
    {
        self.last_repair_summary
    }

    /// The hybrid store's counters, with the log, startup and eviction counters taken from
    /// the disk and the cache.
    pub fn stats(&self) -> (r: EngineStats)
        ensures
            r == (EngineStats {
                wal_appends: self.disk_stats().wal_appends,
                fsync_count: self.disk_stats().fsync_count,
                ttl_loaded_on_startup: self.disk_stats().ttl_loaded_on_startup,
                ttl_pruned_on_startup: self.disk_stats().ttl_pruned_on_startup,
                cache_evictions: self.cache_evictions_spec(),
                ..self.own_stats()
            }),
    {
        let mut out = self.stats;
        let wal_stats = self.wal.stats();
        out.wal_appends = wal_stats.wal_appends;
        out.fsync_count = wal_stats.fsync_count;
        out.ttl_loaded_on_startup = wal_stats.ttl_loaded_on_startup;
        out.ttl_pruned_on_startup = wal_stats.ttl_pruned_on_startup;
        out.cache_evictions = self.memory.cache_evictions();
        out
    }

    /// The number of keys on the disk.
    pub fn len(&self) -> (r: usize)
        requires
            self.wf(),
        ensures
            r == self.disk_state().0.len(),
    {
        self.wal.len()
    }

    /// The disk store, to read.
    pub fn disk(&self) -> (r: &WalStore)
        requires
            self.wf(),
        ensures
            r.wf(),
            *r == self.disk_view(),
            r.state() == self.disk_state(),
            r.stats_spec() == self.disk_stats(),
    {
        &self.wal
    }

    /// Counts a record appended to the disk's log.
    pub fn note_disk_append(&mut self)
        requires
            old(self).wf(),
        ensures
            final(self).wf(),
            final(self).disk_state() == old(self).disk_state(),
            final(self).disk_stats() == (EngineStats {
                wal_appends: bump(old(self).disk_stats().wal_appends),
                ..old(self).disk_stats()
            }),
            final(self).same_cache(&*old(self)),
            final(self).same_settings(&*old(self)),
            final(self).own_stats() == old(self).own_stats(),
    {
        self.wal.note_append();
    }

    /// Counts a flush of the disk's log.
    pub fn note_disk_sync(&mut self)
        requires
            old(self).wf(),
        ensures
            final(self).wf(),
            final(self).disk_state() == old(self).disk_state(),
            final(self).disk_stats() == (EngineStats {
                fsync_count: bump(old(self).disk_stats().fsync_count),
                ..old(self).disk_stats()
            }),
            final(self).same_cache(&*old(self)),
            final(self).same_settings(&*old(self)),
            final(self).own_stats() == old(self).own_stats(),
    {
        self.wal.note_sync();
    }

    /// Counts a write to the disk's files.
    pub fn note_disk_write(&mut self)
        requires
            old(self).wf(),
        ensures
            final(self).wf(),
            final(self).disk_state() == old(self).disk_state(),
            final(self).disk_stats() == (EngineStats {
                disk_writes: bump(old(self).disk_stats().disk_writes),
                ..old(self).disk_stats()
            }),
            final(self).same_cache(&*old(self)),
            final(self).same_settings(&*old(self)),
            final(self).own_stats() == old(self).own_stats(),
    {
        self.wal.note_disk_write();
    }

    /// Whether an append to the disk's log must be flushed before it counts as done.
    pub fn disk_needs_sync(&self) -> (r: bool)
        requires
            self.wf(),
        ensures
            r == (self.disk_view().sync_policy_spec() == SyncPolicy::Always),
    {
        self.wal.needs_sync()
    }

    /// Starts a checkpoint of the disk (see `WalStore::checkpoint_bytes`).
    pub fn disk_checkpoint_bytes(&mut self, now_ms: u64) -> (r: Vec<u8>)
        requires
            old(self).wf(),
        ensures
            final(self).wf(),
            final(self).disk_state() == purge_view(old(self).disk_state(), now_ms),
            final(self).disk_stats() == old(self).disk_stats(),
            r@ == final(self).disk_view().snapshot_spec(),
            final(self).same_cache(&*old(self)),
            final(self).same_settings(&*old(self)),
            final(self).own_stats() == old(self).own_stats(),
    {
        self.wal.checkpoint_bytes(now_ms)
    }
}

/// A read answers with the last value written: after a write of `v` under `k`, a read of `k`
/// at any time gives `v`, whether the cache answers or the disk.
pub proof fn lemma_read_after_write(s: HybridStore, k: KeyModel, v: Seq<u8>, now: u64)
    requires
        s.holds_written(k, v),
    ensures
        s.get_answer(k, now) == Some(v),
{
}

/// A read after a delete finds nothing, whether the cache answers or the disk.
pub proof fn lemma_read_after_delete(s: HybridStore, k: KeyModel, now: u64)
    requires
        s.holds_deleted(k),
    ensures
        s.get_answer(k, now) is None,
{
}

} // verus!

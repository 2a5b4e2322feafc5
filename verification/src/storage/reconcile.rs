use vstd::prelude::*;
use crate::assoc_map::AssocMap;
use crate::key_codec::{KeyEncoding, KeyModel};
use crate::key_order::{compare_keys, key_le, key_order, lemma_key_le_refl, lemma_key_le_trans, not_nan, KeyOrder};
use crate::storage::consistency_diff::ConsistencyDiff;
use crate::storage::consistency_diff_kind::ConsistencyDiffKind;
use crate::storage::consistency_report::ConsistencyReport;
use crate::storage::repair_target::RepairTarget;
use crate::storage::RepairReport;
use crate::text::{bytes_equal, copy_range};

verus! {

/// A key-value map as the stores hold it.
pub type KvMap = AssocMap<KeyEncoding, Vec<u8>>;

/// The value of a key-value map.
pub type KvView = Map<KeyModel, Seq<u8>>;

/// Keys the cache holds and the disk does not.
pub open spec fn only_in_cache_keys(c: KvView, d: KvView) -> Set<KeyModel> {
    c.dom().filter(|k: KeyModel| !d.contains_key(k))
}

/// Keys the disk holds and the cache does not.
pub open spec fn only_in_disk_keys(c: KvView, d: KvView) -> Set<KeyModel> {
    d.dom().filter(|k: KeyModel| !c.contains_key(k))
}

/// Keys both hold with different values.
pub open spec fn mismatch_keys(c: KvView, d: KvView) -> Set<KeyModel> {
    c.dom().filter(|k: KeyModel| d.contains_key(k) && d[k] != c[k])
}

/// Whether `k` differs between cache and disk in the way `kind` names.
pub open spec fn is_diff(c: KvView, d: KvView, k: KeyModel, kind: ConsistencyDiffKind) -> bool {
    match kind {
        ConsistencyDiffKind::OnlyInCache => c.contains_key(k) && !d.contains_key(k),
        ConsistencyDiffKind::OnlyInDisk => d.contains_key(k) && !c.contains_key(k),
        ConsistencyDiffKind::ValueMismatch => c.contains_key(k) && d.contains_key(k) && d[k]
            != c[k],
    }
}

/// The keys of a list of differences.
pub open spec fn diff_keys(s: Seq<ConsistencyDiff>) -> Seq<KeyModel> {
    s.map_values(|e: ConsistencyDiff| e.key@)
}

/// Each key comes no later than the next.
pub open spec fn keys_sorted(ks: Seq<KeyModel>) -> bool {
    forall|i: int| 0 <= i < ks.len() - 1 ==> #[trigger] key_le(ks[i], ks[i + 1])
}

/// The keys of a list of differences are in key order.
pub open spec fn diffs_sorted(s: Seq<ConsistencyDiff>) -> bool {
    keys_sorted(diff_keys(s))
}

/// No key occurs twice in a list of differences.
pub open spec fn diffs_distinct(s: Seq<ConsistencyDiff>) -> bool {
    forall|i: int, j: int| 0 <= i < j < s.len() ==> #[trigger] s[i].key@ != #[trigger] s[j].key@
}

/// The numbers of each kind of difference.
pub open spec fn report_counts_match(r: ConsistencyReport, c: KvView, d: KvView) -> bool {
    &&& r.cache_keys == c.len()
    &&& r.disk_keys == d.len()
    &&& r.only_in_cache == only_in_cache_keys(c, d).len()
    &&& r.only_in_disk == only_in_disk_keys(c, d).len()
    &&& r.value_mismatches == mismatch_keys(c, d).len()
}

proof fn lemma_key_order_flip(a: KeyModel, b: KeyModel)
    ensures
        key_order(a, b) == KeyOrder::Less <==> key_order(b, a) == KeyOrder::Greater,
{
    reveal(key_order);
    match (a, b) {
        (KeyModel::Raw(x), KeyModel::Raw(y)) => {
            crate::key_order::lemma_lex_flip(vstd::utf8::encode_utf8(x), vstd::utf8::encode_utf8(y));
        },
        _ => {},
    }
}

pub proof fn lemma_insert_keeps_sorted(ks: Seq<KeyModel>, p: int, xk: KeyModel)
    requires
        keys_sorted(ks),
        0 <= p <= ks.len(),
        forall|j: int| 0 <= j < p ==> key_order(xk, #[trigger] ks[j]) != KeyOrder::Less,
        p < ks.len() ==> key_order(xk, ks[p]) == KeyOrder::Less,
    ensures
        keys_sorted(ks.insert(p, xk)),
{
    let s = ks.insert(p, xk);
    assert forall|i: int| 0 <= i < s.len() - 1 implies #[trigger] key_le(s[i], s[i + 1]) by {
        if i + 1 < p {
            assert(s[i] == ks[i] && s[i + 1] == ks[i + 1]);
            assert(key_le(ks[i], ks[i + 1]));
        } else if i + 1 == p {
            assert(s[i] == ks[i] && s[i + 1] == xk);
            lemma_key_order_flip(xk, ks[i]);
        } else if i == p {
            assert(s[i] == xk && s[i + 1] == ks[i]);
        } else {
            assert(s[i] == ks[i - 1] && s[i + 1] == ks[i]);
            let j = i - 1;
            assert(ks[j + 1] == ks[i]);
            assert(key_le(ks[j], ks[j + 1]));
        }
    }
}

/// Whether `k` differs between cache and disk in some way.
pub open spec fn differs(c: KvView, d: KvView, k: KeyModel) -> bool {
    ||| (c.contains_key(k) && !d.contains_key(k))
    ||| (d.contains_key(k) && !c.contains_key(k))
    ||| (c.contains_key(k) && d.contains_key(k) && d[k] != c[k])
}

/// No key of the map is the bits of a NaN.
pub open spec fn no_nan_keys(m: KvView) -> bool {
    forall|k: KeyModel| m.contains_key(k) ==> not_nan(k)
}

/// The samples are the first differences in key order: every difference is a sample, or
/// there are ten samples and it comes no earlier than each of them.
pub open spec fn samples_first(r: ConsistencyReport, c: KvView, d: KvView) -> bool {
    forall|k: KeyModel|
        #[trigger] differs(c, d, k) ==> (exists|i: int|
            0 <= i < r.samples@.len() && r.samples@[i].key@ == k) || (r.samples@.len() == 10
            && forall|i: int| 0 <= i < 10 ==> key_le(#[trigger] r.samples@[i].key@, k))
}

/// In a list in key order whose keys are not NaNs, each key comes no later than every key
/// after it.
proof fn lemma_sorted_keys_ordered(ks: Seq<KeyModel>, i: int, j: int)
    requires
        keys_sorted(ks),
        forall|t: int| 0 <= t < ks.len() ==> not_nan(#[trigger] ks[t]),
        0 <= i <= j < ks.len(),
    ensures
        key_le(ks[i], ks[j]),
    decreases j - i,
{
    if i == j {
        lemma_key_le_refl(ks[i]);
    } else {
        lemma_sorted_keys_ordered(ks, i, j - 1);
        let t = j - 1;
        assert(key_le(ks[t], ks[t + 1]));
        lemma_key_le_trans(ks[i], ks[j - 1], ks[j]);
    }
}

/// Differences with distinct keys, as many as there are keys that differ, drawn from a list
/// of differences, hold every key that differs.
proof fn lemma_diffs_cover(c: KvView, d: KvView, found: Seq<ConsistencyDiff>, sorted: Seq<ConsistencyDiff>)
    requires
        c.dom().finite(),
        d.dom().finite(),
        forall|m: int| 0 <= m < found.len() ==> is_diff(c, d, (#[trigger] found[m]).key@, found[m].kind),
        diffs_distinct(sorted),
        found.len() == only_in_cache_keys(c, d).len() + mismatch_keys(c, d).len()
            + only_in_disk_keys(c, d).len(),
        sorted.len() == found.len(),
        forall|a: int| 0 <= a < sorted.len() ==> exists|m: int|
            0 <= m < found.len() && found[m].key@ == (#[trigger] sorted[a]).key@,
    ensures
        forall|k: KeyModel| #[trigger] differs(c, d, k) ==> exists|a: int|
            0 <= a < sorted.len() && sorted[a].key@ == k,
{
    let oc = only_in_cache_keys(c, d);
    let od = only_in_disk_keys(c, d);
    let mm = mismatch_keys(c, d);
    let all = oc + mm + od;
    assert(oc.disjoint(mm));
    assert((oc + mm).disjoint(od));
    vstd::set_lib::lemma_set_disjoint_lens(oc, mm);
    vstd::set_lib::lemma_set_disjoint_lens(oc + mm, od);
    let ks = diff_keys(sorted);
    assert(ks.no_duplicates()) by {
        assert forall|a: int, b: int| 0 <= a < ks.len() && 0 <= b < ks.len() && a != b implies ks[a] != ks[b] by {
            if a < b {
                assert(sorted[a].key@ != sorted[b].key@);
            } else {
                assert(sorted[b].key@ != sorted[a].key@);
            }
        }
    }
    ks.unique_seq_to_set();
    let kset = ks.to_set();
    assert(kset.subset_of(all)) by {
        assert forall|k: KeyModel| kset.contains(k) implies all.contains(k) by {
            let a = choose|a: int| 0 <= a < ks.len() && ks[a] == k;
            let m = choose|m: int| 0 <= m < found.len() && found[m].key@ == sorted[a].key@;
            assert(is_diff(c, d, found[m].key@, found[m].kind));
        }
    }
    vstd::set_lib::lemma_subset_equality(kset, all);
    assert forall|k: KeyModel| #[trigger] differs(c, d, k) implies exists|a: int|
        0 <= a < sorted.len() && sorted[a].key@ == k by {
        assert(all.contains(k));
        assert(kset.contains(k));
        let a = choose|a: int| 0 <= a < ks.len() && ks[a] == k;
        assert(sorted[a].key@ == k);
    }
}

/// A report of `c` against `d`: the counts of each kind of difference, and up to ten of the
/// differences, in key order, each key once.
pub open spec fn report_describes(r: ConsistencyReport, c: KvView, d: KvView) -> bool {
    &&& report_counts_match(r, c, d)
    &&& r.samples@.len() == if r.only_in_cache + r.only_in_disk + r.value_mismatches < 10 {
        r.only_in_cache + r.only_in_disk + r.value_mismatches
    } else {
        10
    }
    &&& diffs_sorted(r.samples@)
    &&& diffs_distinct(r.samples@)
    &&& forall|i: int|
        0 <= i < r.samples@.len() ==> is_diff(c, d, (#[trigger] r.samples@[i]).key@, r.samples@[i].kind)
    &&& (no_nan_keys(c) && no_nan_keys(d) ==> samples_first(r, c, d))
}

/// Inserts `x` into a key-ordered list after every entry that does not come after it.
fn insert_sorted(out: &mut Vec<ConsistencyDiff>, x: ConsistencyDiff) -> (p: usize)
    requires
        diffs_sorted(old(out)@),
    ensures
        diffs_sorted(final(out)@),
        p <= old(out)@.len(),
        final(out)@ == old(out)@.insert(p as int, x),
{
    let mut p: usize = 0;
    let mut done = false;
    while p < out.len() && !done
        invariant
            p <= out@.len(),
            out@ == old(out)@,
            forall|j: int| 0 <= j < p ==> key_order(x.key@, (#[trigger] out@[j]).key@)
                != KeyOrder::Less,
            done ==> p < out@.len() && key_order(x.key@, out@[p as int].key@) == KeyOrder::Less,
        decreases out@.len() - p + (if done {
            0int
        } else {
            1int
        }),
    {
        if compare_keys(&x.key, &out[p].key) == KeyOrder::Less {
            done = true;
        } else {
            p = p + 1;
        }
    }
    proof {
        let ks = diff_keys(out@);
        assert forall|j: int| 0 <= j < p implies key_order(x.key@, #[trigger] ks[j]) != KeyOrder::Less by {
            assert(ks[j] == out@[j].key@);
        }
        lemma_insert_keeps_sorted(ks, p as int, x.key@);
        assert(diff_keys(out@.insert(p as int, x)) =~= ks.insert(p as int, x.key@));
    }
    out.insert(p, x);
    p
}

/// Compares the cache with the disk: how many keys each holds, how many differ in each
/// way, and up to ten differences in key order.
pub fn build_consistency_report(cache: &KvMap, disk: &KvMap) -> (r: ConsistencyReport)
    requires
        cache.wf(),
        disk.wf(),
    ensures
        report_counts_match(r, cache@, disk@),
        r.samples@.len() == if r.only_in_cache + r.only_in_disk + r.value_mismatches < 10 {
            r.only_in_cache + r.only_in_disk + r.value_mismatches
        } else {
            10
        },
        diffs_sorted(r.samples@),
        diffs_distinct(r.samples@),
        forall|i: int|
            0 <= i < r.samples@.len() ==> is_diff(
                cache@,
                disk@,
                (#[trigger] r.samples@[i]).key@,
                r.samples@[i].kind,
            ),
        report_describes(r, cache@, disk@),
{
    let ghost c = cache@;
    let ghost d = disk@;
    proof {
        cache.lemma_pairs();
        disk.lemma_pairs();
    }
    let cp = cache.as_pairs();
    let dp = disk.as_pairs();
    let mut only_in_cache: usize = 0;
    let mut value_mismatches: usize = 0;
    let mut only_in_disk: usize = 0;
    let mut found: Vec<ConsistencyDiff> = Vec::new();
    let ghost mut seen_cache: Set<KeyModel> = Set::empty();
    let ghost mut seen_mismatch: Set<KeyModel> = Set::empty();
    let mut i: usize = 0;
    while i < cp.len()
        invariant
            i <= cp@.len(),
            cp@ == cache.pairs(),
            cache.wf(),
            disk.wf(),
            c == cache@,
            d == disk@,
            cp@.len() == c.len(),
            crate::assoc_map::distinct_keys(cp@),
            forall|k: KeyModel| #[trigger]
                c.contains_key(k) <==> exists|j: int| 0 <= j < cp@.len() && cp@[j].0@ == k,
            forall|j: int| 0 <= j < cp@.len() ==> #[trigger] c[cp@[j].0@] == cp@[j].1@,
            seen_cache.finite(),
            seen_mismatch.finite(),
            c.dom().finite(),
            d.dom().finite(),
            seen_cache.subset_of(c.dom()),
            seen_mismatch.subset_of(c.dom()),
            only_in_cache == seen_cache.len(),
            value_mismatches == seen_mismatch.len(),
            forall|k: KeyModel| #[trigger]
                seen_cache.contains(k) <==> exists|j: int|
                    0 <= j < i && cp@[j].0@ == k && !d.contains_key(k),
            forall|k: KeyModel| #[trigger]
                seen_mismatch.contains(k) <==> exists|j: int|
                    0 <= j < i && cp@[j].0@ == k && d.contains_key(k) && d[k] != c[k],
            found@.len() == only_in_cache + value_mismatches,
            diffs_distinct(found@),
            forall|j: int|
                0 <= j < found@.len() ==> is_diff(c, d, (#[trigger] found@[j]).key@, found@[j].kind),
            forall|j: int|
                0 <= j < found@.len() ==> exists|m: int|
                    0 <= m < i && cp@[m].0@ == (#[trigger] found@[j]).key@,
        decreases cp@.len() - i,
    {
        let (k, v) = &cp[i];
        let ghost km = k@;
        proof {
            assert(c[km] == v@);
            assert(!seen_cache.contains(km) && !seen_mismatch.contains(km)) by {
                if seen_cache.contains(km) || seen_mismatch.contains(km) {
                    let j = choose|j: int| 0 <= j < i && cp@[j].0@ == km;
                    assert(cp@[j].0@ == cp@[i as int].0@);
                }
            }
            assert forall|j: int| 0 <= j < found@.len() implies (#[trigger] found@[j]).key@ != km by {
                let m = choose|m: int| 0 <= m < i && cp@[m].0@ == found@[j].key@;
                assert(cp@[m].0@ != cp@[i as int].0@);
            }
        }
        proof {
            assert(c.contains_key(km));
            vstd::set_lib::lemma_len_subset(seen_cache.insert(km), c.dom());
            vstd::set_lib::lemma_len_subset(seen_mismatch.insert(km), c.dom());
        }
        match disk.get(k) {
            None => {
                only_in_cache = only_in_cache + 1;
                found.push(ConsistencyDiff { key: k.copy(), kind: ConsistencyDiffKind::OnlyInCache });
                proof {
                    seen_cache = seen_cache.insert(km);
                }
            },
            Some(dv) => {
                if !bytes_equal(dv.as_slice(), v.as_slice()) {
                    value_mismatches = value_mismatches + 1;
                    found.push(
                        ConsistencyDiff { key: k.copy(), kind: ConsistencyDiffKind::ValueMismatch },
                    );
                    proof {
                        seen_mismatch = seen_mismatch.insert(km);
                    }
                }
            },
        }
        proof {
            let fs = found@;
            assert forall|a: int, b: int| 0 <= a < b < fs.len() implies #[trigger] fs[a].key@
                != #[trigger] fs[b].key@ by {}
            assert forall|j: int| 0 <= j < fs.len() implies exists|m: int|
                0 <= m < i + 1 && cp@[m].0@ == (#[trigger] fs[j]).key@ by {
                if exists|m: int| 0 <= m < i && cp@[m].0@ == fs[j].key@ {
                    let m = choose|m: int| 0 <= m < i && cp@[m].0@ == fs[j].key@;
                    assert(0 <= m < i + 1 && cp@[m].0@ == fs[j].key@);
                } else {
                    assert(cp@[i as int].0@ == fs[j].key@);
                }
            }
        }
        i = i + 1;
    }
    proof {
        assert(seen_cache =~= only_in_cache_keys(c, d));
        assert(seen_mismatch =~= mismatch_keys(c, d));
        vstd::set_lib::lemma_len_subset(seen_cache, c.dom());
        vstd::set_lib::lemma_len_subset(seen_mismatch, c.dom());
    }
    let ghost mut seen_disk: Set<KeyModel> = Set::empty();
    let mut j: usize = 0;
    while j < dp.len()
        invariant
            j <= dp@.len(),
            dp@ == disk.pairs(),
            cache.wf(),
            disk.wf(),
            c == cache@,
            d == disk@,
            crate::assoc_map::distinct_keys(dp@),
            forall|k: KeyModel| #[trigger]
                d.contains_key(k) <==> exists|m: int| 0 <= m < dp@.len() && dp@[m].0@ == k,
            seen_disk.finite(),
            c.dom().finite(),
            d.dom().finite(),
            d.dom().len() == d.len(),
            dp@.len() == d.len(),
            only_in_disk == seen_disk.len(),
            only_in_cache == only_in_cache_keys(c, d).len(),
            value_mismatches == mismatch_keys(c, d).len(),
            only_in_cache <= c.len(),
            value_mismatches <= c.len(),
            c.len() <= usize::MAX,
            forall|k: KeyModel| #[trigger]
                seen_disk.contains(k) <==> exists|m: int|
                    0 <= m < j && dp@[m].0@ == k && !c.contains_key(k),
            found@.len() == only_in_cache + value_mismatches + only_in_disk,
            diffs_distinct(found@),
            forall|m: int|
                0 <= m < found@.len() ==> is_diff(c, d, (#[trigger] found@[m]).key@, found@[m].kind),
            forall|m: int|
                0 <= m < found@.len() ==> c.contains_key((#[trigger] found@[m]).key@) || exists|q: int|
                    0 <= q < j && dp@[q].0@ == found@[m].key@,
        decreases dp@.len() - j,
    {
        let (k, _v) = &dp[j];
        let ghost km = k@;
        proof {
            assert(!seen_disk.contains(km)) by {
                if seen_disk.contains(km) {
                    let m = choose|m: int| 0 <= m < j && dp@[m].0@ == km;
                    assert(dp@[m].0@ == dp@[j as int].0@);
                }
            }
            assert(seen_disk.subset_of(only_in_disk_keys(c, d)));
            assert(only_in_disk_keys(c, d).subset_of(d.dom()));
            vstd::set_lib::lemma_len_subset(only_in_disk_keys(c, d), d.dom());
            vstd::set_lib::lemma_len_subset(seen_disk, only_in_disk_keys(c, d));
        }
        if !cache.contains_key(k) {
            proof {
                assert forall|m: int| 0 <= m < found@.len() implies (#[trigger] found@[m]).key@
                    != km by {
                    if !c.contains_key(found@[m].key@) {
                        let q = choose|q: int| 0 <= q < j && dp@[q].0@ == found@[m].key@;
                        assert(dp@[q].0@ != dp@[j as int].0@);
                    }
                }
                assert(seen_disk.insert(km).subset_of(only_in_disk_keys(c, d)));
                vstd::set_lib::lemma_len_subset(seen_disk.insert(km), only_in_disk_keys(c, d));
                vstd::set_lib::lemma_len_subset(only_in_disk_keys(c, d), d.dom());
            }
            only_in_disk = only_in_disk + 1;
            found.push(ConsistencyDiff { key: k.copy(), kind: ConsistencyDiffKind::OnlyInDisk });
            proof {
                seen_disk = seen_disk.insert(km);
            }
        }
        proof {
            let fs = found@;
            assert forall|m: int| 0 <= m < fs.len() implies c.contains_key((#[trigger] fs[m]).key@)
                || exists|q: int| 0 <= q < j + 1 && dp@[q].0@ == fs[m].key@ by {
                if !c.contains_key(fs[m].key@) {
                    if exists|q: int| 0 <= q < j && dp@[q].0@ == fs[m].key@ {
                        let q = choose|q: int| 0 <= q < j && dp@[q].0@ == fs[m].key@;
                        assert(0 <= q < j + 1 && dp@[q].0@ == fs[m].key@);
                    } else {
                        assert(dp@[j as int].0@ == fs[m].key@);
                    }
                }
            }
        }
        j = j + 1;
    }
    proof {
        assert(seen_disk =~= only_in_disk_keys(c, d));
    }
    let mut sorted: Vec<ConsistencyDiff> = Vec::new();
    let mut n: usize = 0;
    while n < found.len()
        invariant
            n <= found@.len(),
            sorted@.len() == n,
            diffs_sorted(sorted@),
            diffs_distinct(found@),
            diffs_distinct(sorted@),
            forall|m: int|
                0 <= m < found@.len() ==> is_diff(c, d, (#[trigger] found@[m]).key@, found@[m].kind),
            forall|a: int|
                0 <= a < sorted@.len() ==> exists|m: int|
                    0 <= m < n && found@[m].key@ == (#[trigger] sorted@[a]).key@ && found@[m].kind
                        == sorted@[a].kind,
        decreases found@.len() - n,
    {
        let item = ConsistencyDiff { key: found[n].key.copy(), kind: found[n].kind };
        let ghost before = sorted@;
        let ghost ik = item.key@;
        proof {
            assert forall|a: int| 0 <= a < before.len() implies (#[trigger] before[a]).key@ != ik by {
                let m = choose|m: int| 0 <= m < n && found@[m].key@ == before[a].key@ && found@[m].kind
                    == before[a].kind;
                assert(found@[m].key@ != found@[n as int].key@);
            }
        }
        let p = insert_sorted(&mut sorted, item);
        proof {
            let s = sorted@;
            assert forall|a: int| 0 <= a < s.len() implies exists|m: int|
                0 <= m < n + 1 && found@[m].key@ == (#[trigger] s[a]).key@ && found@[m].kind
                    == s[a].kind by {
                if a < p {
                    assert(s[a] == before[a]);
                    let m = choose|m: int| 0 <= m < n && found@[m].key@ == before[a].key@ && found@[m].kind
                        == before[a].kind;
                    assert(0 <= m < n + 1);
                } else if a > p {
                    assert(s[a] == before[a - 1]);
                    let m = choose|m: int| 0 <= m < n && found@[m].key@ == before[a - 1].key@
                        && found@[m].kind == before[a - 1].kind;
                    assert(0 <= m < n + 1);
                } else {
                    assert(s[a].key@ == found@[n as int].key@);
                }
            }
            assert forall|a: int, b: int| 0 <= a < b < s.len() implies #[trigger] s[a].key@
                != #[trigger] s[b].key@ by {
                if b < p {
                    assert(s[a] == before[a] && s[b] == before[b]);
                } else if a > p {
                    assert(s[a] == before[a - 1] && s[b] == before[b - 1]);
                } else if a < p && b > p {
                    assert(s[a] == before[a] && s[b] == before[b - 1]);
                } else if a == p {
                    assert(s[b] == before[b - 1]);
                } else {
                    assert(s[a] == before[a]);
                }
            }
        }
        n = n + 1;
    }
    proof {
        let s = sorted@;
        assert forall|a: int| 0 <= a < s.len() implies is_diff(c, d, (#[trigger] s[a]).key@, s[a].kind) by {
            let m = choose|m: int| 0 <= m < n && found@[m].key@ == s[a].key@ && found@[m].kind == s[a].kind;
        }
    }
    let ghost full = sorted@;
    proof {
        lemma_diffs_cover(c, d, found@, full);
    }
    sorted.truncate(10);
    proof {
        if no_nan_keys(c) && no_nan_keys(d) {
            let fk = diff_keys(full);
            assert forall|t: int| 0 <= t < fk.len() implies not_nan(#[trigger] fk[t]) by {
                assert(is_diff(c, d, full[t].key@, full[t].kind));
                assert(fk[t] == full[t].key@);
            }
            let smp = sorted@;
            assert forall|k: KeyModel| #[trigger] differs(c, d, k) implies (exists|i: int|
                0 <= i < smp.len() && smp[i].key@ == k) || (smp.len() == 10 && forall|i: int|
                0 <= i < 10 ==> key_le(#[trigger] smp[i].key@, k)) by {
                let a = choose|a: int| 0 <= a < full.len() && full[a].key@ == k;
                if a < smp.len() {
                    assert(smp[a] == full[a]);
                } else {
                    assert(smp.len() == 10);
                    assert forall|i: int| 0 <= i < 10 implies key_le(#[trigger] smp[i].key@, k) by {
                        assert(smp[i] == full[i]);
                        assert(fk[i] == full[i].key@ && fk[a] == full[a].key@);
                        lemma_sorted_keys_ordered(fk, i, a);
                    }
                }
            }
        }
    }
    proof {
        let fk = diff_keys(full);
        let tk = diff_keys(sorted@);
        assert forall|i: int| 0 <= i < tk.len() - 1 implies #[trigger] key_le(tk[i], tk[i + 1]) by {
            assert(tk[i] == fk[i] && tk[i + 1] == fk[i + 1]);
        }
        assert forall|a: int, b: int| 0 <= a < b < sorted@.len() implies #[trigger] sorted@[a].key@
            != #[trigger] sorted@[b].key@ by {
            assert(sorted@[a] == full[a] && sorted@[b] == full[b]);
        }
        assert forall|a: int| 0 <= a < sorted@.len() implies is_diff(
            c,
            d,
            (#[trigger] sorted@[a]).key@,
            sorted@[a].kind,
        ) by {
            assert(sorted@[a] == full[a]);
        }
    }
    ConsistencyReport {
        cache_keys: cache.len(),
        disk_keys: disk.len(),
        only_in_cache,
        only_in_disk,
        value_mismatches,
        samples: sorted,
    }
}

/// One change that a repair makes to a store.
pub enum RepairAction {
    Put(KeyEncoding, Vec<u8>),
    Delete(KeyEncoding),
}

/// A map after one change.
pub open spec fn apply_action(m: KvView, a: RepairAction) -> KvView {
    match a {
        RepairAction::Put(k, v) => m.insert(k@, v@),
        RepairAction::Delete(k) => m.remove(k@),
    }
}

/// A map after a list of changes, made in order.
pub open spec fn apply_actions(m: KvView, s: Seq<RepairAction>) -> KvView
    decreases s.len(),
{
    if s.len() == 0 {
        m
    } else {
        apply_action(apply_actions(m, s.drop_last()), s.last())
    }
}

/// Every `Put` in `s` writes a key that `m` holds.
pub open spec fn puts_within(s: Seq<RepairAction>, m: KvView) -> bool {
    forall|t: int| 0 <= t < s.len() ==> (#[trigger] s[t] matches RepairAction::Put(k, _) ==> m.contains_key(k@))
}

/// The changes that make `dst` hold what `src` holds: first a `Put` for each key of `src`
/// that `dst` lacks or holds with another value (in `src`'s order), then a `Delete` for each
/// key of `dst` that `src` lacks. Also gives how many sets were of missing keys, how many
/// of changed values, and how many deletes.
fn plan_sync(src: &KvMap, dst: &KvMap) -> (r: (Vec<RepairAction>, usize, usize, usize))
    requires
        src.wf(),
        dst.wf(),
    ensures
        apply_actions(dst@, r.0@) == src@,
        puts_within(r.0@, src@),
        r.1 == only_in_cache_keys(src@, dst@).len(),
        r.2 == mismatch_keys(src@, dst@).len(),
        r.3 == only_in_disk_keys(src@, dst@).len(),
{
    let ghost sv = src@;
    let ghost dv = dst@;
    proof {
        src.lemma_pairs();
        dst.lemma_pairs();
    }
    let sp = src.as_pairs();
    let dp = dst.as_pairs();
    let mut actions: Vec<RepairAction> = Vec::new();
    let mut added: usize = 0;
    let mut changed: usize = 0;
    let mut removed: usize = 0;
    let ghost mut seen_added: Set<KeyModel> = Set::empty();
    let ghost mut seen_changed: Set<KeyModel> = Set::empty();
    let mut i: usize = 0;
    while i < sp.len()
        invariant
            i <= sp@.len(),
            sp@ == src.pairs(),
            src.wf(),
            dst.wf(),
            sv == src@,
            dv == dst@,
            sp@.len() == sv.len(),
            sv.dom().finite(),
            puts_within(actions@, sv),
            crate::assoc_map::distinct_keys(sp@),
            forall|k: KeyModel| #[trigger]
                sv.contains_key(k) <==> exists|j: int| 0 <= j < sp@.len() && sp@[j].0@ == k,
            forall|j: int| 0 <= j < sp@.len() ==> #[trigger] sv[sp@[j].0@] == sp@[j].1@,
            seen_added.finite(),
            seen_changed.finite(),
            seen_added.subset_of(sv.dom()),
            seen_changed.subset_of(sv.dom()),
            added == seen_added.len(),
            changed == seen_changed.len(),
            forall|k: KeyModel| #[trigger]
                seen_added.contains(k) <==> exists|j: int|
                    0 <= j < i && sp@[j].0@ == k && !dv.contains_key(k),
            forall|k: KeyModel| #[trigger]
                seen_changed.contains(k) <==> exists|j: int|
                    0 <= j < i && sp@[j].0@ == k && dv.contains_key(k) && dv[k] != sv[k],
            forall|k: KeyModel| #[trigger]
                apply_actions(dv, actions@).contains_key(k) <==> dv.contains_key(k) || exists|j: int|
                    0 <= j < i && sp@[j].0@ == k,
            forall|k: KeyModel| #[trigger]
                apply_actions(dv, actions@).contains_key(k) ==> apply_actions(dv, actions@)[k] == if exists|j: int|
                    0 <= j < i && sp@[j].0@ == k {
                    sv[k]
                } else {
                    dv[k]
                },
        decreases sp@.len() - i,
    {
        let (k, v) = &sp[i];
        let ghost km = k@;
        let ghost m0 = apply_actions(dv, actions@);
        proof {
            assert(sv[km] == v@);
            assert(!seen_added.contains(km) && !seen_changed.contains(km)) by {
                if seen_added.contains(km) || seen_changed.contains(km) {
                    let j = choose|j: int| 0 <= j < i && sp@[j].0@ == km;
                    assert(sp@[j].0@ == sp@[i as int].0@);
                }
            }
            assert(sv.contains_key(km));
            vstd::set_lib::lemma_len_subset(seen_added.insert(km), sv.dom());
            vstd::set_lib::lemma_len_subset(seen_changed.insert(km), sv.dom());
        }
        let need = match dst.get(k) {
            None => {
                added = added + 1;
                proof {
                    seen_added = seen_added.insert(km);
                }
                true
            },
            Some(old) => {
                if !bytes_equal(old.as_slice(), v.as_slice()) {
                    changed = changed + 1;
                    proof {
                        seen_changed = seen_changed.insert(km);
                    }
                    true
                } else {
                    false
                }
            },
        };
        let ghost prev = actions@;
        if need {
            actions.push(RepairAction::Put(k.copy(), copy_range(v.as_slice(), 0, v.len())));
            proof {
                assert(v@.subrange(0, v@.len() as int) =~= v@);
                assert(actions@.drop_last() =~= prev);
                assert forall|t: int| 0 <= t < actions@.len() implies (#[trigger] actions@[t] matches RepairAction::Put(
                    kk,
                    _,
                ) ==> sv.contains_key(kk@)) by {
                    if t < prev.len() {
                        assert(actions@[t] == prev[t]);
                    }
                }
            }
        }
        proof {
            let m1 = apply_actions(dv, actions@);
            assert forall|kk: KeyModel| #[trigger] m1.contains_key(kk) <==> dv.contains_key(kk)
                || exists|j: int| 0 <= j < i + 1 && sp@[j].0@ == kk by {
                if exists|j: int| 0 <= j < i && sp@[j].0@ == kk {
                    let j = choose|j: int| 0 <= j < i && sp@[j].0@ == kk;
                    assert(0 <= j < i + 1 && sp@[j].0@ == kk);
                }
                if exists|j: int| 0 <= j < i + 1 && sp@[j].0@ == kk {
                    let j = choose|j: int| 0 <= j < i + 1 && sp@[j].0@ == kk;
                    if j < i {
                        assert(exists|j2: int| 0 <= j2 < i && sp@[j2].0@ == kk);
                    }
                }
            }
            assert forall|kk: KeyModel| #[trigger] m1.contains_key(kk) implies m1[kk] == if exists|j: int|
                0 <= j < i + 1 && sp@[j].0@ == kk {
                sv[kk]
            } else {
                dv[kk]
            } by {
                if exists|j: int| 0 <= j < i && sp@[j].0@ == kk {
                    let j = choose|j: int| 0 <= j < i && sp@[j].0@ == kk;
                    assert(0 <= j < i + 1 && sp@[j].0@ == kk);
                }
                if exists|j: int| 0 <= j < i + 1 && sp@[j].0@ == kk {
                    let j = choose|j: int| 0 <= j < i + 1 && sp@[j].0@ == kk;
                    if j < i {
                        assert(exists|j2: int| 0 <= j2 < i && sp@[j2].0@ == kk);
                    }
                }
            }
        }
        i = i + 1;
    }
    proof {
        assert(seen_added =~= only_in_cache_keys(sv, dv));
        assert(seen_changed =~= mismatch_keys(sv, dv));
        assert forall|k: KeyModel| #[trigger] sv.contains_key(k) implies apply_actions(
            dv,
            actions@,
        )[k] == sv[k] by {
            let j = choose|j: int| 0 <= j < sp@.len() && sp@[j].0@ == k;
            assert(exists|j2: int| 0 <= j2 < i && sp@[j2].0@ == k);
            assert(apply_actions(dv, actions@).contains_key(k));
        }
    }
    let ghost mut seen_removed: Set<KeyModel> = Set::empty();
    let mut q: usize = 0;
    while q < dp.len()
        invariant
            q <= dp@.len(),
            dp@ == dst.pairs(),
            src.wf(),
            dst.wf(),
            sv == src@,
            dv == dst@,
            dp@.len() == dv.len(),
            dv.dom().finite(),
            puts_within(actions@, sv),
            crate::assoc_map::distinct_keys(dp@),
            forall|k: KeyModel| #[trigger]
                dv.contains_key(k) <==> exists|j: int| 0 <= j < dp@.len() && dp@[j].0@ == k,
            seen_removed.finite(),
            seen_removed.subset_of(dv.dom()),
            removed == seen_removed.len(),
            forall|k: KeyModel| #[trigger]
                seen_removed.contains(k) <==> exists|j: int|
                    0 <= j < q && dp@[j].0@ == k && !sv.contains_key(k),
            forall|k: KeyModel| #[trigger]
                apply_actions(dv, actions@).contains_key(k) <==> sv.contains_key(k) || (
                dv.contains_key(k) && !exists|j: int| 0 <= j < q && dp@[j].0@ == k),
            forall|k: KeyModel| #[trigger]
                sv.contains_key(k) ==> apply_actions(dv, actions@)[k] == sv[k],
        decreases dp@.len() - q,
    {
        let (k, _v) = &dp[q];
        let ghost km = k@;
        proof {
            assert(!seen_removed.contains(km)) by {
                if seen_removed.contains(km) {
                    let j = choose|j: int| 0 <= j < q && dp@[j].0@ == km;
                    assert(dp@[j].0@ == dp@[q as int].0@);
                }
            }
            assert(dv.contains_key(km));
            vstd::set_lib::lemma_len_subset(seen_removed.insert(km), dv.dom());
        }
        let ghost prev = actions@;
        if !src.contains_key(k) {
            removed = removed + 1;
            actions.push(RepairAction::Delete(k.copy()));
            proof {
                assert(actions@.drop_last() =~= prev);
                seen_removed = seen_removed.insert(km);
                assert forall|t: int| 0 <= t < actions@.len() implies (#[trigger] actions@[t] matches RepairAction::Put(
                    kk,
                    _,
                ) ==> sv.contains_key(kk@)) by {
                    if t < prev.len() {
                        assert(actions@[t] == prev[t]);
                    }
                }
            }
        }
        proof {
            let m0 = apply_actions(dv, prev);
            let m1 = apply_actions(dv, actions@);
            if sv.contains_key(km) {
                assert(m1 == m0);
            } else {
                assert(m1 == m0.remove(km));
            }
            assert forall|kk: KeyModel| #[trigger] m1.contains_key(kk) <==> sv.contains_key(kk) || (
            dv.contains_key(kk) && !exists|j: int| 0 <= j < q + 1 && dp@[j].0@ == kk) by {
                if kk != km {
                    assert(m1.contains_key(kk) == m0.contains_key(kk));
                }
                if exists|j: int| 0 <= j < q + 1 && dp@[j].0@ == kk {
                    let j = choose|j: int| 0 <= j < q + 1 && dp@[j].0@ == kk;
                    if j < q {
                        assert(exists|j2: int| 0 <= j2 < q && dp@[j2].0@ == kk);
                    }
                }
                if exists|j: int| 0 <= j < q && dp@[j].0@ == kk {
                    let j = choose|j: int| 0 <= j < q && dp@[j].0@ == kk;
                    assert(0 <= j < q + 1 && dp@[j].0@ == kk);
                }
            }
        }
        q = q + 1;
    }
    proof {
        assert(seen_removed =~= only_in_disk_keys(sv, dv));
        assert(apply_actions(dv, actions@) =~= sv);
    }
    (actions, added, changed, removed)
}

/// The changes that a repair towards `target` makes, and its counts. Towards `Disk`, the
/// disk is made to hold what the cache holds; towards `Cache`, the cache what the disk
/// holds. Each count is the number of keys that differed in that way.
pub fn plan_repair(cache: &KvMap, disk: &KvMap, target: RepairTarget) -> (r: (
    Vec<RepairAction>,
    RepairReport,
))
    requires
        cache.wf(),
        disk.wf(),
    ensures
        r.1.target == target,
        r.1.repaired_only_in_cache == only_in_cache_keys(cache@, disk@).len(),
        r.1.repaired_only_in_disk == only_in_disk_keys(cache@, disk@).len(),
        r.1.repaired_value_mismatches == mismatch_keys(cache@, disk@).len(),
        target == RepairTarget::Disk ==> apply_actions(disk@, r.0@) == cache@ && puts_within(r.0@, cache@),
        target == RepairTarget::Cache ==> apply_actions(cache@, r.0@) == disk@ && puts_within(r.0@, disk@),
{
    match target {
        RepairTarget::Disk => {
            let (actions, added, changed, removed) = plan_sync(cache, disk);
            (
                actions,
                RepairReport {
                    target,
                    repaired_only_in_cache: added,
                    repaired_only_in_disk: removed,
                    repaired_value_mismatches: changed,
                },
            )
        },
        RepairTarget::Cache => {
            let (actions, added, changed, removed) = plan_sync(disk, cache);
            proof {
                assert(mismatch_keys(disk@, cache@) =~= mismatch_keys(cache@, disk@));
                assert(only_in_cache_keys(disk@, cache@) =~= only_in_disk_keys(cache@, disk@));
                assert(only_in_disk_keys(disk@, cache@) =~= only_in_cache_keys(cache@, disk@));
            }
            (
                actions,
                RepairReport {
                    target,
                    repaired_only_in_cache: removed,
                    repaired_only_in_disk: added,
                    repaired_value_mismatches: changed,
                },
            )
        },
    }
}

/// A cache and a disk that hold the same map have no differences: so after a repair
/// (towards either side) a new comparison finds no issue.
pub proof fn lemma_same_maps_no_issues(m: KvView)
    requires
        m.dom().finite(),
    ensures
        only_in_cache_keys(m, m).len() == 0,
        only_in_disk_keys(m, m).len() == 0,
        mismatch_keys(m, m).len() == 0,
{
    assert(only_in_cache_keys(m, m) =~= Set::empty());
    assert(only_in_disk_keys(m, m) =~= Set::empty());
    assert(mismatch_keys(m, m) =~= Set::empty());
}

/// A comparison finds no issue exactly when the cache and the disk hold the same map.
pub proof fn lemma_no_issues_iff_same(r: ConsistencyReport, c: KvView, d: KvView)
    requires
        report_counts_match(r, c, d),
        c.dom().finite(),
        d.dom().finite(),
    ensures
        (r.only_in_cache + r.only_in_disk + r.value_mismatches == 0) <==> c == d,
{
    if c == d {
        lemma_same_maps_no_issues(c);
    }
    if r.only_in_cache + r.only_in_disk + r.value_mismatches == 0 {
        only_in_cache_keys(c, d).lemma_len0_is_empty();
        only_in_disk_keys(c, d).lemma_len0_is_empty();
        mismatch_keys(c, d).lemma_len0_is_empty();
        assert forall|k: KeyModel| #[trigger] c.contains_key(k) implies d.contains_key(k) && d[k] == c[k] by {
            assert(!only_in_cache_keys(c, d).contains(k));
            assert(!mismatch_keys(c, d).contains(k));
        }
        assert forall|k: KeyModel| #[trigger] d.contains_key(k) implies c.contains_key(k) by {
            assert(!only_in_disk_keys(c, d).contains(k));
        }
        assert(c =~= d);
    }
}

} // verus!

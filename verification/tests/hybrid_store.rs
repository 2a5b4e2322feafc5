use arookieofcdb::key_codec::KeyEncoding;
use arookieofcdb::storage::reconcile::RepairAction;
use arookieofcdb::storage::{
    ConsistencyReport, HybridStore, RepairMode, RepairReport, RepairTarget, TtlState, WalStore,
};

/// The two files of the disk store, held in memory: the log and the snapshot.
#[derive(Default)]
struct Files {
    wal: Vec<u8>,
    snapshot: Option<Vec<u8>>,
}

const NOW_MS: u64 = 1_700_000_000_000;

fn open_with_strict(files: &Files, strict: bool, now_ms: u64) -> HybridStore {
    match WalStore::restore(files.snapshot.as_deref(), Some(&files.wal), now_ms) {
        Ok(wal) => HybridStore::new(wal, strict),
        Err(fault) => panic!("open hybrid: {fault:?}"),
    }
}

fn open(files: &Files) -> HybridStore {
    open_with_strict(files, false, NOW_MS)
}

fn append(store: &mut HybridStore, files: &mut Files, record: &[u8]) {
    files.wal.extend_from_slice(record);
    store.note_disk_append();
    if store.disk_needs_sync() {
        store.note_disk_sync();
    }
}

fn set(store: &mut HybridStore, files: &mut Files, key: KeyEncoding, value: &[u8]) {
    let record = store.begin_set(&key, value, NOW_MS);
    append(store, files, &record);
    store.finish_set(key, value.to_vec());
}

fn delete(store: &mut HybridStore, files: &mut Files, key: &KeyEncoding) -> Option<Vec<u8>> {
    let logged = match store.begin_delete(key, NOW_MS) {
        Some(record) => {
            append(store, files, &record);
            true
        }
        None => false,
    };
    store.finish_delete(key, logged)
}

fn expire(store: &mut HybridStore, files: &mut Files, key: &KeyEncoding, seconds: u64) -> bool {
    match store.begin_expire(key, seconds, NOW_MS) {
        Some((record, deadline)) => {
            append(store, files, &record);
            store.finish_expire(key, deadline, seconds, NOW_MS);
            true
        }
        None => false,
    }
}

fn disk_write(store: &mut HybridStore, files: &mut Files, key: KeyEncoding, value: &[u8]) {
    let record = store.begin_disk_write(&key, value);
    append(store, files, &record);
    store.finish_disk_write(key, value.to_vec());
}

fn disk_delete(store: &mut HybridStore, files: &mut Files, key: &KeyEncoding) {
    if let Some(record) = store.begin_disk_delete(key) {
        append(store, files, &record);
        store.finish_disk_delete(key);
    }
}

fn repair(store: &mut HybridStore, files: &mut Files, target: RepairTarget) -> RepairReport {
    match target {
        RepairTarget::Cache => store.repair_cache(NOW_MS),
        RepairTarget::Disk => {
            let (actions, report) = store.plan_disk_repair(NOW_MS);
            for action in actions {
                match action {
                    RepairAction::Put(key, value) => disk_write(store, files, key, &value),
                    RepairAction::Delete(key) => disk_delete(store, files, &key),
                }
            }
            report
        }
    }
}

fn verify(store: &mut HybridStore) -> ConsistencyReport {
    store.verify_consistency(NOW_MS)
}

#[test]
fn hybrid_ttl_expires_key() {
    let mut files = Files::default();
    let mut store = open(&files);
    let key = KeyEncoding::Int(7);
    set(&mut store, &mut files, key.clone(), b"v7");
    assert!(expire(&mut store, &mut files, &key, 1));
    assert_eq!(store.ttl(&key, NOW_MS), TtlState::Seconds(1));
    assert_eq!(store.get(&key, NOW_MS + 1100), None);
}

#[test]
fn hybrid_exposes_ttl_expired_counters() {
    let mut files = Files::default();
    let mut store = open(&files);
    let key = KeyEncoding::Raw("ttl:counter".to_string());
    set(&mut store, &mut files, key.clone(), b"v");
    assert!(expire(&mut store, &mut files, &key, 1));
    assert_eq!(store.get(&key, NOW_MS + 1100), None);
    let stats = store.stats();
    assert!(stats.ttl_expired_in_cache >= 1);
    assert!(stats.ttl_expired_on_disk >= 1);
}

#[test]
fn strict_read_repair_fixes_stale_cache() {
    let mut files = Files::default();
    let key = KeyEncoding::Raw("repair:key".to_string());
    let mut store = open_with_strict(&files, true, NOW_MS);
    set(&mut store, &mut files, key.clone(), b"fresh");
    store.inject_cache_fault(key.clone(), b"stale".to_vec());
    assert_eq!(store.get(&key, NOW_MS).as_deref(), Some("fresh".as_bytes()));
    assert!(store.stats().cache_repaired >= 1);
}

#[test]
fn strict_read_repair_invalidates_ghost_cache() {
    let mut files = Files::default();
    let key = KeyEncoding::Raw("ghost:key".to_string());
    let mut store = open_with_strict(&files, true, NOW_MS);
    set(&mut store, &mut files, key.clone(), b"v");
    disk_delete(&mut store, &mut files, &key);
    assert_eq!(store.get(&key, NOW_MS), None);
    assert!(store.stats().cache_invalidated >= 1);
}

#[test]
fn cache_limit_evicts_only_memory_and_can_backfill() {
    let mut files = Files::default();
    let mut store = open(&files);
    store.set_cache_max_keys(1);
    let k1 = KeyEncoding::Raw("k1".to_string());
    let k2 = KeyEncoding::Raw("k2".to_string());
    set(&mut store, &mut files, k1.clone(), b"v1");
    set(&mut store, &mut files, k2.clone(), b"v2");
    assert_eq!(store.cache_current_keys(), 1);
    assert!(store.stats().cache_evictions >= 1);
    assert_eq!(store.get(&k1, NOW_MS).as_deref(), Some("v1".as_bytes()));
}

#[test]
fn cache_policy_none_disables_backfill() {
    let mut files = Files::default();
    let mut store = open(&files);
    let key = KeyEncoding::Raw("p:none".to_string());

    store.set_cache_policy("none").expect("set policy none");
    set(&mut store, &mut files, key.clone(), b"v");

    assert_eq!(store.cache_current_keys(), 0);
    assert_eq!(store.get(&key, NOW_MS).as_deref(), Some("v".as_bytes()));
    assert_eq!(store.cache_current_keys(), 0);

    let hits_before = store.stats().cache_hits;

    store.set_cache_policy("lru").expect("set policy lru");
    assert_eq!(store.get(&key, NOW_MS).as_deref(), Some("v".as_bytes()));
    assert_eq!(store.cache_current_keys(), 1);
    assert!(store.stats().cache_hits >= hits_before);
}

#[test]
fn invalid_cache_policy_is_refused() {
    let files = Files::default();
    let mut store = open(&files);
    let err = store.set_cache_policy("fifo").unwrap_err();
    assert_eq!(err.kind(), std::io::ErrorKind::InvalidInput);
    assert_eq!(err.to_string(), "invalid cache policy: use lru|none");
    assert_eq!(store.cache_policy(), "lru");
    store.set_cache_policy("NONE").expect("policy names ignore case");
    assert_eq!(store.cache_policy(), "none");
}

#[test]
fn verify_detects_mismatch_and_repair_to_disk() {
    let mut files = Files::default();
    let key = KeyEncoding::Raw("vr:key".to_string());
    let mut store = open(&files);
    set(&mut store, &mut files, key.clone(), b"disk");
    store.inject_cache_fault(key.clone(), b"cache".to_vec());

    let report = verify(&mut store);
    assert_eq!(report.value_mismatches, 1);

    let repaired = repair(&mut store, &mut files, RepairTarget::Disk);
    assert_eq!(repaired.repaired_value_mismatches, 1);

    let report_after = verify(&mut store);
    assert_eq!(report_after.total_issues(), 0);
    assert_eq!(store.get_disk_only(&key, NOW_MS).as_deref(), Some("cache".as_bytes()));
}

#[test]
fn verify_detects_disk_only_and_repair_to_cache() {
    let mut files = Files::default();
    let key = KeyEncoding::Raw("vr:disk-only".to_string());
    let mut store = open(&files);
    disk_write(&mut store, &mut files, key.clone(), b"v");

    let report = verify(&mut store);
    assert_eq!(report.only_in_disk, 1);

    let repaired = repair(&mut store, &mut files, RepairTarget::Cache);
    assert_eq!(repaired.repaired_only_in_disk, 1);

    let report_after = verify(&mut store);
    assert_eq!(report_after.total_issues(), 0);
    let summary = store.last_repair_summary().expect("summary recorded");
    assert_eq!(summary.repaired_only_in_disk, 1);
}

#[test]
fn fault_cache_only_creates_only_in_cache_issue() {
    let files = Files::default();
    let key = KeyEncoding::Raw("fault:cache".to_string());
    let mut store = open(&files);
    store.inject_cache_fault(key, b"v".to_vec());
    assert_eq!(verify(&mut store).only_in_cache, 1);
}

#[test]
fn fault_disk_only_creates_only_in_disk_issue() {
    let mut files = Files::default();
    let key = KeyEncoding::Raw("fault:disk".to_string());
    let mut store = open(&files);
    disk_write(&mut store, &mut files, key, b"v");
    assert_eq!(verify(&mut store).only_in_disk, 1);
}

#[test]
fn repair_mode_read_enables_auto_repair() {
    let mut files = Files::default();
    let key = KeyEncoding::Raw("rm:key".to_string());
    let mut store = open_with_strict(&files, false, NOW_MS);
    set(&mut store, &mut files, key.clone(), b"disk");
    store.inject_cache_fault(key.clone(), b"stale".to_vec());

    assert_eq!(store.get(&key, NOW_MS).as_deref(), Some("stale".as_bytes()));
    assert!(verify(&mut store).total_issues() >= 1);

    store.set_repair_mode(RepairMode::Read);

    assert_eq!(store.get(&key, NOW_MS).as_deref(), Some("disk".as_bytes()));
    assert_eq!(verify(&mut store).total_issues(), 0);
    assert!(store.stats().auto_repairs >= 1);
}

#[test]
fn repair_mode_write_repairs_on_next_write() {
    let mut files = Files::default();
    let ghost = KeyEncoding::Raw("rm:write:ghost".to_string());
    let trigger = KeyEncoding::Raw("rm:write:trigger".to_string());
    let mut store = open_with_strict(&files, false, NOW_MS);

    disk_write(&mut store, &mut files, ghost, b"v");
    assert_eq!(verify(&mut store).only_in_disk, 1);

    store.set_repair_mode(RepairMode::Write);
    set(&mut store, &mut files, trigger, b"x");

    let report_after = verify(&mut store);
    assert_eq!(report_after.total_issues(), 0, "report={report_after:?}");
    assert!(store.stats().auto_repairs >= 1);
}

#[test]
fn range_reads_disk_truth_in_sorted_order() {
    let mut files = Files::default();
    let mut store = open(&files);
    set(&mut store, &mut files, KeyEncoding::Int(3), b"v3");
    set(&mut store, &mut files, KeyEncoding::Int(1), b"v1");
    set(&mut store, &mut files, KeyEncoding::Int(2), b"v2");
    let got = store.range(&KeyEncoding::Int(1), &KeyEncoding::Int(2), NOW_MS);
    assert_eq!(
        got,
        vec![
            (KeyEncoding::Int(1), b"v1".to_vec()),
            (KeyEncoding::Int(2), b"v2".to_vec()),
        ]
    );
}

#[test]
fn consistency_report_samples_are_sorted_and_capped() {
    let files = Files::default();
    let mut store = open(&files);
    for i in (0..15).rev() {
        store.inject_cache_fault(KeyEncoding::Int(i), b"c".to_vec());
    }
    let report = verify(&mut store);
    assert_eq!(report.only_in_cache, 15);
    assert_eq!(report.cache_keys, 15);
    assert_eq!(report.disk_keys, 0);
    assert_eq!(report.samples.len(), 10);
    for (i, sample) in report.samples.iter().enumerate() {
        assert_eq!(sample.key, KeyEncoding::Int(i as i64));
    }
}

#[test]
fn checkpoint_of_hybrid_disk_restores_after_restart() {
    let mut files = Files::default();
    let key = KeyEncoding::Int(5);
    {
        let mut store = open(&files);
        set(&mut store, &mut files, key.clone(), b"five");
        files.snapshot = Some(store.disk_checkpoint_bytes(NOW_MS));
        files.wal.clear();
    }
    let mut reopened = open(&files);
    assert_eq!(reopened.len(), 1);
    assert_eq!(reopened.get(&key, NOW_MS).as_deref(), Some("five".as_bytes()));
}

#[test]
fn delete_gives_the_cache_value_when_the_disk_lacks_the_key() {
    let mut files = Files::default();
    let key = KeyEncoding::Raw("cache-only".to_string());
    let mut store = open(&files);
    store.inject_cache_fault(key.clone(), b"c".to_vec());
    let before = files.wal.len();
    assert_eq!(delete(&mut store, &mut files, &key).as_deref(), Some("c".as_bytes()));
    assert_eq!(files.wal.len(), before);
    assert_eq!(verify(&mut store).total_issues(), 0);
    assert_eq!(delete(&mut store, &mut files, &key), None);
}

#[test]
fn repair_into_bounded_cache_keeps_only_disk_values() {
    let mut files = Files::default();
    let mut store = open(&files);
    store.set_cache_max_keys(1);
    let keys: Vec<KeyEncoding> = (0..3).map(|i| KeyEncoding::Raw(format!("bounded:{i}"))).collect();
    for key in &keys {
        disk_write(&mut store, &mut files, key.clone(), b"disk");
    }
    store.inject_cache_fault(keys[0].clone(), b"stale".to_vec());

    let repaired = repair(&mut store, &mut files, RepairTarget::Cache);
    assert_eq!(repaired.repaired_value_mismatches, 1);
    assert_eq!(repaired.repaired_only_in_disk, 2);
    assert_eq!(store.cache_current_keys(), 1);

    let after = verify(&mut store);
    assert_eq!(after.only_in_cache, 0);
    assert_eq!(after.value_mismatches, 0);
    assert_eq!(after.only_in_disk, 2);
}

use arookieofcdb::key_codec::KeyEncoding;
use arookieofcdb::storage::{HybridStore, KvEngine, MemoryStore, TtlState, WalStore};
use arookieofcdb::value_codec::StringEncoding;

/// The two files of a disk store, held in memory: the log and the snapshot.
#[derive(Default)]
struct Files {
    wal: Vec<u8>,
    snapshot: Option<Vec<u8>>,
}

const NOW_MS: u64 = 1_700_000_000_000;

fn float_bits(input: &str) -> Option<u64> {
    match input.parse::<f64>() {
        Ok(v) if v.is_finite() => Some(v.to_bits()),
        _ => None,
    }
}

fn s(input: &str) -> Vec<u8> {
    StringEncoding::from_input(input, float_bits(input)).encode()
}

fn display(raw: &[u8]) -> String {
    match StringEncoding::decode(raw) {
        StringEncoding::Float(bits) => f64::from_bits(bits).to_string(),
        other => other.to_display_string().expect("text or integer value"),
    }
}

fn decoded(store: &mut dyn KvEngine, key: &KeyEncoding) -> Option<String> {
    store.get(key).map(display)
}

fn open_wal(files: &Files, now_ms: u64) -> WalStore {
    match WalStore::restore(files.snapshot.as_deref(), Some(&files.wal), now_ms) {
        Ok(store) => store,
        Err(fault) => panic!("open wal: {fault:?}"),
    }
}

fn wal_set(store: &mut WalStore, files: &mut Files, key: &KeyEncoding, value: Vec<u8>) {
    let record = store.begin_set(key, &value);
    files.wal.extend_from_slice(&record);
    store.note_append();
    store.apply_set(key.clone(), value);
}

fn wal_delete(store: &mut WalStore, files: &mut Files, key: &KeyEncoding) {
    if let Some(record) = store.begin_delete(key) {
        files.wal.extend_from_slice(&record);
        store.note_append();
        store.apply_delete(key);
    }
}

fn wal_expire(store: &mut WalStore, files: &mut Files, key: &KeyEncoding, seconds: u64) -> bool {
    match store.begin_expire(key, seconds, NOW_MS) {
        Some((record, deadline)) => {
            files.wal.extend_from_slice(&record);
            store.note_append();
            store.apply_expire(key.clone(), deadline);
            true
        }
        None => false,
    }
}

fn wal_get(store: &mut WalStore, key: &KeyEncoding, now_ms: u64) -> Option<String> {
    store.get_live(key, now_ms).map(|v| display(&v))
}

fn open_hybrid(files: &Files, now_ms: u64) -> HybridStore {
    HybridStore::new(open_wal(files, now_ms), false)
}

fn hy_append(store: &mut HybridStore, files: &mut Files, record: &[u8]) {
    files.wal.extend_from_slice(record);
    store.note_disk_append();
    if store.disk_needs_sync() {
        store.note_disk_sync();
    }
}

fn hy_set(store: &mut HybridStore, files: &mut Files, key: &KeyEncoding, value: Vec<u8>) {
    let record = store.begin_set(key, &value, NOW_MS);
    hy_append(store, files, &record);
    store.finish_set(key.clone(), value);
}

fn hy_delete(store: &mut HybridStore, files: &mut Files, key: &KeyEncoding) {
    let logged = match store.begin_delete(key, NOW_MS) {
        Some(record) => {
            hy_append(store, files, &record);
            true
        }
        None => false,
    };
    store.finish_delete(key, logged);
}

fn hy_expire(store: &mut HybridStore, files: &mut Files, key: &KeyEncoding, seconds: u64) -> bool {
    match store.begin_expire(key, seconds, NOW_MS) {
        Some((record, deadline)) => {
            hy_append(store, files, &record);
            store.finish_expire(key, deadline, seconds, NOW_MS);
            true
        }
        None => false,
    }
}

fn hy_get(store: &mut HybridStore, key: &KeyEncoding, now_ms: u64) -> Option<String> {
    store.get(key, now_ms).map(|v| display(&v))
}

fn hy_disk(store: &mut HybridStore, key: &KeyEncoding) -> Option<String> {
    store.get_disk_only(key, NOW_MS).map(|v| display(&v))
}

#[test]
fn memory_is_not_persistent_across_instances() {
    let key = KeyEncoding::Raw("u:1".to_string());

    let mut store = MemoryStore::new();
    store.set(key.clone(), s("alice")).expect("set in memory");
    assert_eq!(decoded(&mut store, &key), Some("alice".to_string()));

    let mut restarted = MemoryStore::new();
    assert_eq!(decoded(&mut restarted, &key), None);
}

#[test]
fn wal_restart_preserves_last_write_and_delete() {
    let mut files = Files::default();
    let k1 = KeyEncoding::Raw("user:1".to_string());
    let k2 = KeyEncoding::Raw("user:2".to_string());
    {
        let mut store = open_wal(&files, NOW_MS);
        wal_set(&mut store, &mut files, &k1, s("v1"));
        wal_set(&mut store, &mut files, &k1, s("v2"));
        wal_set(&mut store, &mut files, &k2, s("gone"));
        wal_delete(&mut store, &mut files, &k2);
        store.note_sync();
    }
    let mut restarted = open_wal(&files, NOW_MS);
    assert_eq!(wal_get(&mut restarted, &k1, NOW_MS), Some("v2".to_string()));
    assert_eq!(wal_get(&mut restarted, &k2, NOW_MS), None);
}

#[test]
fn hybrid_restart_preserves_last_write_and_delete() {
    let mut files = Files::default();
    let k1 = KeyEncoding::Raw("order:1".to_string());
    let k2 = KeyEncoding::Raw("order:2".to_string());
    {
        let mut store = open_hybrid(&files, NOW_MS);
        hy_set(&mut store, &mut files, &k1, s("init"));
        hy_set(&mut store, &mut files, &k1, s("final"));
        hy_set(&mut store, &mut files, &k2, s("to-delete"));
        hy_delete(&mut store, &mut files, &k2);
        store.note_disk_sync();
    }
    let mut restarted = open_hybrid(&files, NOW_MS);
    assert_eq!(hy_get(&mut restarted, &k1, NOW_MS), Some("final".to_string()));
    assert_eq!(hy_get(&mut restarted, &k2, NOW_MS), None);
}

#[test]
fn hybrid_cache_stays_consistent_after_update_and_delete() {
    let mut files = Files::default();
    let key = KeyEncoding::Raw("cache:key".to_string());
    let mut store = open_hybrid(&files, NOW_MS);
    hy_set(&mut store, &mut files, &key, s("v1"));
    assert_eq!(hy_get(&mut store, &key, NOW_MS), Some("v1".to_string()));
    hy_set(&mut store, &mut files, &key, s("v2"));
    assert_eq!(hy_get(&mut store, &key, NOW_MS), Some("v2".to_string()));
    hy_delete(&mut store, &mut files, &key);
    assert_eq!(hy_get(&mut store, &key, NOW_MS), None);
}

#[test]
fn wal_recovers_from_truncated_tail_after_checkpoint() {
    let mut files = Files::default();
    let k1 = KeyEncoding::Raw("cp:1".to_string());
    let k2 = KeyEncoding::Raw("cp:2".to_string());
    let k3 = KeyEncoding::Raw("cp:3".to_string());
    {
        let mut store = open_wal(&files, NOW_MS);
        wal_set(&mut store, &mut files, &k1, s("a"));
        wal_set(&mut store, &mut files, &k2, s("b"));
        files.snapshot = Some(store.checkpoint_bytes(NOW_MS));
        files.wal.clear();
        wal_set(&mut store, &mut files, &k3, s("c"));
        store.note_sync();
    }
    files.wal.push(3);
    let mut restarted = open_wal(&files, NOW_MS);
    assert_eq!(wal_get(&mut restarted, &k1, NOW_MS), Some("a".to_string()));
    assert_eq!(wal_get(&mut restarted, &k2, NOW_MS), Some("b".to_string()));
    assert_eq!(wal_get(&mut restarted, &k3, NOW_MS), Some("c".to_string()));
}

#[test]
fn hybrid_recovers_from_truncated_wal_tail() {
    let mut files = Files::default();
    let key = KeyEncoding::Raw("hy:1".to_string());
    {
        let mut store = open_hybrid(&files, NOW_MS);
        hy_set(&mut store, &mut files, &key, s("ok"));
        store.note_disk_sync();
    }
    files.wal.push(4);
    let mut restarted = open_hybrid(&files, NOW_MS);
    assert_eq!(hy_get(&mut restarted, &key, NOW_MS), Some("ok".to_string()));
}

#[test]
fn wal_ttl_is_persisted_across_restart() {
    let mut files = Files::default();
    let key = KeyEncoding::Raw("ttl:wal".to_string());
    {
        let mut store = open_wal(&files, NOW_MS);
        wal_set(&mut store, &mut files, &key, s("v"));
        assert!(wal_expire(&mut store, &mut files, &key, 30));
        match store.ttl(&key, NOW_MS) {
            TtlState::Seconds(sec) => assert!(sec >= 1),
            other => panic!("unexpected ttl before restart: {other:?}"),
        }
    }
    let later = NOW_MS + 10;
    let mut restarted = open_wal(&files, later);
    assert_eq!(wal_get(&mut restarted, &key, later), Some("v".to_string()));
    match restarted.ttl(&key, later) {
        TtlState::Seconds(sec) => assert!(sec >= 1),
        other => panic!("unexpected ttl after restart: {other:?}"),
    }
    let stats = restarted.stats();
    assert!(stats.ttl_loaded_on_startup >= 1);
    assert_eq!(stats.ttl_pruned_on_startup, 0);
}

#[test]
fn wal_expired_while_down_remains_expired_after_restart() {
    let mut files = Files::default();
    let key = KeyEncoding::Raw("ttl:down".to_string());
    {
        let mut store = open_wal(&files, NOW_MS);
        wal_set(&mut store, &mut files, &key, s("v"));
        assert!(wal_expire(&mut store, &mut files, &key, 1));
        store.note_sync();
    }
    let later = NOW_MS + 1100;
    let mut restarted = open_wal(&files, later);
    assert_eq!(wal_get(&mut restarted, &key, later), None);
    assert_eq!(restarted.ttl(&key, later), TtlState::NotFound);
    let stats = restarted.stats();
    assert!(stats.ttl_loaded_on_startup >= 1);
    assert!(stats.ttl_pruned_on_startup >= 1);
}

#[test]
fn hybrid_get_and_disk_read_stay_consistent_after_update_and_delete() {
    let mut files = Files::default();
    let key = KeyEncoding::Raw("hy:order:1".to_string());
    let mut store = open_hybrid(&files, NOW_MS);

    hy_set(&mut store, &mut files, &key, s("v1"));
    assert_eq!(hy_get(&mut store, &key, NOW_MS), Some("v1".to_string()));
    assert_eq!(hy_disk(&mut store, &key), Some("v1".to_string()));

    hy_set(&mut store, &mut files, &key, s("v2"));
    assert_eq!(hy_get(&mut store, &key, NOW_MS), Some("v2".to_string()));
    assert_eq!(hy_disk(&mut store, &key), Some("v2".to_string()));

    hy_delete(&mut store, &mut files, &key);
    assert_eq!(hy_get(&mut store, &key, NOW_MS), None);
    assert_eq!(hy_disk(&mut store, &key), None);
}

#[test]
fn hybrid_cache_miss_backfills_from_disk_consistently() {
    let mut files = Files::default();
    let key = KeyEncoding::Raw("hy:miss:1".to_string());
    let mut store = open_hybrid(&files, NOW_MS);
    store.set_cache_policy("none").expect("set none");
    hy_set(&mut store, &mut files, &key, s("from-disk"));
    assert_eq!(store.cache_current_keys(), 0);

    store.set_cache_policy("lru").expect("set lru");

    assert_eq!(hy_get(&mut store, &key, NOW_MS), Some("from-disk".to_string()));
    assert_eq!(store.cache_current_keys(), 1);
    assert_eq!(hy_disk(&mut store, &key), Some("from-disk".to_string()));
}

#[test]
fn hybrid_ttl_is_persisted_across_restart() {
    let mut files = Files::default();
    let key = KeyEncoding::Raw("ttl:hybrid".to_string());
    {
        let mut store = open_hybrid(&files, NOW_MS);
        hy_set(&mut store, &mut files, &key, s("v"));
        assert!(hy_expire(&mut store, &mut files, &key, 30));
    }
    let later = NOW_MS + 10;
    let mut restarted = open_hybrid(&files, later);
    assert_eq!(hy_get(&mut restarted, &key, later), Some("v".to_string()));
    match restarted.ttl(&key, later) {
        TtlState::Seconds(sec) => assert!(sec >= 1),
        other => panic!("unexpected ttl state: {other:?}"),
    }
    let stats = restarted.stats();
    assert!(stats.ttl_loaded_on_startup >= 1);
    assert_eq!(stats.ttl_pruned_on_startup, 0);
}

#[test]
fn hybrid_expired_while_down_remains_expired_after_restart() {
    let mut files = Files::default();
    let key = KeyEncoding::Raw("ttl:hy-down".to_string());
    {
        let mut store = open_hybrid(&files, NOW_MS);
        hy_set(&mut store, &mut files, &key, s("v"));
        assert!(hy_expire(&mut store, &mut files, &key, 1));
        store.note_disk_sync();
    }
    let later = NOW_MS + 1100;
    let mut restarted = open_hybrid(&files, later);
    assert_eq!(hy_get(&mut restarted, &key, later), None);
    assert_eq!(restarted.ttl(&key, later), TtlState::NotFound);
    let stats = restarted.stats();
    assert!(stats.ttl_loaded_on_startup >= 1);
    assert!(stats.ttl_pruned_on_startup >= 1);
}

#[test]
fn hybrid_cache_eviction_does_not_break_disk_truth() {
    let mut files = Files::default();
    let k1 = KeyEncoding::Raw("hy:evict:1".to_string());
    let k2 = KeyEncoding::Raw("hy:evict:2".to_string());
    let mut store = open_hybrid(&files, NOW_MS);
    store.set_cache_max_keys(1);
    hy_set(&mut store, &mut files, &k1, s("v1"));
    hy_set(&mut store, &mut files, &k2, s("v2"));
    assert_eq!(hy_disk(&mut store, &k1), Some("v1".to_string()));
    assert_eq!(hy_disk(&mut store, &k2), Some("v2".to_string()));
}

#[test]
fn float_values_survive_the_log() {
    let mut files = Files::default();
    let key = KeyEncoding::Int(1);
    {
        let mut store = open_wal(&files, NOW_MS);
        wal_set(&mut store, &mut files, &key, s("2.5"));
    }
    let mut restarted = open_wal(&files, NOW_MS);
    assert_eq!(wal_get(&mut restarted, &key, NOW_MS), Some("2.5".to_string()));
}

use arookieofcdb::storage::io_failure::IoFailure;
use arookieofcdb::storage::snapshot::SnapshotFault;
use arookieofcdb::storage::wal_log::ReplayFault;
use arookieofcdb::storage::wal_store::{restore_error, restore_fault_parts, RestoreFault};
use arookieofcdb::key_codec::KeyEncoding;
use arookieofcdb::storage::wal_log::OP_SET_V2;
use arookieofcdb::storage::{SyncPolicy, TtlState, WalStore};

/// The two files of a store, held in memory: the log and the snapshot.
#[derive(Default)]
struct Files {
    wal: Vec<u8>,
    snapshot: Option<Vec<u8>>,
}

const NOW_MS: u64 = 1_700_000_000_000;

fn open(files: &Files, now_ms: u64, what: &str) -> WalStore {
    match WalStore::restore(files.snapshot.as_deref(), Some(&files.wal), now_ms) {
        Ok(store) => store,
        Err(fault) => panic!("{what}: {fault:?}"),
    }
}

fn set(store: &mut WalStore, files: &mut Files, key: KeyEncoding, value: &[u8]) {
    let record = store.begin_set(&key, value);
    files.wal.extend_from_slice(&record);
    store.note_append();
    store.apply_set(key, value.to_vec());
}

fn delete(store: &mut WalStore, files: &mut Files, key: &KeyEncoding) -> bool {
    match store.begin_delete(key) {
        Some(record) => {
            files.wal.extend_from_slice(&record);
            store.note_append();
            store.apply_delete(key).is_some()
        }
        None => false,
    }
}

fn expire(store: &mut WalStore, files: &mut Files, key: &KeyEncoding, seconds: u64) -> bool {
    match store.begin_expire(key, seconds, NOW_MS) {
        Some((record, deadline)) => {
            files.wal.extend_from_slice(&record);
            store.note_append();
            store.apply_expire(key.clone(), deadline);
            true
        }
        None => false,
    }
}

fn checkpoint(store: &mut WalStore, files: &mut Files) {
    files.snapshot = Some(store.checkpoint_bytes(NOW_MS));
    files.wal.clear();
}

#[test]
fn replay_from_wal_after_restart() {
    let mut files = Files::default();
    {
        let mut store = open(&files, NOW_MS, "open store");
        set(&mut store, &mut files, KeyEncoding::Int(1), b"v1");
        set(&mut store, &mut files, KeyEncoding::Raw("user:2".to_string()), b"v2");
        assert!(delete(&mut store, &mut files, &KeyEncoding::Int(1)));
    }
    {
        let store = open(&files, NOW_MS, "re-open store");
        assert_eq!(store.get(&KeyEncoding::Int(1)), None);
        assert_eq!(
            store.get(&KeyEncoding::Raw("user:2".to_string())).as_deref(),
            Some("v2".as_bytes())
        );
        assert_eq!(store.len(), 1);
    }
}

#[test]
fn checkpoint_compacts_wal_and_restores_state() {
    let mut files = Files::default();
    {
        let mut store = open(&files, NOW_MS, "open store");
        set(&mut store, &mut files, KeyEncoding::Int(1), b"v1");
        set(&mut store, &mut files, KeyEncoding::Raw("k2".to_string()), b"v2");
        assert!(delete(&mut store, &mut files, &KeyEncoding::Int(1)));
        checkpoint(&mut store, &mut files);
        assert_eq!(files.wal.len(), 0);
        assert!(files.snapshot.is_some());
    }
    {
        let mut store = open(&files, NOW_MS, "re-open from snapshot");
        assert_eq!(store.get(&KeyEncoding::Int(1)), None);
        assert_eq!(
            store.get(&KeyEncoding::Raw("k2".to_string())).as_deref(),
            Some("v2".as_bytes())
        );
        assert_eq!(store.len(), 1);
        set(&mut store, &mut files, KeyEncoding::Float(3.5f64.to_bits()), b"v3");
    }
    {
        let store = open(&files, NOW_MS, "re-open second time");
        assert_eq!(
            store.get(&KeyEncoding::Raw("k2".to_string())).as_deref(),
            Some("v2".as_bytes())
        );
        assert_eq!(
            store.get(&KeyEncoding::Float(3.5f64.to_bits())).as_deref(),
            Some("v3".as_bytes())
        );
        assert_eq!(store.len(), 2);
    }
}

#[test]
fn truncated_wal_tail_is_ignored_on_replay() {
    let mut files = Files::default();
    {
        let mut store = open(&files, NOW_MS, "open store");
        set(&mut store, &mut files, KeyEncoding::Int(11), b"ok");
        store.set_sync_policy(SyncPolicy::Manual);
        store.note_sync();
    }
    files.wal.push(OP_SET_V2);
    let store = open(&files, NOW_MS, "re-open with truncated tail");
    assert_eq!(store.get(&KeyEncoding::Int(11)).as_deref(), Some("ok".as_bytes()));
}

#[test]
fn ttl_survives_restart() {
    let mut files = Files::default();
    let key = KeyEncoding::Raw("ttl:k".to_string());
    {
        let mut store = open(&files, NOW_MS, "open store");
        set(&mut store, &mut files, key.clone(), b"v");
        assert!(expire(&mut store, &mut files, &key, 30));
    }
    {
        let mut restarted = open(&files, NOW_MS + 10, "re-open");
        assert_eq!(restarted.get(&key).as_deref(), Some("v".as_bytes()));
        match restarted.ttl(&key, NOW_MS + 10) {
            TtlState::Seconds(sec) => assert!(sec >= 1),
            other => panic!("unexpected ttl state: {other:?}"),
        }
    }
}

#[test]
fn range_returns_inclusive_sorted_pairs() {
    let mut files = Files::default();
    let mut store = open(&files, NOW_MS, "open store");
    set(&mut store, &mut files, KeyEncoding::Int(3), b"v3");
    set(&mut store, &mut files, KeyEncoding::Int(1), b"v1");
    set(&mut store, &mut files, KeyEncoding::Int(2), b"v2");

    let got = store.range(&KeyEncoding::Int(1), &KeyEncoding::Int(2), NOW_MS);
    assert_eq!(
        got,
        vec![
            (KeyEncoding::Int(1), b"v1".to_vec()),
            (KeyEncoding::Int(2), b"v2".to_vec()),
        ]
    );
}

#[test]
fn wal_ttl_seconds_round_down_and_expiry_edges() {
    let mut files = Files::default();
    let key = KeyEncoding::Int(7);
    let mut store = open(&files, NOW_MS, "open store");
    assert_eq!(store.ttl(&key, NOW_MS), TtlState::NotFound);
    set(&mut store, &mut files, key.clone(), b"x");
    assert_eq!(store.ttl(&key, NOW_MS), TtlState::NoExpire);
    assert!(expire(&mut store, &mut files, &key, 2));
    assert_eq!(store.ttl(&key, NOW_MS + 500), TtlState::Seconds(1));
    assert_eq!(store.ttl(&key, NOW_MS + 1500), TtlState::Seconds(0));
    assert_eq!(store.ttl(&key, NOW_MS + 2000), TtlState::NotFound);
    assert!(!expire(&mut store, &mut files, &KeyEncoding::Int(8), 5));
}

#[test]
fn wal_set_clears_deadline_and_delete_of_missing_key_writes_nothing() {
    let mut files = Files::default();
    let key = KeyEncoding::Raw("k".to_string());
    let mut store = open(&files, NOW_MS, "open store");
    set(&mut store, &mut files, key.clone(), b"a");
    assert!(expire(&mut store, &mut files, &key, 1));
    set(&mut store, &mut files, key.clone(), b"b");
    assert_eq!(store.ttl(&key, NOW_MS + 5000), TtlState::NoExpire);
    let before = files.wal.len();
    assert!(!delete(&mut store, &mut files, &KeyEncoding::Int(99)));
    assert_eq!(files.wal.len(), before);
    let restarted = open(&files, NOW_MS + 5000, "re-open");
    assert_eq!(restarted.get(&key).as_deref(), Some("b".as_bytes()));
}

#[test]
fn wal_unknown_op_is_a_fault() {
    let files = Files {
        wal: vec![0x7f, 0, 0, 0, 0],
        snapshot: None,
    };
    assert!(WalStore::restore(None, Some(&files.wal), NOW_MS).is_err());
}

#[test]
fn wal_bad_snapshot_magic_is_a_fault() {
    let snapshot = b"NOTASNAP".to_vec();
    assert!(WalStore::restore(Some(&snapshot), None, NOW_MS).is_err());
}

#[test]
fn wal_entries_are_sorted_and_skip_expired() {
    let mut files = Files::default();
    let mut store = open(&files, NOW_MS, "open store");
    set(&mut store, &mut files, KeyEncoding::Raw("b".to_string()), b"2");
    set(&mut store, &mut files, KeyEncoding::Raw("a".to_string()), b"1");
    set(&mut store, &mut files, KeyEncoding::Raw("c".to_string()), b"3");
    assert!(expire(&mut store, &mut files, &KeyEncoding::Raw("c".to_string()), 1));
    let got = store.entries(NOW_MS + 1000);
    assert_eq!(
        got,
        vec![
            (KeyEncoding::Raw("a".to_string()), b"1".to_vec()),
            (KeyEncoding::Raw("b".to_string()), b"2".to_vec()),
        ]
    );
}

#[test]
fn restore_faults_name_their_error() {

    let (kind, message) = restore_fault_parts(RestoreFault::Wal(ReplayFault::UnknownOp(9)));
    assert_eq!(kind, IoFailure::InvalidData);
    assert_eq!(message, "unknown wal op code: 9");
    let (kind, message) = restore_fault_parts(RestoreFault::Snapshot(SnapshotFault::Truncated));
    assert_eq!(kind, IoFailure::UnexpectedEof);
    assert_eq!(message, "failed to fill whole buffer");
    let (kind, message) = restore_fault_parts(RestoreFault::Snapshot(SnapshotFault::BadMagic));
    assert_eq!(kind, IoFailure::InvalidData);
    assert_eq!(message, "invalid snapshot magic");

    let err = restore_error(RestoreFault::Wal(ReplayFault::InvalidKey));
    assert_eq!(err.kind(), std::io::ErrorKind::InvalidData);
    assert_eq!(err.to_string(), "invalid encoded key in wal/snapshot");
}

#[test]
fn older_records_replay_and_longer_torn_tails_are_ignored() {
    let mut wal: Vec<u8> = Vec::new();
    wal.push(1);
    wal.extend_from_slice(&7i64.to_le_bytes());
    wal.extend_from_slice(&2u32.to_le_bytes());
    wal.extend_from_slice(b"v1");
    wal.push(1);
    wal.extend_from_slice(&9i64.to_le_bytes());
    wal.extend_from_slice(&1u32.to_le_bytes());
    wal.extend_from_slice(b"x");
    wal.push(2);
    wal.extend_from_slice(&9i64.to_le_bytes());
    wal.extend_from_slice(&[3, 20, 0]);
    let store = WalStore::restore(None, Some(&wal), NOW_MS).expect("restore");
    assert_eq!(store.get(&KeyEncoding::Int(7)).as_deref(), Some("v1".as_bytes()));
    assert_eq!(store.get(&KeyEncoding::Int(9)), None);
    assert_eq!(store.len(), 1);
}

use arookieofcdb::assoc_map::AssocMap;
use arookieofcdb::storage::db_state::DbState;
use arookieofcdb::wal::checkpoint::{Checkpoint, CheckpointManager};
use arookieofcdb::wal::checksum::crc32;
use arookieofcdb::wal::log_entry::LogEntry;
use arookieofcdb::wal::types::entry_type::EntryType;
use arookieofcdb::wal::types::opration_type::OprationType;
use arookieofcdb::wal::wal_config::WalConfig;
use arookieofcdb::wal::wal_files::{
    beyond_retention, last_sequence_in, next_frame, parse_file_number, should_roll,
    superseded_by_checkpoint, wal_file_name, FrameStep,
};
use arookieofcdb::wal::wal_header::{WalHeader, HEADER_SIZE};
use arookieofcdb::wal::wal_position::WalPosition;
use arookieofcdb::wal::WalError;

fn entry(seq: u64, op: OprationType, key: &str, value: &str) -> LogEntry {
    LogEntry::sealed(seq, EntryType::Log, op, key.as_bytes(), value.as_bytes(), 1000 + seq)
}

fn header(start: u64) -> Vec<u8> {
    WalHeader::new("arookieofcDB".to_string(), 1, start, 42).to_bytes()
}

#[test]
fn crc32_matches_the_standard_check_value() {
    assert_eq!(crc32(b"123456789"), 0xCBF4_3926);
    assert_eq!(crc32(b""), 0);
}

#[test]
fn log_entry_round_trips_and_checks_its_checksum() {
    let e = entry(7, OprationType::Insert, "key1", "value1");
    assert!(e.verify_checksum());
    let bytes = e.to_bytes();
    assert_eq!(bytes.len(), LogEntry::entry_size(4, 6));
    let back = LogEntry::from_bytes(&bytes).expect("read entry");
    assert_eq!(back.seq, 7);
    assert_eq!(back.entry_type, EntryType::Log);
    assert_eq!(back.opration_type, OprationType::Insert);
    assert_eq!(back.key, b"key1".to_vec());
    assert_eq!(back.value, b"value1".to_vec());
    assert_eq!(back.timestamp, 1007);
    assert!(back.verify_checksum());
}

#[test]
fn short_log_entry_is_unexpected_eof() {
    assert!(matches!(LogEntry::from_bytes(&[0u8; 10]), Err(WalError::UnexpectedEof)));
}

#[test]
fn header_round_trips_and_rejects_bad_magic() {
    let bytes = header(5);
    assert_eq!(bytes.len(), HEADER_SIZE);
    let h = WalHeader::from_bytes(&bytes).expect("read header");
    assert_eq!(h.get_magic(), "arookieofcDB");
    assert_eq!(h.get_version(), 1);
    assert_eq!(h.get_start_sequence(), 5);
    assert_eq!(h.get_create_time(), 42);

    let mut bad = bytes.clone();
    bad[0] = b'X';
    match WalHeader::from_bytes(&bad) {
        Err(WalError::InvalidHeader(m)) => assert_eq!(m, "invalid magic: XrookieofcDB"),
        Err(other) => panic!("unexpected header error: {other:?}"),
        Ok(_) => panic!("a bad magic was accepted"),
    }
    match WalHeader::from_bytes(&bytes[..10]) {
        Err(WalError::InvalidHeader(m)) => assert_eq!(m, "header too short"),
        Err(other) => panic!("unexpected header error: {other:?}"),
        Ok(_) => panic!("a short header was accepted"),
    }
}

#[test]
fn wal_file_names_pad_and_parse() {
    assert_eq!(wal_file_name(7), "000007.wal");
    assert_eq!(wal_file_name(1234567), "1234567.wal");
    assert_eq!(parse_file_number("000007.wal").expect("parse"), 7);
    match parse_file_number("abc.wal") {
        Err(WalError::InvalidHeader(m)) => assert_eq!(m, "invalid wal file name: abc.wal"),
        other => panic!("unexpected parse result: {other:?}"),
    }
}

#[test]
fn next_frame_walks_records_and_stops_at_a_torn_tail() {
    let mut file = Vec::new();
    file.extend_from_slice(&entry(1, OprationType::Insert, "key1", "one").to_bytes());
    file.extend_from_slice(&entry(2, OprationType::Delete, "key1", "").to_bytes());
    let whole = file.len();
    file.extend_from_slice(&entry(3, OprationType::Insert, "key2", "two").to_bytes()[..20]);

    let second = match next_frame(&file, 0) {
        FrameStep::Record(e, next) => {
            assert_eq!(e.seq, 1);
            next
        }
        _ => panic!("first record"),
    };
    let third = match next_frame(&file, second) {
        FrameStep::Record(e, next) => {
            assert_eq!(e.seq, 2);
            assert_eq!(e.opration_type, OprationType::Delete);
            next
        }
        _ => panic!("second record"),
    };
    assert_eq!(third, whole);
    assert!(matches!(next_frame(&file, third), FrameStep::End));
}

#[test]
fn records_under_33_bytes_end_the_file() {
    let bytes = entry(1, OprationType::Insert, "a", "1").to_bytes();
    assert_eq!(bytes.len(), 32);
    assert!(matches!(next_frame(&bytes, 0), FrameStep::End));
}

#[test]
fn next_frame_reports_a_checksum_mismatch() {
    let mut bytes = entry(1, OprationType::Insert, "key", "value").to_bytes();
    bytes[16] ^= 0xff;
    assert!(matches!(next_frame(&bytes, 0), FrameStep::Fault(WalError::ChecksumMismatch)));
}

#[test]
fn last_sequence_in_scans_after_the_header() {
    let mut file = header(1);
    for seq in 1..=5 {
        file.extend_from_slice(&entry(seq, OprationType::Insert, "key", "value").to_bytes());
    }
    assert_eq!(last_sequence_in(&file, 0).expect("scan"), 5);
    assert_eq!(last_sequence_in(&file, 9).expect("scan"), 9);
    assert!(matches!(last_sequence_in(&file[..20], 0), Err(WalError::IOError(_))));
}

#[test]
fn rolling_and_cleanup_rules() {
    assert!(!should_roll(36, 64, 100));
    assert!(should_roll(37, 64, 100));
    assert!(superseded_by_checkpoint(1, 10_002));
    assert!(!superseded_by_checkpoint(1, 10_001));
    assert!(beyond_retention(1, 3, 5));
    assert!(!beyond_retention(2, 3, 5));
}

#[test]
fn position_tracks_sequence_offset_and_files() {
    let mut pos = WalPosition::fresh();
    assert_eq!(pos.current_file_number, 1);
    assert_eq!(pos.current_sequence, 1);
    assert_eq!(pos.file_offset, HEADER_SIZE as u64);
    let (bytes, roll) = pos.prepare(EntryType::Log, OprationType::Insert, b"k", b"v", 9, 1024);
    assert!(!roll);
    pos.appended(bytes.len() as u64);
    assert_eq!(pos.current_sequence, 2);
    assert_eq!(pos.file_offset, (HEADER_SIZE + bytes.len()) as u64);
    let (_, roll) = pos.prepare(EntryType::Log, OprationType::Insert, b"k", b"v", 9, 40);
    assert!(roll);
    pos.rolled();
    assert_eq!(pos.current_file_number, 2);
    assert_eq!(pos.file_offset, HEADER_SIZE as u64);
    assert_eq!(pos.start_sequence, 1);

    let mut resumed = WalPosition::resumed(3, 10, 500);
    resumed.continue_after(17);
    assert_eq!(resumed.current_file_number, 3);
    assert_eq!(resumed.current_sequence, 18);
    assert_eq!(resumed.file_offset, 500);
}

#[test]
fn checkpoint_round_trips() {
    let mut data = AssocMap::new();
    data.insert(b"key1".to_vec(), b"value1".to_vec());
    data.insert(b"key2".to_vec(), b"value2".to_vec());
    let cp = Checkpoint::new(100, data);
    assert_eq!(cp.sequence(), 100);
    assert_eq!(cp.entry_count(), 2);
    let back = Checkpoint::from_bytes(&cp.to_bytes()).expect("read checkpoint");
    assert_eq!(back.sequence(), 100);
    assert_eq!(back.entry_count(), 2);
    assert_eq!(back.create_time(), cp.create_time());
    assert_eq!(back.data().get(&b"key1".to_vec()), Some(&b"value1".to_vec()));
    assert_eq!(back.data().get(&b"key2".to_vec()), Some(&b"value2".to_vec()));
    assert!(matches!(Checkpoint::from_bytes(b"nonsense"), Err(WalError::InvalidHeader(_))));
}

#[test]
fn checkpoint_path_pads_the_sequence() {
    let manager = CheckpointManager::with_config(WalConfig::new("/tmp/wal"));
    assert_eq!(
        manager.get_checkpoint_path(100),
        b"/tmp/wal/checkpoint_0000000000000100.cp".to_vec()
    );
}

#[test]
fn recovery_applies_the_log_then_the_checkpoint() {
    let entries = vec![
        entry(1, OprationType::Insert, "a", "1"),
        entry(2, OprationType::Insert, "b", "2"),
        entry(3, OprationType::Delete, "a", ""),
        entry(4, OprationType::Update, "b", "3"),
    ];
    let state = DbState::recover(&entries, None);
    assert_eq!(state.get(b"a"), None);
    assert_eq!(state.get(b"b"), Some(b"3".to_vec()));
    assert_eq!(state.len(), 1);

    let mut data = AssocMap::new();
    data.insert(b"b".to_vec(), b"cp".to_vec());
    data.insert(b"c".to_vec(), b"cp".to_vec());
    let cp = Checkpoint::new(4, data);
    let state = DbState::recover(&entries, Some(&cp));
    assert_eq!(state.get(b"b"), Some(b"cp".to_vec()));
    assert_eq!(state.get(b"c"), Some(b"cp".to_vec()));
    assert_eq!(state.len(), 2);
}

#[test]
fn db_state_set_get_delete() {
    let mut state = DbState::new();
    state.set(b"key1", b"value1");
    state.set(b"key2", b"value2");
    assert_eq!(state.get(b"key1"), Some(b"value1".to_vec()));
    assert_eq!(state.get(b"nonexistent"), None);
    assert!(state.delete(b"key1"));
    assert!(!state.delete(b"key1"));
    assert!(!state.contains_key(b"key1"));
    assert_eq!(state.len(), 1);
}

#[test]
fn checkpoint_made_at_a_given_time() {
    let mut data = AssocMap::new();
    data.insert(b"k".to_vec(), b"v".to_vec());
    let cp = Checkpoint::new_at(7, data, 1234);
    assert_eq!(cp.sequence(), 7);
    assert_eq!(cp.entry_count(), 1);
    assert_eq!(cp.create_time(), 1234);
}

#[test]
fn checkpoint_paths_order_as_their_sequences() {
    let manager = CheckpointManager::with_config(WalConfig::new("/tmp/wal"));
    let seqs = [0u64, 9, 10, 99, 100, 12345, 9_999_999_999_999_999];
    for w in seqs.windows(2) {
        assert!(manager.get_checkpoint_path(w[0]) < manager.get_checkpoint_path(w[1]));
    }
}

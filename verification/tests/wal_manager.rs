use arookieofcdb::assoc_map::AssocMap;
use arookieofcdb::wal::checkpoint::{
    is_checkpoint_file_name, old_checkpoints, Checkpoint, CheckpointManager,
};
use arookieofcdb::wal::wal_config::WalConfig;
use arookieofcdb::wal::wal_files::{
    beyond_retention, last_sequence_across, last_sequence_in, superseded_by_checkpoint,
};
use arookieofcdb::wal::wal_header::WalHeader;
use arookieofcdb::wal::wal_manager::{last_by_name, resume_from};
use arookieofcdb::wal::log_entry::LogEntry;
use arookieofcdb::wal::types::entry_type::EntryType;
use arookieofcdb::wal::types::opration_type::OprationType;
use arookieofcdb::wal::WalError;

fn header(start: u64) -> Vec<u8> {
    WalHeader::new("arookieofcDB".to_string(), 1, start, 5).to_bytes()
}

fn checkpoint_name(sequence: u64) -> String {
    format!("checkpoint_{:016}.cp", sequence)
}

#[test]
fn the_last_file_is_the_greatest_name() {
    let names = vec!["000002.wal".to_string(), "000010.wal".to_string(), "000003.wal".to_string()];
    assert_eq!(last_by_name(&names), Some(1));
    assert_eq!(last_by_name(&Vec::new()), None);
    let same = vec!["a".to_string(), "b".to_string(), "b".to_string()];
    assert_eq!(last_by_name(&same), Some(2));
}

#[test]
fn a_writer_resumes_at_the_end_of_its_last_file() {
    let mut bytes = header(7);
    let entry = LogEntry::sealed(9, EntryType::Log, OprationType::Insert, b"key", b"value", 1);
    bytes.extend_from_slice(&entry.to_bytes());
    let mut pos = resume_from("000004.wal", &bytes).expect("resume");
    assert_eq!(pos.current_file_number, 4);
    assert_eq!(pos.start_sequence, 7);
    assert_eq!(pos.current_sequence, 7);
    assert_eq!(pos.file_offset, bytes.len() as u64);
    let last = last_sequence_in(&bytes, pos.start_sequence - 1).expect("scan");
    pos.continue_after(last);
    assert_eq!(pos.current_sequence, 10);

    match resume_from("log.txt", &bytes) {
        Err(WalError::InvalidHeader(m)) => assert_eq!(m, "invalid wal file name: log.txt"),
        _ => panic!("a bad name was accepted"),
    }
    match resume_from("000001.wal", &bytes[..20]) {
        Err(WalError::IOError(e)) => assert_eq!(e.kind(), std::io::ErrorKind::UnexpectedEof),
        _ => panic!("a short file was accepted"),
    }
}

#[test]
fn checkpoint_names_are_recognised() {
    assert!(is_checkpoint_file_name("checkpoint_0000000000000001.cp"));
    assert!(is_checkpoint_file_name("checkpoint_latest.cp"));
    assert!(!is_checkpoint_file_name("000001.wal"));
    assert!(!is_checkpoint_file_name("checkpoint_1.cpx"));
}

#[test]
fn test_checkpoint_multiple_cleanup() {
    let mut names: Vec<String> = (0..5).map(|i| checkpoint_name(i * 100)).collect();
    names.push("checkpoint_latest.cp".to_string());
    assert_eq!(names.len(), 6);
    let removed = old_checkpoints(names, 2);
    assert_eq!(removed.len(), 3);
    assert_eq!(
        removed,
        vec![checkpoint_name(200), checkpoint_name(100), checkpoint_name(0)]
    );
}

#[test]
fn cleanup_keeping_more_than_there_are_removes_nothing() {
    let names = vec![checkpoint_name(1), "checkpoint_latest.cp".to_string()];
    assert!(old_checkpoints(names, 2).is_empty());
}

#[test]
fn test_checkpoint_save_load() {
    let config = WalConfig::new("checkpoint_save_load");
    let manager = CheckpointManager::with_config(config);
    let mut data = AssocMap::new();
    data.insert(b"key1".to_vec(), b"value1".to_vec());
    data.insert(b"key2".to_vec(), b"value2".to_vec());
    data.insert(b"key3".to_vec(), b"value3".to_vec());
    let checkpoint = Checkpoint::new(100, data);
    let path = manager.get_checkpoint_path(checkpoint.sequence());
    assert_eq!(path, b"checkpoint_save_load/checkpoint_0000000000000100.cp".to_vec());
    let loaded = Checkpoint::from_bytes(&checkpoint.to_bytes()).expect("load");
    assert_eq!(loaded.sequence(), 100);
    assert_eq!(loaded.entry_count(), 3);
    for (key, value) in [("key1", "value1"), ("key2", "value2"), ("key3", "value3")] {
        assert_eq!(loaded.data().get(&key.as_bytes().to_vec()), Some(&value.as_bytes().to_vec()));
    }
}

#[test]
fn test_checkpoint_integration_with_wal() {
    let config = WalConfig::new("integration");
    let files = [(1u64, 1u64)];
    let remaining = files
        .iter()
        .filter(|(number, start)| {
            !superseded_by_checkpoint(*start, 10)
                && !beyond_retention(*number, config.max_retained_files, 1)
        })
        .count();
    assert!(remaining <= 1);
}

#[test]
fn the_last_sequence_runs_across_files_in_order() {
    let mut first = header(1);
    first.extend_from_slice(
        &LogEntry::sealed(3, EntryType::Log, OprationType::Insert, b"key-a", b"value-1", 1).to_bytes(),
    );
    let mut second = header(4);
    second.extend_from_slice(
        &LogEntry::sealed(8, EntryType::Log, OprationType::Insert, b"key-b", b"value-2", 1).to_bytes(),
    );
    assert_eq!(last_sequence_across(&vec![first.clone(), second.clone()], 0).expect("scan"), 8);
    assert_eq!(last_sequence_across(&vec![first.clone()], 0).expect("scan"), 3);
    assert_eq!(last_sequence_across(&Vec::new(), 5).expect("scan"), 5);
    assert!(matches!(
        last_sequence_across(&vec![first, second[..20].to_vec()], 0),
        Err(WalError::IOError(_))
    ));
}

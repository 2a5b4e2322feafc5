use arookieofcdb::wal::types::entry_type::EntryType;
use arookieofcdb::wal::types::opration_type::OprationType;
use arookieofcdb::wal::wal_config::WalConfig;
use arookieofcdb::wal::wal_files::{beyond_retention, superseded_by_checkpoint, wal_file_name};
use arookieofcdb::wal::wal_header::WalHeader;
use arookieofcdb::wal::wal_position::WalPosition;
use arookieofcdb::wal::wal_reader::{is_wal_file_name, sort_by_name, WalReader};
use arookieofcdb::wal::WalError;

/// The log files a writer leaves after writing `key{i}`/`value{i}` for each `i` below `n`:
/// (file number, first sequence, name, contents), in the order they were made.
fn write_log(config: &WalConfig, n: usize) -> Vec<(u64, u64, String, Vec<u8>)> {
    let header = |start: u64| WalHeader::new("arookieofcDB".to_string(), 1, start, 7).to_bytes();
    let mut pos = WalPosition::fresh();
    let mut files = vec![(1, 1, wal_file_name(1), header(1))];
    for i in 0..n {
        let key = format!("key{}", i);
        let value = format!("value{}", i);
        let (bytes, roll) = pos.prepare(
            EntryType::Log,
            OprationType::Insert,
            key.as_bytes(),
            value.as_bytes(),
            1000 + i as u64,
            config.max_file_size,
        );
        if roll {
            pos.rolled();
            let number = pos.current_file_number;
            files.push((number, pos.current_sequence, wal_file_name(number), header(pos.current_sequence)));
        }
        files.last_mut().expect("a file").3.extend_from_slice(&bytes);
        pos.appended(bytes.len() as u64);
    }
    files
}

fn reader_of(files: &[(u64, u64, String, Vec<u8>)]) -> WalReader {
    let listing = files.iter().map(|f| (f.2.clone(), f.3.clone())).collect();
    WalReader::new(listing).expect("open reader")
}

#[test]
fn test_wal_file_rotation() {
    let config = WalConfig::new("rotation").with_max_file_size(100);
    let files = write_log(&config, 20);
    assert!(files.len() > 1, "Should have multiple files after rotation");
}

#[test]
fn test_wal_write_read_consistency() {
    let config = WalConfig::new("consistency");
    let files = write_log(&config, 3);
    let mut reader = reader_of(&files);
    let mut count = 0;
    for result in reader.iter() {
        let entry = result.expect("entry");
        assert_eq!(entry.key, format!("key{}", count).into_bytes());
        assert_eq!(entry.value, format!("value{}", count).into_bytes());
        count += 1;
    }
    assert_eq!(count, 3);
}

#[test]
fn test_wal_multiple_files_read() {
    let config = WalConfig::new("multi_read").with_max_file_size(100);
    let files = write_log(&config, 30);
    assert!(files.len() > 1);
    let mut reader = reader_of(&files);
    let mut count = 0;
    for result in reader.iter() {
        let entry = result.expect("entry");
        assert_eq!(entry.key, format!("key{}", count).as_bytes());
        assert_eq!(entry.value, format!("value{}", count).as_bytes());
        count += 1;
    }
    assert_eq!(count, 30);
}

#[test]
fn test_wal_reader_seek_to() {
    let config = WalConfig::new("seek_to").with_max_file_size(100);
    let files = write_log(&config, 30);
    let mut reader = reader_of(&files);
    let entry = reader.seek_to(15).expect("seek").expect("an entry");
    assert_eq!(entry.seq, 15);
    assert_eq!(entry.key, format!("key{}", 14).as_bytes());
}

#[test]
fn test_debug_seek_to() {
    let config = WalConfig::new("debug").with_max_file_size(100);
    let files = write_log(&config, 20);
    let mut reader = reader_of(&files);
    let mut read = 0;
    while let Ok(Some(_)) = reader.read_entry() {
        read += 1;
    }
    assert_eq!(read, 20);
    let mut reader2 = reader_of(&files);
    match reader2.seek_to(15) {
        Ok(Some(entry)) => {
            assert_eq!(entry.seq, 15);
            assert_eq!(entry.key, b"key14");
        }
        Ok(None) => panic!("seek_to returned None"),
        Err(e) => panic!("seek_to failed: {:?}", e),
    }
}

#[test]
fn test_wal_reader_reset() {
    let config = WalConfig::new("reset");
    let files = write_log(&config, 5);
    let mut reader = reader_of(&files);
    for _ in 0..3 {
        reader.read_entry().expect("read");
    }
    reader.reset().expect("reset");
    let entry = reader.read_entry().expect("read").expect("an entry");
    assert_eq!(entry.seq, 1);
    assert_eq!(entry.key, b"key0");
}

#[test]
fn test_wal_cleanup_old_files() {
    let config = WalConfig::new("wal_cleanup").with_max_file_size(100);
    let files = write_log(&config, 50);
    let current = files.last().expect("a file").0;
    let remaining = files
        .iter()
        .filter(|f| {
            !superseded_by_checkpoint(f.1, 45)
                && !beyond_retention(f.0, config.max_retained_files, current)
        })
        .count();
    assert!(remaining < files.len());
}

#[test]
fn reader_sorts_files_by_name_and_follows_them() {
    let config = WalConfig::new("sorted").with_max_file_size(100);
    let mut files = write_log(&config, 4);
    files.reverse();
    let mut reader = reader_of(&files);
    assert_eq!(reader.current_file_name(), Some("000001.wal"));
    assert_eq!(reader.start_sequence(), 1);
    let seqs: Vec<u64> = reader.iter().into_iter().map(|r| r.expect("entry").seq).collect();
    assert_eq!(seqs, vec![1, 2, 3, 4]);
    assert_eq!(reader.current_file_name(), Some("000004.wal"));
}

#[test]
fn sort_by_name_orders_as_str_does() {
    let sorted = sort_by_name(vec![
        ("b.wal".to_string(), vec![2]),
        ("a.wal".to_string(), vec![1]),
        ("ab.wal".to_string(), vec![3]),
    ]);
    let names: Vec<&str> = sorted.iter().map(|f| f.0.as_str()).collect();
    assert_eq!(names, vec!["a.wal", "ab.wal", "b.wal"]);
}

#[test]
fn only_wal_names_are_log_files() {
    assert!(is_wal_file_name("000001.wal"));
    assert!(!is_wal_file_name("checkpoint_0000000000000001.cp"));
    assert!(!is_wal_file_name("wal"));
}

#[test]
fn reader_errors() {
    assert!(matches!(WalReader::new(Vec::new()), Err(WalError::FileNotFound)));
    match WalReader::new(vec![("000001.wal".to_string(), vec![0u8; 10])]) {
        Err(WalError::InvalidHeader(m)) => assert_eq!(m, "file too short"),
        _ => panic!("a short file was opened"),
    }

    let config = WalConfig::new("errors");
    let files = write_log(&config, 3);
    let mut reader = reader_of(&files);
    match reader.seek_to(0) {
        Err(WalError::InvalidHeader(m)) => assert_eq!(m, "sequence 0 before start sequence 1"),
        _ => panic!("a seek before the start succeeded"),
    }
    match reader.seek_to(9) {
        Err(WalError::InvalidHeader(m)) => assert_eq!(m, "sequence 9 not found"),
        _ => panic!("a seek past the end succeeded"),
    }
    assert!(matches!(reader.seek_to(1), Ok(None)));
    assert_eq!(reader.file_offset(), 36);
    assert_eq!(reader.current_sequence(), 1);
}

#[test]
fn reader_reports_a_corrupt_record() {
    let config = WalConfig::new("corrupt");
    let mut files = write_log(&config, 2);
    let last = files[0].3.len() - 1;
    files[0].3[last - 15] ^= 0xff;
    let mut reader = reader_of(&files);
    let results = reader.iter();
    assert_eq!(results.len(), 2);
    assert!(results[0].is_ok());
    assert!(matches!(results[1], Err(WalError::ChecksumMismatch)));
}

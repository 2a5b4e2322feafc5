use arookieofcdb::engine_mode::{engine_mode, flag_is_on, format_elapsed, EngineMode};
use arookieofcdb::ioc::application::condition_holds;
use arookieofcdb::wal::checkpoint::sort_names_desc;

#[test]
fn engine_mode_names_ignore_case() {
    assert_eq!(engine_mode("wal"), EngineMode::Wal);
    assert_eq!(engine_mode("DISK"), EngineMode::Wal);
    assert_eq!(engine_mode("BpTree"), EngineMode::Wal);
    assert_eq!(engine_mode("Hybrid"), EngineMode::Hybrid);
    assert_eq!(engine_mode("memory"), EngineMode::Memory);
    assert_eq!(engine_mode(""), EngineMode::Memory);
    assert_eq!(engine_mode("walx"), EngineMode::Memory);
}

#[test]
fn flag_values_that_turn_on() {
    for on in ["1", "true", "TRUE", "Yes", "on", "ON"] {
        assert!(flag_is_on(on), "{on}");
    }
    for off in ["0", "false", "no", "off", "", "onn", " 1"] {
        assert!(!flag_is_on(off), "{off}");
    }
}

#[test]
fn elapsed_prefers_milliseconds() {
    assert_eq!(format_elapsed(5, 5123), "5 ms");
    assert_eq!(format_elapsed(0, 250), "250 us");
    assert_eq!(format_elapsed(0, 0), "0 us");
    assert_eq!(format_elapsed(1, 1000), "1 ms");
}

#[test]
fn condition_reads_first_matching_pair() {
    let env = vec![
        ("mode".to_string(), "fast".to_string()),
        ("mode".to_string(), "slow".to_string()),
    ];
    assert!(condition_holds(None, &env));
    assert!(condition_holds(Some(("mode", "fast")), &env));
    assert!(!condition_holds(Some(("mode", "slow")), &env));
    assert!(condition_holds(Some(("absent", "")), &env));
    assert!(!condition_holds(Some(("absent", "x")), &env));
}

#[test]
fn checkpoint_names_sort_descending() {
    let names = vec![
        "checkpoint_0000000000000002.cp".to_string(),
        "checkpoint_0000000000000009.cp".to_string(),
        "checkpoint_0000000000000005.cp".to_string(),
        "checkpoint_0000000000000005.cp".to_string(),
    ];
    let sorted = sort_names_desc(names);
    assert_eq!(
        sorted,
        vec![
            "checkpoint_0000000000000009.cp".to_string(),
            "checkpoint_0000000000000005.cp".to_string(),
            "checkpoint_0000000000000005.cp".to_string(),
            "checkpoint_0000000000000002.cp".to_string(),
        ]
    );
    assert!(sort_names_desc(Vec::new()).is_empty());
}

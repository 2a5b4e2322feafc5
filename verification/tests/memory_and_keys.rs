use arookieofcdb::decimal::{i64_to_string, parse_i64_bytes, parse_u64_bytes};
use arookieofcdb::key_codec::KeyEncoding;
use arookieofcdb::key_order::{compare_bytes, compare_keys, KeyOrder};
use arookieofcdb::storage::disk_manager::{first_free_page, page_offset, Page, PAGE_SIZE};
use arookieofcdb::storage::memory_store::LruCache;
use arookieofcdb::storage::{
    CacheCapacityEngine, KvEngine, MemoryStore, StorageStatsIntrospection, TtlEngine, TtlState,
};

const NOW_MS: u64 = 1_700_000_000_000;

fn raw(s: &str) -> KeyEncoding {
    KeyEncoding::Raw(s.to_string())
}

#[test]
fn lru_cache_evicts_the_least_recently_used() {
    let mut cache = LruCache::new();
    cache.set_cache_max_keys(2);
    cache.set(raw("a"), b"1".to_vec()).expect("set a");
    cache.set(raw("b"), b"2".to_vec()).expect("set b");
    assert_eq!(cache.read(&raw("a")), Some(b"1".to_vec()));
    cache.set(raw("c"), b"3".to_vec()).expect("set c");
    assert_eq!(cache.len(), 2);
    assert!(cache.contains_key(&raw("a")));
    assert!(!cache.contains_key(&raw("b")));
    assert!(cache.contains_key(&raw("c")));
    assert_eq!(cache.cache_evictions(), 1);
    assert_eq!(cache.cache_current_keys(), 2);
    assert_eq!(cache.cache_max_keys(), 2);
}

#[test]
fn lru_cache_shrinking_the_bound_evicts_the_oldest() {
    let mut cache = LruCache::new();
    for i in 0..5 {
        cache.set(KeyEncoding::Int(i), vec![i as u8]).expect("set");
    }
    cache.set_cache_max_keys(2);
    assert_eq!(cache.len(), 2);
    assert_eq!(cache.cache_evictions(), 3);
    assert!(cache.contains_key(&KeyEncoding::Int(3)));
    assert!(cache.contains_key(&KeyEncoding::Int(4)));
    cache.set_cache_max_keys(0);
    cache.set(KeyEncoding::Int(9), vec![9]).expect("set");
    assert_eq!(cache.len(), 3);
}

#[test]
fn lru_cache_ttl_expires_and_set_clears_it() {
    let mut cache = LruCache::new();
    let key = raw("t");
    assert!(!cache.expire(&key, 5, NOW_MS));
    cache.set(key.clone(), b"v".to_vec()).expect("set");
    assert_eq!(cache.ttl(&key, NOW_MS), TtlState::NoExpire);
    assert!(cache.expire(&key, 5, NOW_MS));
    assert_eq!(cache.ttl(&key, NOW_MS + 1000), TtlState::Seconds(4));
    assert_eq!(cache.get_with_expiry_flag(&key, NOW_MS + 5000), (None, true));
    assert!(!cache.contains_key(&key));
    cache.set(key.clone(), b"w".to_vec()).expect("set again");
    assert!(cache.expire(&key, 1, NOW_MS));
    cache.set(key.clone(), b"x".to_vec()).expect("overwrite");
    assert_eq!(cache.ttl(&key, NOW_MS + 10_000), TtlState::NoExpire);
}

#[test]
fn lru_cache_entries_skip_expired_and_clear_empties() {
    let mut cache = LruCache::new();
    cache.set(raw("a"), b"1".to_vec()).expect("set");
    cache.set(raw("b"), b"2".to_vec()).expect("set");
    assert!(cache.expire(&raw("a"), 1, NOW_MS));
    let entries = cache.entries(NOW_MS + 2000);
    assert_eq!(entries, vec![(raw("b"), b"2".to_vec())]);
    assert_eq!(cache.remove(&raw("b")), Some(b"2".to_vec()));
    assert!(cache.is_empty());
    cache.set(raw("c"), b"3".to_vec()).expect("set");
    cache.clear_cache();
    assert_eq!(cache.len(), 0);
}

#[test]
fn memory_store_is_a_kv_engine() {
    let mut store = MemoryStore::new();
    assert_eq!(store.engine_name(), "memory");
    KvEngine::set(&mut store, KeyEncoding::Int(1), b"one".to_vec()).expect("set");
    assert_eq!(KvEngine::get(&mut store, &KeyEncoding::Int(1)), Some("one".as_bytes()));
    assert_eq!(KvEngine::len(&mut store), 1);
    assert_eq!(
        KvEngine::delete(&mut store, &KeyEncoding::Int(1)).expect("delete"),
        Some(b"one".to_vec())
    );
    assert_eq!(KvEngine::delete(&mut store, &KeyEncoding::Int(1)).expect("delete"), None);
    assert!(store.is_empty());
}

#[test]
fn memory_store_ttl_and_capacity() {
    let mut store = MemoryStore::new();
    let key = raw("k");
    assert!(!TtlEngine::expire(&mut store, &key, 10).expect("expire"));
    store.set(key.clone(), b"v".to_vec()).expect("set");
    assert!(TtlEngine::expire(&mut store, &key, 100).expect("expire"));
    match TtlEngine::ttl(&mut store, &key).expect("ttl") {
        TtlState::Seconds(sec) => assert!((98..=100).contains(&sec)),
        other => panic!("unexpected ttl state: {other:?}"),
    }
    store.set_cache_max_keys(1).expect("bound");
    store.set(raw("other"), b"w".to_vec()).expect("set");
    assert_eq!(store.cache_current_keys(), Some(1));
    assert_eq!(store.cache_max_keys(), Some(1));
    assert!(!store.contains_key(&key));
    assert_eq!(store.stats().cache_evictions, 1);
}

#[test]
fn keys_order_ints_then_floats_then_texts() {
    assert_eq!(compare_keys(&KeyEncoding::Int(-5), &KeyEncoding::Int(3)), KeyOrder::Less);
    assert_eq!(compare_keys(&KeyEncoding::Int(3), &KeyEncoding::Int(3)), KeyOrder::Equal);
    assert_eq!(
        compare_keys(&KeyEncoding::Int(1000), &KeyEncoding::Float(0.5f64.to_bits())),
        KeyOrder::Less
    );
    assert_eq!(
        compare_keys(&KeyEncoding::Float((-2.0f64).to_bits()), &KeyEncoding::Float(1.0f64.to_bits())),
        KeyOrder::Less
    );
    assert_eq!(
        compare_keys(&KeyEncoding::Float(0.0f64.to_bits()), &KeyEncoding::Float((-0.0f64).to_bits())),
        KeyOrder::Equal
    );
    assert_eq!(compare_keys(&raw("b"), &KeyEncoding::Float(9.0f64.to_bits())), KeyOrder::Greater);
    assert_eq!(compare_keys(&raw("ab"), &raw("b")), KeyOrder::Less);
    assert_eq!(compare_bytes(b"abc", b"ab"), KeyOrder::Greater);
    assert_eq!(compare_bytes(b"", b""), KeyOrder::Equal);
}

#[test]
fn decimal_text_and_parsing() {
    assert_eq!(i64_to_string(0), "0");
    assert_eq!(i64_to_string(-42), "-42");
    assert_eq!(i64_to_string(i64::MIN), "-9223372036854775808");
    assert_eq!(parse_i64_bytes(b"9223372036854775807"), Some(i64::MAX));
    assert_eq!(parse_i64_bytes(b"-9223372036854775808"), Some(i64::MIN));
    assert_eq!(parse_i64_bytes(b"9223372036854775808"), None);
    assert_eq!(parse_i64_bytes(b"+7"), Some(7));
    assert_eq!(parse_i64_bytes(b""), None);
    assert_eq!(parse_i64_bytes(b"1a"), None);
    assert_eq!(parse_u64_bytes(b"18446744073709551615"), Some(u64::MAX));
    assert_eq!(parse_u64_bytes(b"18446744073709551616"), None);
}

#[test]
fn pages_start_clean_and_sit_at_their_offsets() {
    let page = Page::new(3);
    assert_eq!(page.id, 3);
    assert!(page.data.iter().all(|b| *b == 0));
    assert!(!page.is_dirty);
    assert_eq!(page.pin_count, 0);
    assert_eq!(page_offset(3), 3 * PAGE_SIZE as u64);
    assert_eq!(first_free_page(0), 0);
    assert_eq!(first_free_page(8192), 2);
    assert_eq!(first_free_page(8191), 1);
}

#[test]
fn memory_store_reads_follow_writes() {
    let mut m = MemoryStore::new();
    assert_eq!(MemoryStore::len(&m), 0);
    assert!(m.is_empty());
    assert!(MemoryStore::iter(&m).is_empty());
    let k = KeyEncoding::Int(1);
    MemoryStore::set(&mut m, k.clone(), b"v".to_vec()).expect("set");
    MemoryStore::set(&mut m, KeyEncoding::Int(2), b"w".to_vec()).expect("set");
    assert_eq!(MemoryStore::get(&m, &k), Some(b"v".to_vec()));
    assert_eq!(MemoryStore::len(&m), 2);
    assert_eq!(MemoryStore::iter(&m).len(), 2);
    assert!(MemoryStore::delete(&mut m, &k));
    assert!(!MemoryStore::delete(&mut m, &k));
    assert_eq!(MemoryStore::get(&m, &k), None);
    assert_eq!(MemoryStore::len(&m), 1);
}

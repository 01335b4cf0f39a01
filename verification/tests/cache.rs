use hoglet::cache::{hash_ir, CacheKey, ResultCache, MAX_CACHE_BYTES};
use hoglet::json::Json;

fn key(id: u64) -> CacheKey {
    CacheKey {
        token: "phc_test".into(),
        ir_hash: id,
        data_version: 1,
    }
}

#[test]
fn entry_limit_evicts_the_least_recently_used_value() {
    let mut cache = ResultCache::with_limits(2, 1024);
    cache.put(key(1), vec![1]);
    cache.put(key(2), vec![2]);
    assert_eq!(cache.get(&key(1)), Some(vec![1]));

    cache.put(key(3), vec![3]);

    assert_eq!(cache.get(&key(1)), Some(vec![1]));
    assert_eq!(cache.get(&key(2)), None);
    assert_eq!(cache.get(&key(3)), Some(vec![3]));
}

#[test]
fn response_bytes_are_bounded_independently_of_entry_count() {
    let mut cache = ResultCache::with_limits(10, 5);
    cache.put(key(1), vec![1; 3]);
    cache.put(key(2), vec![2; 3]);

    assert_eq!(cache.get(&key(1)), None);
    assert_eq!(cache.get(&key(2)), Some(vec![2; 3]));
}

#[test]
fn replacement_updates_byte_accounting_and_oversize_values_are_not_cached() {
    let mut cache = ResultCache::with_limits(10, 5);
    cache.put(key(1), vec![1; 4]);
    cache.put(key(1), vec![1; 2]);
    cache.put(key(2), vec![2; 3]);

    assert_eq!(cache.get(&key(1)), Some(vec![1; 2]));
    assert_eq!(cache.get(&key(2)), Some(vec![2; 3]));

    cache.put(key(2), vec![9; 6]);
    assert_eq!(cache.get(&key(2)), None);
}

#[test]
fn clear_resets_entries_and_byte_budget() {
    let mut cache = ResultCache::with_limits(10, 5);
    cache.put(key(1), vec![1; 5]);
    cache.clear();
    cache.put(key(2), vec![2; 5]);

    assert_eq!(cache.get(&key(1)), None);
    assert_eq!(cache.get(&key(2)), Some(vec![2; 5]));
}

#[test]
fn a_cache_without_entries_keeps_nothing() {
    let mut cache = ResultCache::new(0);
    cache.put(key(1), vec![1]);
    assert_eq!(cache.get(&key(1)), None);
}

#[test]
fn the_default_budget_takes_a_response_of_its_size_and_no_larger_one() {
    let mut cache = ResultCache::new(4);
    cache.put(key(1), vec![7; MAX_CACHE_BYTES]);
    assert_eq!(cache.get(&key(1)).map(|r| r.len()), Some(MAX_CACHE_BYTES));
    cache.put(key(2), vec![7; MAX_CACHE_BYTES + 1]);
    assert_eq!(cache.get(&key(2)), None);
    assert!(cache.get(&key(1)).is_some());
}

#[test]
fn keys_differ_in_each_of_their_parts() {
    let mut cache = ResultCache::new(4);
    cache.put(key(1), vec![1]);
    let other_token = CacheKey { token: "phc_other".into(), ir_hash: 1, data_version: 1 };
    let other_version = CacheKey { token: "phc_test".into(), ir_hash: 1, data_version: 2 };
    assert_eq!(cache.get(&other_token), None);
    assert_eq!(cache.get(&other_version), None);
}

#[test]
fn equal_queries_hash_alike_and_different_ones_do_not() {
    let a = Json::parse("{\"kind\":\"Trends\",\"series\":[]}").unwrap();
    let b = Json::parse(" {\"series\": [], \"kind\": \"Trends\"} ").unwrap();
    let c = Json::parse("{\"kind\":\"Funnels\",\"series\":[]}").unwrap();
    assert_eq!(hash_ir(&a), hash_ir(&b));
    assert_ne!(hash_ir(&a), hash_ir(&c));
}

#[test]
fn no_more_is_evicted_than_needed() {
    let mut cache = ResultCache::with_limits(4, 10);
    cache.put(key(1), vec![1; 4]);
    cache.put(key(2), vec![2; 3]);
    cache.put(key(3), vec![3; 3]);
    cache.put(key(4), vec![4; 4]);
    assert_eq!(cache.get(&key(1)), None);
    assert_eq!(cache.get(&key(2)), Some(vec![2; 3]));
    assert_eq!(cache.get(&key(3)), Some(vec![3; 3]));
    assert_eq!(cache.get(&key(4)), Some(vec![4; 4]));
    cache.put(key(5), vec![5; 6]);
    assert_eq!(cache.get(&key(2)), None);
    assert_eq!(cache.get(&key(3)), None);
    assert_eq!(cache.get(&key(4)), Some(vec![4; 4]));
    assert_eq!(cache.get(&key(5)), Some(vec![5; 6]));
}

//! The cache with a limit.

use peach::parsers::aul::bounded_cache::BoundedCache;

#[test]
fn get_returns_none_for_an_absent_key() {
    let cache: BoundedCache<u32> = BoundedCache::new(2);
    assert_eq!(cache.get("missing"), None);
}

#[test]
fn insert_then_get_round_trips_a_value() {
    let mut cache = BoundedCache::new(2);
    cache.insert("a".to_string(), 1);
    assert_eq!(cache.get("a"), Some(&1));
}

#[test]
fn insert_over_capacity_evicts_something_and_keeps_the_new_entry() {
    let mut cache = BoundedCache::new(2);
    cache.insert("a".to_string(), 1);
    cache.insert("b".to_string(), 2);
    cache.insert("c".to_string(), 3);

    assert_eq!(cache.get("c"), Some(&3));
    let remaining = [cache.get("a"), cache.get("b"), cache.get("c")]
        .into_iter()
        .filter(Option::is_some)
        .count();
    assert_eq!(remaining, 2, "capacity of 2 must never be exceeded");
}

#[test]
fn re_inserting_an_existing_key_does_not_evict_to_make_room() {
    let mut cache = BoundedCache::new(2);
    cache.insert("a".to_string(), 1);
    cache.insert("b".to_string(), 2);
    cache.insert("a".to_string(), 10);

    assert_eq!(cache.get("a"), Some(&10));
    assert_eq!(cache.get("b"), Some(&2));
}

#[test]
fn insert_gives_back_the_value_that_the_key_had() {
    let mut cache = BoundedCache::new(1);
    assert_eq!(cache.insert("a".to_string(), 1), None);
    assert_eq!(cache.insert("a".to_string(), 2), Some(1));
    assert_eq!(cache.insert("b".to_string(), 3), None);
    assert_eq!(cache.get("a"), None);
}

#[test]
fn a_cache_without_capacity_still_holds_the_last_entry() {
    let mut cache = BoundedCache::new(0);
    cache.insert("a".to_string(), 1);
    assert_eq!(cache.get("a"), Some(&1));
    cache.insert("b".to_string(), 2);
    assert_eq!(cache.get("a"), None);
    assert_eq!(cache.get("b"), Some(&2));
}

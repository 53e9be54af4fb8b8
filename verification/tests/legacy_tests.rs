use lru_cache::legacy::LRUCache;

#[test]
fn lib_get_makes_most_recent() {
    let mut cache = LRUCache::new(3);

    cache.set("a".to_string(), 1);
    cache.set("b".to_string(), 2);
    cache.set("c".to_string(), 3);
    assert_eq!(cache.get("a"), Some(&1));
    assert_eq!(cache.get("b"), Some(&2));
    assert_eq!(cache.get("c"), Some(&3));

    cache.set("a".to_string(), 4);
    assert_eq!(cache.get("a"), Some(&4));
    assert_eq!(cache.get("b"), Some(&2));
    assert_eq!(cache.get("c"), Some(&3));

    cache.set("b".to_string(), 5);
    assert_eq!(cache.get("a"), Some(&4));
    assert_eq!(cache.get("b"), Some(&5));
    assert_eq!(cache.get("c"), Some(&3));

    cache.set("c".to_string(), 6);
    assert_eq!(cache.get("a"), Some(&4));
    assert_eq!(cache.get("b"), Some(&5));
    assert_eq!(cache.get("c"), Some(&6));
}

#[test]
fn lib_test_set_get() {
    let mut cache = LRUCache::new(3);

    cache.set("a".to_string(), 1);
    cache.set("b".to_string(), 2);
    cache.set("c".to_string(), 3);

    assert_eq!(cache.get("a"), Some(&1));
    assert_eq!(cache.get("b"), Some(&2));
    assert_eq!(cache.get("c"), Some(&3));

    cache.set("d".to_string(), 4);

    assert_eq!(cache.get("a"), None);
    assert_eq!(cache.get("b"), Some(&2));
    assert_eq!(cache.get("c"), Some(&3));
    assert_eq!(cache.get("d"), Some(&4));
}

#[test]
fn lib_iter_by_recency() {
    let mut cache = LRUCache::new(1000);

    cache.set("a".to_string(), 1);
    cache.set("b".to_string(), 2);
    cache.set("c".to_string(), 3);
    cache.set("d".to_string(), 4);
    cache.set("e".to_string(), 5);
    cache.set("f".to_string(), 6);
    cache.set("g".to_string(), 7);

    cache.get("a");

    let mut it = cache.iter();
    while let Some(node) = it.next() {
        println!("{:?}", node);
    }
}

#[test]
fn lib_walk_matches_core_behaviour() {
    let mut cache = LRUCache::new(2);
    cache.set("a".to_string(), 1);
    cache.set("b".to_string(), 2);
    cache.set("c".to_string(), 3);

    assert_eq!(cache.get("a"), None);

    let mut it = cache.iter();
    assert_eq!(it.next(), Some(&3));
    assert_eq!(it.next(), Some(&2));
    assert_eq!(it.next(), None);
}

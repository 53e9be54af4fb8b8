use lru_cache::cache::LruCache;

#[test]
fn get_makes_most_recent() {
    let mut cache = LruCache::new(3);

    cache.set("a".to_string(), 1);
    cache.set("b".to_string(), 2);
    cache.set("c".to_string(), 3);
    assert_eq!(cache.get("a"), Some(&1));
    assert_eq!(cache.get("b"), Some(&2));
    assert_eq!(cache.get("c"), Some(&3));

    cache.set("a".to_string(), 4);
    assert_eq!(cache.get("a"), Some(&4));
    assert_eq!(cache.get("b"), Some(&2));
    assert_eq!(cache.get("c"), Some(&3));

    cache.set("b".to_string(), 5);
    assert_eq!(cache.get("a"), Some(&4));
    assert_eq!(cache.get("b"), Some(&5));
    assert_eq!(cache.get("c"), Some(&3));

    cache.set("c".to_string(), 6);
    assert_eq!(cache.get("a"), Some(&4));
    assert_eq!(cache.get("b"), Some(&5));
    assert_eq!(cache.get("c"), Some(&6));
}

#[test]
fn test_set_get() {
    let mut cache = LruCache::new(3);

    cache.set("a".to_string(), 1);
    cache.set("b".to_string(), 2);
    cache.set("c".to_string(), 3);

    assert_eq!(cache.get("a"), Some(&1));
    assert_eq!(cache.get("b"), Some(&2));
    assert_eq!(cache.get("c"), Some(&3));

    cache.set("d".to_string(), 4);

    assert_eq!(cache.get("a"), None);
    assert_eq!(cache.get("b"), Some(&2));
    assert_eq!(cache.get("c"), Some(&3));
    assert_eq!(cache.get("d"), Some(&4));
}

#[test]
fn iter_by_recency() {
    let mut cache = LruCache::new(1000);

    cache.set("a".to_string(), 1);
    cache.set("b".to_string(), 2);
    cache.set("c".to_string(), 3);
    cache.set("d".to_string(), 4);
    cache.set("e".to_string(), 5);
    cache.set("f".to_string(), 6);
    cache.set("g".to_string(), 7);

    cache.get("a");

    let mut it = cache.iter();
    while let Some(node) = it.next() {
        println!("{:?}", node);
    }
}

#[test]
fn seven_inserts_then_get_orders_walk() {
    let mut cache = LruCache::new(1000);

    cache.set("a".to_string(), 1);
    cache.set("b".to_string(), 2);
    cache.set("c".to_string(), 3);
    cache.set("d".to_string(), 4);
    cache.set("e".to_string(), 5);
    cache.set("f".to_string(), 6);
    cache.set("g".to_string(), 7);

    assert_eq!(cache.get("a"), Some(&1));

    let mut it = cache.iter();
    let mut seen: Vec<i32> = Vec::new();
    while let Some(v) = it.next() {
        seen.push(*v);
    }
    assert_eq!(seen, vec![1, 7, 6, 5, 4, 3, 2]);
}

#[test]
fn get_promotes_entry_to_head() {
    let mut cache = LruCache::new(3);
    cache.set("a".to_string(), 1);
    cache.set("b".to_string(), 2);
    cache.set("c".to_string(), 3);

    assert_eq!(cache.get("a"), Some(&1));

    let mut it = cache.iter();
    assert_eq!(it.next(), Some(&1));
    assert_eq!(it.next(), Some(&3));
    assert_eq!(it.next(), Some(&2));
    assert_eq!(it.next(), None);
}

#[test]
fn update_keeps_recency_position() {
    let mut cache = LruCache::new(3);
    cache.set("a".to_string(), 1);
    cache.set("b".to_string(), 2);
    cache.set("c".to_string(), 3);

    cache.set("a".to_string(), 4);

    let mut it = cache.iter();
    assert_eq!(it.next(), Some(&3));
    assert_eq!(it.next(), Some(&2));
    assert_eq!(it.next(), Some(&4));
    assert_eq!(it.next(), None);

    cache.set("d".to_string(), 9);
    assert_eq!(cache.get("a"), None);
    assert_eq!(cache.get("b"), Some(&2));
    assert_eq!(cache.get("c"), Some(&3));
    assert_eq!(cache.get("d"), Some(&9));
}

#[test]
fn repeated_walks_agree() {
    let mut cache = LruCache::new(4);
    cache.set("x".to_string(), 10);
    cache.set("y".to_string(), 20);
    cache.set("z".to_string(), 30);

    let mut first: Vec<i32> = Vec::new();
    let mut it = cache.iter();
    while let Some(v) = it.next() {
        first.push(*v);
    }

    let mut second: Vec<i32> = Vec::new();
    let mut it2 = cache.iter();
    while let Some(v) = it2.next() {
        second.push(*v);
    }

    assert_eq!(first, vec![30, 20, 10]);
    assert_eq!(first, second);
}

#[test]
fn capacity_one_evicts_on_each_new_key() {
    let mut cache = LruCache::new(1);
    cache.set("a".to_string(), 1);
    assert_eq!(cache.get("a"), Some(&1));

    cache.set("b".to_string(), 2);
    assert_eq!(cache.get("a"), None);
    assert_eq!(cache.get("b"), Some(&2));

    let mut it = cache.iter();
    assert_eq!(it.next(), Some(&2));
    assert_eq!(it.next(), None);
}

#[test]
fn empty_cache_misses_and_yields_nothing() {
    let mut cache: LruCache<i32> = LruCache::new(5);
    assert_eq!(cache.get("nothing"), None);
    let mut it = cache.iter();
    assert_eq!(it.next(), None);
}

#[test]
fn full_cache_get_of_tail_then_eviction() {
    let mut cache = LruCache::new(2);
    cache.set("a".to_string(), 1);
    cache.set("b".to_string(), 2);

    assert_eq!(cache.get("a"), Some(&1));

    cache.set("c".to_string(), 3);
    assert_eq!(cache.get("b"), None);
    assert_eq!(cache.get("a"), Some(&1));
    assert_eq!(cache.get("c"), Some(&3));
}

#[test]
fn get_of_head_keeps_structure() {
    let mut cache = LruCache::new(3);
    cache.set("a".to_string(), 1);
    cache.set("b".to_string(), 2);
    cache.set("c".to_string(), 3);

    assert_eq!(cache.get("c"), Some(&3));

    let mut it = cache.iter();
    assert_eq!(it.next(), Some(&3));
    assert_eq!(it.next(), Some(&2));
    assert_eq!(it.next(), Some(&1));
    assert_eq!(it.next(), None);

    assert_eq!(cache.get("a"), Some(&1));
    assert_eq!(cache.get("b"), Some(&2));
    assert_eq!(cache.get("c"), Some(&3));
}

#[test]
fn string_values_round_trip() {
    let mut cache: LruCache<String> = LruCache::new(2);
    cache.set("greeting".to_string(), "hello".to_string());
    cache.set("parting".to_string(), "goodbye".to_string());
    assert_eq!(cache.get("greeting"), Some(&"hello".to_string()));
    assert_eq!(cache.get("parting"), Some(&"goodbye".to_string()));
}

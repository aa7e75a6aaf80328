use groupcache::cache::BoundedCache;

fn s(text: &str) -> String {
    text.to_string()
}

#[test]
fn new_cache_is_empty() {
    let cache = BoundedCache::new(3);
    assert_eq!(cache.capacity(), 3);
    assert_eq!(cache.len(), 0);
    assert!(!cache.contains(&s("a")));
}

#[test]
fn get_on_empty_cache_misses() {
    let mut cache = BoundedCache::new(3);
    assert_eq!(cache.get(&s("a")), None);
    assert_eq!(cache.len(), 0);
}

#[test]
fn put_then_get_returns_value() {
    let mut cache = BoundedCache::new(3);
    cache.put(s("a"), s("1"));
    assert_eq!(cache.get(&s("a")), Some(s("1")));
    assert_eq!(cache.get(&s("b")), None);
    assert_eq!(cache.len(), 1);
}

#[test]
fn put_overwrites_without_growing() {
    let mut cache = BoundedCache::new(2);
    cache.put(s("a"), s("1"));
    cache.put(s("b"), s("2"));
    cache.put(s("a"), s("3"));
    assert_eq!(cache.len(), 2);
    assert_eq!(cache.get(&s("a")), Some(s("3")));
    assert_eq!(cache.get(&s("b")), Some(s("2")));
}

#[test]
fn overwrite_makes_entry_most_recent() {
    let mut cache = BoundedCache::new(2);
    cache.put(s("a"), s("1"));
    cache.put(s("b"), s("2"));
    cache.put(s("a"), s("3"));
    cache.put(s("c"), s("4"));
    assert!(cache.contains(&s("a")));
    assert!(!cache.contains(&s("b")));
    assert!(cache.contains(&s("c")));
}

#[test]
fn one_key_over_capacity_evicts_the_oldest() {
    let capacity = 4;
    let mut cache = BoundedCache::new(capacity);
    for i in 0..capacity + 1 {
        cache.put(format!("k{}", i), format!("v{}", i));
        assert!(cache.len() <= capacity);
    }
    assert_eq!(cache.len(), capacity);
    assert!(!cache.contains(&s("k0")));
    for i in 1..capacity + 1 {
        assert_eq!(cache.get(&format!("k{}", i)), Some(format!("v{}", i)));
    }
}

#[test]
fn eviction_follows_insertion_order_without_hits() {
    let mut cache = BoundedCache::new(2);
    cache.put(s("a"), s("1"));
    cache.put(s("b"), s("2"));
    cache.put(s("c"), s("3"));
    assert!(!cache.contains(&s("a")));
    cache.put(s("d"), s("4"));
    assert!(!cache.contains(&s("b")));
    assert!(cache.contains(&s("c")));
    assert!(cache.contains(&s("d")));
}

#[test]
fn hit_protects_entry_from_eviction() {
    let mut cache = BoundedCache::new(2);
    cache.put(s("a"), s("1"));
    cache.put(s("b"), s("2"));
    assert_eq!(cache.get(&s("a")), Some(s("1")));
    cache.put(s("c"), s("3"));
    assert!(cache.contains(&s("a")));
    assert!(!cache.contains(&s("b")));
    assert!(cache.contains(&s("c")));
}

#[test]
fn contains_does_not_count_as_use() {
    let mut cache = BoundedCache::new(2);
    cache.put(s("a"), s("1"));
    cache.put(s("b"), s("2"));
    assert!(cache.contains(&s("a")));
    cache.put(s("c"), s("3"));
    assert!(!cache.contains(&s("a")));
    assert!(cache.contains(&s("b")));
}

#[test]
fn miss_does_not_change_order() {
    let mut cache = BoundedCache::new(2);
    cache.put(s("a"), s("1"));
    cache.put(s("b"), s("2"));
    assert_eq!(cache.get(&s("x")), None);
    cache.put(s("c"), s("3"));
    assert!(!cache.contains(&s("a")));
    assert!(cache.contains(&s("b")));
}

#[test]
fn remove_deletes_only_that_key() {
    let mut cache = BoundedCache::new(3);
    cache.put(s("a"), s("1"));
    cache.put(s("b"), s("2"));
    cache.remove(&s("a"));
    assert_eq!(cache.len(), 1);
    assert_eq!(cache.get(&s("a")), None);
    assert_eq!(cache.get(&s("b")), Some(s("2")));
}

#[test]
fn remove_of_absent_key_changes_nothing() {
    let mut cache = BoundedCache::new(3);
    cache.put(s("a"), s("1"));
    cache.remove(&s("b"));
    assert_eq!(cache.len(), 1);
    assert_eq!(cache.get(&s("a")), Some(s("1")));
}

#[test]
fn remove_makes_room() {
    let mut cache = BoundedCache::new(2);
    cache.put(s("a"), s("1"));
    cache.put(s("b"), s("2"));
    cache.remove(&s("b"));
    cache.put(s("c"), s("3"));
    assert!(cache.contains(&s("a")));
    assert!(cache.contains(&s("c")));
    assert_eq!(cache.len(), 2);
}

#[test]
fn capacity_zero_stores_nothing() {
    let mut cache = BoundedCache::new(0);
    cache.put(s("a"), s("1"));
    assert_eq!(cache.len(), 0);
    assert_eq!(cache.get(&s("a")), None);
    cache.remove(&s("a"));
    assert_eq!(cache.len(), 0);
}

#[test]
fn capacity_one_keeps_the_latest() {
    let mut cache = BoundedCache::new(1);
    cache.put(s("a"), s("1"));
    cache.put(s("b"), s("2"));
    assert_eq!(cache.len(), 1);
    assert_eq!(cache.get(&s("a")), None);
    assert_eq!(cache.get(&s("b")), Some(s("2")));
}

#[test]
fn empty_key_and_value_are_ordinary() {
    let mut cache = BoundedCache::new(2);
    cache.put(s(""), s(""));
    assert!(cache.contains(&s("")));
    assert_eq!(cache.get(&s("")), Some(s("")));
}

#[test]
fn remove_in_the_middle_keeps_the_order_of_use() {
    let mut cache = BoundedCache::new(4);
    cache.put(s("a"), s("1"));
    cache.put(s("b"), s("2"));
    cache.put(s("c"), s("3"));
    cache.put(s("d"), s("4"));
    cache.remove(&s("b"));
    assert_eq!(cache.len(), 3);
    cache.put(s("e"), s("5"));
    assert_eq!(cache.len(), 4);
    cache.put(s("f"), s("6"));
    assert!(!cache.contains(&s("a")));
    cache.put(s("g"), s("7"));
    assert!(!cache.contains(&s("c")));
    assert_eq!(cache.get(&s("d")), Some(s("4")));
    cache.put(s("h"), s("8"));
    assert!(!cache.contains(&s("e")));
    assert_eq!(cache.get(&s("d")), Some(s("4")));
    assert_eq!(cache.get(&s("f")), Some(s("6")));
    assert_eq!(cache.get(&s("g")), Some(s("7")));
    assert_eq!(cache.get(&s("h")), Some(s("8")));
}

#[test]
fn remove_of_oldest_newest_and_only_entry() {
    let mut cache = BoundedCache::new(3);
    cache.put(s("a"), s("1"));
    cache.put(s("b"), s("2"));
    cache.put(s("c"), s("3"));
    cache.remove(&s("a"));
    cache.remove(&s("c"));
    assert_eq!(cache.len(), 1);
    assert_eq!(cache.get(&s("b")), Some(s("2")));
    cache.remove(&s("b"));
    assert_eq!(cache.len(), 0);
    assert_eq!(cache.get(&s("b")), None);
    cache.put(s("d"), s("4"));
    cache.put(s("e"), s("5"));
    cache.put(s("f"), s("6"));
    cache.put(s("g"), s("7"));
    assert!(!cache.contains(&s("d")));
    assert_eq!(cache.get(&s("e")), Some(s("5")));
    assert_eq!(cache.get(&s("f")), Some(s("6")));
    assert_eq!(cache.get(&s("g")), Some(s("7")));
}

#[test]
fn long_run_matches_a_plain_list() {
    // The same operations on a plain list of pairs, oldest first.
    let capacity = 5;
    let mut cache = BoundedCache::new(capacity);
    let mut list: Vec<(String, String)> = vec![];
    let mut seed: u64 = 12345;
    for step in 0..2000 {
        seed = seed.wrapping_mul(6364136223846793005).wrapping_add(1442695040888963407);
        let key = format!("k{}", (seed >> 33) % 9);
        let action = (seed >> 20) % 4;
        let found = list.iter().position(|pair| pair.0 == key);
        if action == 0 {
            let expected = found.map(|i| {
                let pair = list.remove(i);
                list.push(pair.clone());
                pair.1
            });
            assert_eq!(cache.get(&key), expected);
        } else if action == 1 {
            if let Some(i) = found {
                list.remove(i);
            }
            cache.remove(&key);
        } else {
            let value = format!("v{}", step);
            if let Some(i) = found {
                list.remove(i);
            } else if list.len() == capacity {
                list.remove(0);
            }
            list.push((key.clone(), value.clone()));
            cache.put(key, value);
        }
        assert_eq!(cache.len(), list.len());
        for i in 0..9 {
            let k = format!("k{}", i);
            assert_eq!(cache.contains(&k), list.iter().any(|pair| pair.0 == k));
        }
    }
    // Reading every key from the oldest to the newest keeps the order, so the
    // values can be compared one by one.
    for pair in list.clone() {
        assert_eq!(cache.get(&pair.0), Some(pair.1));
    }
}

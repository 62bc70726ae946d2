use data_structures::LRUCache;
use std::rc::Rc;

#[test]
fn test_set_and_get() {
    let mut cache = LRUCache::new(10);

    cache.set(1, "hello");
    cache.set(2, "world");

    assert_eq!(cache.get(3), None);
    assert_eq!(cache.get(1), Some("hello"));
    assert_eq!(cache.get(2), Some("world"));
}

#[test]
fn test_lru() {
    let mut cache = LRUCache::new(3);
    cache.set(1, "1");
    cache.set(2, "2");
    cache.set(3, "3");

    // 3 is least recently used key
    assert_eq!(cache.get(3), Some("3"));
    assert_eq!(cache.get(2), Some("2"));
    assert_eq!(cache.get(1), Some("1"));
    assert_eq!(cache.get(2), Some("2"));

    // Set another value to evict least recently used key
    cache.set(4, "4");

    // Test that 3 got evicted and the others are still fine
    assert_eq!(cache.get(3), None);
    assert_eq!(cache.get(2), Some("2"));
    assert_eq!(cache.get(1), Some("1"));
    assert_eq!(cache.get(4), Some("4"));
}

#[test]
fn test_repeated_set_scenario() {
    // Setting an existing key updates it in place; the rest of the
    // scenario behaves exactly as if it had been set once.
    let mut cache = LRUCache::new(3);
    cache.set(1, "1");
    cache.set(2, "2");
    cache.set(3, "3");
    cache.set(3, "3");

    assert_eq!(cache.get(3), Some("3"));
    assert_eq!(cache.get(2), Some("2"));
    assert_eq!(cache.get(1), Some("1"));
    assert_eq!(cache.get(2), Some("2"));

    cache.set(4, "4");

    assert_eq!(cache.get(3), None);
    assert_eq!(cache.get(2), Some("2"));
    assert_eq!(cache.get(1), Some("1"));
    assert_eq!(cache.get(4), Some("4"));
    assert_eq!(cache.count(), 3);
}

#[test]
fn test_absent_key() {
    // A miss on an empty cache has no effect at all.
    let mut cache: LRUCache<&str> = LRUCache::new(5);
    assert_eq!(cache.get(0), None);
    assert_eq!(cache.get(-7), None);
    assert_eq!(cache.get(i32::MAX), None);
    assert_eq!(cache.count(), 0);
    assert_eq!(cache.capacity(), 5);
}

#[test]
fn test_update_does_not_change_count() {
    let mut cache = LRUCache::new(4);
    cache.set(7, "first");
    cache.set(7, "second");
    assert_eq!(cache.get(7), Some("second"));
    assert_eq!(cache.count(), 1);
}

#[test]
fn test_count_never_exceeds_capacity() {
    let mut cache = LRUCache::new(2);
    for k in 0..6 {
        cache.set(k, "x");
        assert!(cache.count() <= cache.capacity());
    }
    assert_eq!(cache.count(), 2);
}

#[test]
fn test_get_protects_from_eviction() {
    // Touching key 1 makes key 2 the least recently used one.
    let mut cache = LRUCache::new(2);
    cache.set(1, "one");
    cache.set(2, "two");
    assert_eq!(cache.get(1), Some("one"));
    cache.set(3, "three");
    assert_eq!(cache.get(2), None);
    assert_eq!(cache.get(1), Some("one"));
    assert_eq!(cache.get(3), Some("three"));
}

#[test]
fn test_capacity_zero_stores_nothing() {
    let mut cache = LRUCache::new(0);
    cache.set(1, "one");
    assert_eq!(cache.get(1), None);
    assert_eq!(cache.count(), 0);
}

#[test]
fn test_capacity_one() {
    let mut cache = LRUCache::new(1);
    cache.set(1, "one");
    assert_eq!(cache.get(1), Some("one"));
    cache.set(2, "two");
    assert_eq!(cache.get(1), None);
    assert_eq!(cache.get(2), Some("two"));
    assert_eq!(cache.count(), 1);
}

#[test]
fn test_eviction_releases_entry() {
    // The value of an evicted entry is dropped at eviction time, and
    // teardown releases what is still live: every reference count
    // returns to 1, i.e. each entry was released exactly once.
    let first = Rc::new(1);
    let second = Rc::new(2);
    let mut cache = LRUCache::new(1);
    cache.set(1, Rc::clone(&first));
    assert_eq!(Rc::strong_count(&first), 2);
    cache.set(2, Rc::clone(&second));
    assert_eq!(Rc::strong_count(&first), 1);
    assert_eq!(Rc::strong_count(&second), 2);
    drop(cache);
    assert_eq!(Rc::strong_count(&second), 1);
}

#[test]
fn test_teardown_releases_all_entries() {
    let values: Vec<Rc<i32>> = (0..5).map(Rc::new).collect();
    let mut cache = LRUCache::new(10);
    for (k, v) in values.iter().enumerate() {
        cache.set(k as i32, Rc::clone(v));
    }
    for v in values.iter() {
        assert_eq!(Rc::strong_count(v), 2);
    }
    drop(cache);
    for v in values.iter() {
        assert_eq!(Rc::strong_count(v), 1);
    }
}

#[test]
fn test_update_unlinks_interior_entry() {
    // Updating a key in the middle of the recency order moves it to
    // the front, so the next eviction removes the true least recently
    // used key.
    let mut cache = LRUCache::new(3);
    cache.set(1, "one");
    cache.set(2, "two");
    cache.set(3, "three");
    cache.set(2, "two again");
    cache.set(4, "four");
    assert_eq!(cache.get(1), None);
    assert_eq!(cache.get(2), Some("two again"));
    assert_eq!(cache.get(3), Some("three"));
    assert_eq!(cache.get(4), Some("four"));
}

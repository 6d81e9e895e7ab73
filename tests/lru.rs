use algos::lru::{LruError, LRU};

fn filled(capacity: i64, keys: &[i64]) -> LRU {
    let mut cache = LRU::new(capacity).unwrap();
    for &k in keys {
        cache.put(k, k);
    }
    cache
}

#[test]
fn test_put() {
    let mut cache = LRU::new(10).unwrap();
    cache.put(1, 1);
    cache.put(2, 2);
    cache.put(3, 3);
    cache.put(4, 4);
    assert_eq!(cache.head_value().unwrap(), 4);
}

#[test]
fn test_get() {
    let mut cache = LRU::new(10).unwrap();
    cache.put(1, 1);
    cache.put(2, 2);
    cache.put(3, 3);
    cache.put(4, 4);
    assert_eq!(cache.get(1).unwrap(), 1);
    assert_eq!(cache.head_value().unwrap(), 1);
}

#[test]
fn test_overflow() {
    let mut cache = LRU::new(3).unwrap();
    cache.put(1, 1);
    cache.put(2, 2);
    cache.put(3, 3);
    cache.put(4, 4);
    cache.put(5, 5);
    cache.put(6, 6);
    cache.put(7, 7);
    assert_eq!(cache.tail_value().unwrap(), 5);
}

#[test]
fn test_order() {
    let mut cache = LRU::new(5).unwrap();
    cache.put(1, 1);
    cache.put(2, 2);
    cache.put(3, 3);
    cache.put(4, 4);
    cache.put(5, 5);
    cache.get(3);
    cache.get(5);
    cache.get(2);
    let order = [2, 5, 3, 4, 1];
    let values: Vec<i64> = cache.entries().iter().map(|p| p.1).collect();
    assert_eq!(values, order);
}

#[test]
fn eviction_drops_oldest_key() {
    let mut cache = filled(3, &[1, 2, 3, 4]);
    assert_eq!(cache.get(1), None);
    assert_eq!(cache.get(2), Some(2));
    assert_eq!(cache.get(3), Some(3));
    assert_eq!(cache.get(4), Some(4));
    assert_eq!(cache.len(), 3);
}

#[test]
fn get_refreshes_recency_before_eviction() {
    let mut cache = filled(3, &[1, 2, 3]);
    assert_eq!(cache.get(1), Some(1));
    cache.put(4, 4);
    assert_eq!(cache.get(2), None);
    assert_eq!(cache.get(1), Some(1));
    assert_eq!(cache.get(3), Some(3));
    assert_eq!(cache.get(4), Some(4));
}

#[test]
fn empty_cache_finds_nothing() {
    let mut cache = LRU::new(4).unwrap();
    for k in [-5, 0, 1, 7, i64::MAX, i64::MIN] {
        assert_eq!(cache.get(k), None);
    }
    assert_eq!(cache.len(), 0);
    assert_eq!(cache.head_value(), None);
    assert_eq!(cache.tail_value(), None);
    assert!(cache.entries().is_empty());
}

#[test]
fn non_positive_capacity_is_refused() {
    assert_eq!(LRU::new(0).err(), Some(LruError::NonPositiveCapacity));
    assert_eq!(LRU::new(-3).err(), Some(LruError::NonPositiveCapacity));
    assert_eq!(LRU::new(1).unwrap().capacity(), 1);
}

#[test]
fn second_get_changes_nothing() {
    let mut cache = filled(4, &[1, 2, 3, 4]);
    assert_eq!(cache.get(2), Some(2));
    let after_first = cache.entries();
    assert_eq!(cache.get(2), Some(2));
    assert_eq!(cache.entries(), after_first);
    assert_eq!(after_first, vec![(2, 2), (4, 4), (3, 3), (1, 1)]);
}

#[test]
fn put_on_present_key_replaces_value_and_keeps_length() {
    let mut cache = filled(3, &[1, 2, 3]);
    cache.put(1, 100);
    assert_eq!(cache.len(), 3);
    assert_eq!(cache.entries(), vec![(1, 100), (3, 3), (2, 2)]);
    assert_eq!(cache.get(1), Some(100));
    cache.put(4, 4);
    assert_eq!(cache.get(2), None);
}

#[test]
fn reverse_insertion_gets_return_each_value() {
    let mut cache = LRU::new(4).unwrap();
    for k in 1..=4 {
        cache.put(k, 10 * k);
    }
    for k in (1..=4).rev() {
        assert_eq!(cache.get(k), Some(10 * k));
        assert_eq!(cache.head_value(), Some(10 * k));
    }
}

#[test]
fn length_never_exceeds_capacity() {
    let mut cache = LRU::new(2).unwrap();
    for k in 0..10 {
        cache.put(k % 5, k);
        assert!(cache.len() <= 2);
    }
    assert_eq!(cache.entries(), vec![(4, 9), (3, 8)]);
}

#[test]
fn capacity_one_keeps_latest() {
    let mut cache = LRU::new(1).unwrap();
    cache.put(1, 1);
    cache.put(2, 2);
    assert_eq!(cache.get(1), None);
    assert_eq!(cache.get(2), Some(2));
    assert_eq!(cache.head_value(), cache.tail_value());
}

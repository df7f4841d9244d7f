use lru_hashmap::LruHashMap;

#[test]
fn new_cache_is_empty() {
    let mut m = LruHashMap::new(3);
    assert_eq!(m.len(), 0);
    assert!(m.is_empty());
    assert_eq!(m.get(7), None);
    m.insert(7, 70);
    assert!(!m.is_empty());
    assert_eq!(m.len(), 1);
}

#[test]
fn eviction_beyond_capacity() {
    let mut m = LruHashMap::new(2);
    assert_eq!(m.insert(1, 10), None);
    assert_eq!(m.insert(2, 20), None);
    assert_eq!(m.insert(3, 30), None);
    assert_eq!(m.len(), 2);
    assert_eq!(m.get(1), None);
    assert_eq!(m.get(2), Some(20));
    assert_eq!(m.get(3), Some(30));
}

#[test]
fn eviction_tracks_recency_of_insertion() {
    let mut m = LruHashMap::new(2);
    m.insert(1, 10);
    m.insert(2, 20);
    m.insert(3, 30);
    assert_eq!(m.get(2), Some(20));
    assert_eq!(m.get(3), Some(30));
    m.insert(4, 40);
    assert_eq!(m.len(), 2);
    assert_eq!(m.get(2), None);
    assert_eq!(m.get(3), Some(30));
    assert_eq!(m.get(4), Some(40));
}

#[test]
fn get_refreshes_recency() {
    let mut m = LruHashMap::new(2);
    m.insert(1, 10);
    m.insert(2, 20);
    assert_eq!(m.get(1), Some(10));
    m.insert(3, 30);
    assert_eq!(m.get(1), Some(10));
    assert_eq!(m.get(2), None);
    assert_eq!(m.get(3), Some(30));
}

#[test]
fn omitting_get_evicts_oldest() {
    let mut m = LruHashMap::new(2);
    m.insert(1, 10);
    m.insert(2, 20);
    m.insert(3, 30);
    assert_eq!(m.get(1), None);
    assert_eq!(m.get(2), Some(20));
}

#[test]
fn update_in_place_keeps_len() {
    let mut m = LruHashMap::new(2);
    assert_eq!(m.insert(5, 1), None);
    assert_eq!(m.insert(5, 2), Some(1));
    assert_eq!(m.len(), 1);
    assert_eq!(m.get(5), Some(2));
}

#[test]
fn update_of_full_cache_evicts_nothing() {
    let mut m = LruHashMap::new(2);
    m.insert(1, 10);
    m.insert(2, 20);
    assert_eq!(m.insert(1, 11), Some(10));
    assert_eq!(m.len(), 2);
    assert_eq!(m.get(2), Some(20));
    assert_eq!(m.get(1), Some(11));
}

#[test]
fn update_refreshes_recency() {
    let mut m = LruHashMap::new(2);
    m.insert(1, 10);
    m.insert(2, 20);
    assert_eq!(m.insert(1, 11), Some(10));
    m.insert(3, 30);
    assert_eq!(m.get(2), None);
    assert_eq!(m.get(1), Some(11));
    assert_eq!(m.get(3), Some(30));
}

#[test]
fn capacity_one() {
    let mut m = LruHashMap::new(1);
    m.insert(1, 10);
    assert_eq!(m.len(), 1);
    m.insert(2, 20);
    assert_eq!(m.len(), 1);
    assert_eq!(m.get(1), None);
    assert_eq!(m.get(2), Some(20));
}

#[test]
fn slot_reuse_after_many_evictions() {
    let mut m = LruHashMap::new(3);
    for i in 0..1000 {
        m.insert(i, 2 * i);
    }
    assert_eq!(m.len(), 3);
    assert_eq!(m.get(996), None);
    assert_eq!(m.get(997), Some(1994));
    assert_eq!(m.get(998), Some(1996));
    assert_eq!(m.get(999), Some(1998));
}

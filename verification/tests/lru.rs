use lru_hashmap::LruHashMap;

#[test]
fn lru() {
    let mut m = LruHashMap::new(2);
    m.insert(1, 10);
    m.insert(2, 20);
    assert_eq!(m.len(), 2);
    m.insert(3, 30);
    assert_eq!(m.len(), 2);
    assert_eq!(m.get(1), None);
    assert_eq!(m.get(2), Some(20));
    m.insert(4, 40);
    assert_eq!(m.len(), 2);
    assert_eq!(m.get(3), None);
    assert_eq!(m.get(2), Some(20));
    assert_eq!(m.get(4), Some(40));
}

#[test]
fn unlimited() {
    let mut m = LruHashMap::new(0);
    for i in 0..100000 {
        assert_eq!(m.insert(i, i), None);
    }
    for i in (0..100000).rev() {
        assert_eq!(m.get(i), Some(i));
    }
}

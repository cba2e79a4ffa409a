use problems::lru_cache::LRUCache;

#[test]
fn hit_and_miss() {
    let mut c = LRUCache::new(2);
    assert_eq!(c.get(&1), None);
    assert_eq!(c.insert(1, "a"), None);
    assert_eq!(c.get(&1), Some(&"a"));
    assert_eq!(c.get(&2), None);
}

#[test]
fn insert_replaces_and_returns_old_value() {
    let mut c = LRUCache::new(2);
    c.insert(1, 10);
    assert_eq!(c.insert(1, 11), Some(10));
    assert_eq!(c.get(&1), Some(&11));
}

#[test]
fn least_recently_used_is_evicted() {
    let mut c = LRUCache::new(2);
    c.insert(1, 'a');
    c.insert(2, 'b');
    assert_eq!(c.get(&1), Some(&'a'));
    c.insert(3, 'c');
    assert_eq!(c.get(&2), None);
    assert_eq!(c.get(&1), Some(&'a'));
    assert_eq!(c.get(&3), Some(&'c'));
}

#[test]
fn insert_order_decides_without_reads() {
    let mut c = LRUCache::new(3);
    for k in 0..5 {
        c.insert(k, k * 100);
    }
    assert_eq!(c.get(&0), None);
    assert_eq!(c.get(&1), None);
    assert_eq!(c.get(&2), Some(&200));
    assert_eq!(c.get(&3), Some(&300));
    assert_eq!(c.get(&4), Some(&400));
}

#[test]
fn updating_a_key_refreshes_it() {
    let mut c = LRUCache::new(2);
    c.insert("x", 1);
    c.insert("y", 2);
    c.insert("x", 3);
    c.insert("z", 4);
    assert_eq!(c.get(&"y"), None);
    assert_eq!(c.get(&"x"), Some(&3));
    assert_eq!(c.get(&"z"), Some(&4));
}

#[test]
fn capacity_one_keeps_only_the_last() {
    let mut c = LRUCache::new(1);
    c.insert(1, 1);
    c.insert(2, 2);
    assert_eq!(c.get(&1), None);
    assert_eq!(c.get(&2), Some(&2));
}

use problems::flatmap::FlatMap;

#[test]
fn insert_keeps_keys_sorted_and_returns_old_value() {
    let mut m = FlatMap::new();
    assert!(m.is_empty());
    assert_eq!(m.insert(3, "c"), None);
    assert_eq!(m.insert(1, "a"), None);
    assert_eq!(m.insert(2, "b"), None);
    assert_eq!(m.insert(3, "z"), Some("c"));
    assert_eq!(m.len(), 3);
    assert_eq!(m.as_slice(), &[(1, "a"), (2, "b"), (3, "z")]);
}

#[test]
fn get_reads_back_what_insert_wrote() {
    let mut m = FlatMap::new();
    m.insert("x".to_string(), 1);
    m.insert("y".to_string(), 2);
    assert_eq!(m.get(&"x".to_string()), Some(&1));
    assert_eq!(m.get(&"y".to_string()), Some(&2));
    assert_eq!(m.get(&"z".to_string()), None);
    m.insert("x".to_string(), 10);
    assert_eq!(m.get(&"x".to_string()), Some(&10));
    assert_eq!(m.get(&"y".to_string()), Some(&2));
}

#[test]
fn remove_and_remove_entry() {
    let mut m = FlatMap::new();
    m.insert(1, 'a');
    m.insert(2, 'b');
    m.insert(3, 'c');
    assert_eq!(m.remove(&2), Some('b'));
    assert_eq!(m.remove(&2), None);
    assert_eq!(m.remove_entry(&3), Some((3, 'c')));
    assert_eq!(m.remove_entry(&7), None);
    assert_eq!(m.as_slice(), &[(1, 'a')]);
    assert_eq!(m.get(&3), None);
}

#[test]
fn index_finds_present_key() {
    let mut m = FlatMap::new();
    m.insert(5, "five");
    m.insert(4, "four");
    assert_eq!(m[&5], "five");
    assert_eq!(m[&4], "four");
}

#[test]
fn from_vec_sorts_and_last_duplicate_wins() {
    let m = FlatMap::from(vec![(2, 'a'), (1, 'b'), (2, 'c'), (0, 'd'), (1, 'e')]);
    assert_eq!(m.as_slice(), &[(0, 'd'), (1, 'e'), (2, 'c')]);
    let small = FlatMap::from(vec![(9, 'q')]);
    assert_eq!(small.as_slice(), &[(9, 'q')]);
    let none: FlatMap<i32, char> = FlatMap::from(Vec::new());
    assert!(none.is_empty());
}

#[test]
fn back_into_vec_and_iterator() {
    let m = FlatMap::from(vec![(3, 30), (1, 10), (2, 20)]);
    let v: Vec<(i32, i32)> = Vec::from(m);
    assert_eq!(v, vec![(1, 10), (2, 20), (3, 30)]);
    let m = FlatMap::from(v);
    let items: Vec<(i32, i32)> = m.into_iter().collect();
    assert_eq!(items, vec![(1, 10), (2, 20), (3, 30)]);
}

#[test]
fn extend_inserts_in_order() {
    let mut m = FlatMap::new();
    m.insert(1, "one");
    m.extend(vec![(3, "three"), (1, "uno"), (2, "two"), (3, "tres")]);
    assert_eq!(m.as_slice(), &[(1, "uno"), (2, "two"), (3, "tres")]);
}

#[test]
fn capacity_covers_length() {
    let mut m = FlatMap::new();
    for k in 0..20 {
        m.insert(k, k * k);
        assert!(m.capacity() >= m.len());
    }
    assert!(m.capacity() >= 20);
}

#[test]
fn default_map_is_empty() {
    let m: FlatMap<u8, u8> = FlatMap::default();
    assert_eq!(m.len(), 0);
    assert!(m == FlatMap::new());
}

#[test]
fn insert_puts_the_pair_in_its_slot() {
    let mut m = FlatMap::from(vec![(1, 'a'), (3, 'c')]);
    assert_eq!(m.insert(2, 'b'), None);
    assert_eq!(m.as_slice(), &[(1, 'a'), (2, 'b'), (3, 'c')]);
    assert_eq!(m.insert(2, 'x'), Some('b'));
    assert_eq!(m.as_slice(), &[(1, 'a'), (2, 'x'), (3, 'c')]);
    assert_eq!(m.len(), 3);
}

#[test]
fn removing_a_fresh_key_undoes_its_insert() {
    let mut m = FlatMap::from(vec![(5, 50), (1, 10), (9, 90)]);
    let before: Vec<(i32, i32)> = m.as_slice().to_vec();
    assert_eq!(m.get(&7), None);
    assert_eq!(m.insert(7, 70), None);
    assert_eq!(m.remove(&7), Some(70));
    assert_eq!(m.as_slice(), before.as_slice());
}

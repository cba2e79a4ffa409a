use problems::min_queue::MinQueue;

#[test]
fn empty_queue() {
    let mut q: MinQueue<i32> = MinQueue::new();
    assert!(q.is_empty());
    assert_eq!(q.len(), 0);
    assert_eq!(q.front(), None);
    assert_eq!(q.min(), None);
    assert_eq!(q.pop(), None);
}

#[test]
fn min_follows_pushes_and_pops() {
    let mut q = MinQueue::new();
    q.push(3);
    assert_eq!(q.min(), Some(&3));
    q.push(1);
    assert_eq!(q.min(), Some(&1));
    q.push(2);
    assert_eq!(q.min(), Some(&1));
    assert_eq!(q.front(), Some(&3));
    assert_eq!(q.len(), 3);
    assert_eq!(q.pop(), Some(3));
    assert_eq!(q.min(), Some(&1));
    assert_eq!(q.pop(), Some(1));
    assert_eq!(q.min(), Some(&2));
    assert_eq!(q.pop(), Some(2));
    assert_eq!(q.min(), None);
    assert!(q.is_empty());
}

#[test]
fn equal_values_keep_the_minimum() {
    let mut q = MinQueue::new();
    q.push(2);
    q.push(2);
    q.push(5);
    assert_eq!(q.pop(), Some(2));
    assert_eq!(q.min(), Some(&2));
    assert_eq!(q.pop(), Some(2));
    assert_eq!(q.min(), Some(&5));
}

#[test]
fn min_is_least_of_a_longer_run() {
    let vals = [5, 9, 4, 7, 8, 1, 6, 3];
    let mut q = MinQueue::default();
    for v in vals {
        q.push(v);
    }
    for k in 0..vals.len() {
        let least = *vals[k..].iter().min().unwrap();
        assert_eq!(q.min(), Some(&least));
        assert_eq!(q.front(), Some(&vals[k]));
        assert_eq!(q.pop(), Some(vals[k]));
    }
    assert_eq!(q.pop(), None);
}

use problems::pstack::PStack;

#[test]
fn new_stack_is_empty() {
    let s: PStack<i32> = PStack::new();
    assert!(s.is_empty());
    assert_eq!(s.len(), 0);
    assert!(s.pop().is_none());
    assert!(s.iter().is_empty());
}

#[test]
fn push_makes_new_versions_and_keeps_old_ones() {
    let s0: PStack<i32> = PStack::new();
    let s1 = s0.push(1);
    let s2 = s1.push(2);
    let s3 = s2.push(3);
    assert_eq!(s0.len(), 0);
    assert_eq!(s1.len(), 1);
    assert_eq!(s2.len(), 2);
    assert_eq!(s3.len(), 3);
    let v: Vec<i32> = s3.iter().iter().map(|r| **r).collect();
    assert_eq!(v, vec![3, 2, 1]);
    let v: Vec<i32> = s1.iter().iter().map(|r| **r).collect();
    assert_eq!(v, vec![1]);
}

#[test]
fn pop_undoes_push() {
    let base = PStack::new().push("a").push("b");
    let top = base.push("c");
    let (item, rest) = top.pop().unwrap();
    assert_eq!(*item, "c");
    assert_eq!(rest.len(), base.len());
    let a: Vec<&str> = rest.iter().iter().map(|r| **r).collect();
    let b: Vec<&str> = base.iter().iter().map(|r| **r).collect();
    assert_eq!(a, b);
    assert_eq!(top.len(), 3);
}

#[test]
fn branches_share_a_base() {
    let base = PStack::new().push(10);
    let left = base.push(20);
    let right = base.push(30);
    let l: Vec<i32> = left.iter().iter().map(|r| **r).collect();
    let r: Vec<i32> = right.iter().iter().map(|r| **r).collect();
    assert_eq!(l, vec![20, 10]);
    assert_eq!(r, vec![30, 10]);
    let cloned = left.clone();
    assert_eq!(cloned.len(), 2);
}

#[test]
fn pref_clone_reads_the_same_item() {
    let s = PStack::new().push(String::from("hello"));
    let (item, _) = s.pop().unwrap();
    let again = item.clone();
    assert_eq!(&*again, "hello");
    assert_eq!(item.len(), 5);
}

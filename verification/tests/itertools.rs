use problems::itertools::{extract, GroupBy, LazyCycle, TeeData};

#[test]
fn lazy_cycle_repeats_the_items() {
    let mut c = LazyCycle::new(vec![1, 2, 3].into_iter());
    let mut out = Vec::new();
    for _ in 0..8 {
        assert!(c.can_advance());
        out.push(c.next());
    }
    assert_eq!(
        out,
        vec![Some(1), Some(2), Some(3), Some(1), Some(2), Some(3), Some(1), Some(2)]
    );
}

#[test]
fn lazy_cycle_of_two_items() {
    let mut c = LazyCycle::new("ab".chars());
    let mut out = String::new();
    for _ in 0..5 {
        assert!(c.can_advance());
        out.push(c.next().unwrap());
    }
    assert_eq!(out, "ababa");
}

#[test]
fn lazy_cycle_of_nothing_stops() {
    let mut c = LazyCycle::new(Vec::<i32>::new().into_iter());
    assert!(c.can_advance());
    assert_eq!(c.next(), None);
    assert!(!c.can_advance());
}

#[test]
fn lazy_cycle_of_one_item_cannot_go_round_twice() {
    let mut c = LazyCycle::new(vec![7].into_iter());
    assert_eq!(c.next(), Some(7));
    assert!(c.can_advance());
    assert_eq!(c.next(), Some(7));
    assert!(!c.can_advance());
}

fn drain<I: Iterator>(mut e: problems::itertools::Extract<I>) -> Vec<I::Item> {
    let mut out = Vec::new();
    while let Some(x) = e.next() {
        out.push(x);
    }
    out
}

#[test]
fn extract_takes_one_item_out() {
    let (item, rest) = extract(vec![1, 2, 3, 4].into_iter(), 1);
    assert_eq!(item, Some(2));
    assert_eq!(drain(rest), vec![1, 3, 4]);
}

#[test]
fn extract_first_and_last() {
    let (item, rest) = extract(vec![1, 2, 3].into_iter(), 0);
    assert_eq!(item, Some(1));
    assert_eq!(drain(rest), vec![2, 3]);
    let (item, rest) = extract(vec![1, 2, 3].into_iter(), 2);
    assert_eq!(item, Some(3));
    assert_eq!(drain(rest), vec![1, 2]);
}

#[test]
fn extract_past_the_end() {
    let (item, rest) = extract(vec![1, 2].into_iter(), 5);
    assert_eq!(item, None);
    assert_eq!(drain(rest), vec![1, 2]);
    let (item, rest) = extract(Vec::<u8>::new().into_iter(), 0);
    assert_eq!(item, None);
    assert_eq!(drain(rest), Vec::<u8>::new());
}

#[test]
fn tee_halves_each_see_everything() {
    let mut t = TeeData::new(vec![1, 2, 3].into_iter());
    assert_eq!(t.next_for(1), Some(1));
    assert_eq!(t.next_for(1), Some(2));
    assert_eq!(t.next_for(-1), Some(1));
    assert_eq!(t.next_for(-1), Some(2));
    assert_eq!(t.next_for(-1), Some(3));
    assert_eq!(t.next_for(1), Some(3));
    assert_eq!(t.next_for(1), None);
    assert_eq!(t.next_for(-1), None);
}

#[test]
fn tee_halves_interleaved() {
    let mut t = TeeData::new("xyz".chars());
    let mut left = String::new();
    let mut right = String::new();
    for _ in 0..4 {
        if let Some(c) = t.next_for(-1) {
            right.push(c);
        }
        if let Some(c) = t.next_for(1) {
            left.push(c);
        }
    }
    assert_eq!(left, "xyz");
    assert_eq!(right, "xyz");
}

#[test]
fn tee_one_half_first_then_the_other() {
    let mut t = TeeData::new(0..5);
    let a: Vec<i32> = (0..6).filter_map(|_| t.next_for(1)).collect();
    let b: Vec<i32> = (0..6).filter_map(|_| t.next_for(-1)).collect();
    assert_eq!(a, vec![0, 1, 2, 3, 4]);
    assert_eq!(b, vec![0, 1, 2, 3, 4]);
}

#[test]
fn tee_of_nothing() {
    let mut t = TeeData::new(Vec::<i32>::new().into_iter());
    assert_eq!(t.next_for(-1), None);
    assert_eq!(t.next_for(1), None);
}

#[test]
fn group_by_runs_of_equal_values() {
    let mut g = GroupBy::new(vec![1, 1, 2, 3, 3, 3, 1].into_iter(), |x: &i32| *x);
    assert_eq!(g.next(), Some((1, vec![1, 1])));
    assert_eq!(g.next(), Some((2, vec![2])));
    assert_eq!(g.next(), Some((3, vec![3, 3, 3])));
    assert_eq!(g.next(), Some((1, vec![1])));
    assert_eq!(g.next(), None);
    assert_eq!(g.next(), None);
}

#[test]
fn group_by_key_function() {
    let mut g = GroupBy::new(vec![2, 4, 1, 3, 5, 6].into_iter(), |x: &i32| x % 2 == 0);
    assert_eq!(g.next(), Some((true, vec![2, 4])));
    assert_eq!(g.next(), Some((false, vec![1, 3, 5])));
    assert_eq!(g.next(), Some((true, vec![6])));
    assert_eq!(g.next(), None);
}

#[test]
fn group_by_of_nothing() {
    let mut g = GroupBy::new(Vec::<String>::new().into_iter(), |s: &String| s.len());
    assert_eq!(g.next(), None);
}

#[test]
fn group_by_strings_by_length() {
    let words = vec!["a", "b", "cc", "dd", "e"];
    let mut g = GroupBy::new(words.into_iter(), |s: &&str| s.len());
    assert_eq!(g.next(), Some((1, vec!["a", "b"])));
    assert_eq!(g.next(), Some((2, vec!["cc", "dd"])));
    assert_eq!(g.next(), Some((1, vec!["e"])));
    assert_eq!(g.next(), None);
}

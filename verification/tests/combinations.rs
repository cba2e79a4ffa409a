use problems::combinations::combinations;

#[test]
fn pairs_of_three_in_order() {
    let res = combinations(&[1, 2, 3], 2);
    assert_eq!(res, vec![vec![1, 2], vec![1, 3], vec![2, 3]]);
}

#[test]
fn choosing_nothing_gives_one_empty_combination() {
    assert_eq!(combinations(&[4, 5], 0), vec![Vec::<i32>::new()]);
    assert_eq!(combinations(&[], 0), vec![Vec::<i32>::new()]);
}

#[test]
fn choosing_from_nothing_gives_none() {
    assert_eq!(combinations(&[], 2), Vec::<Vec<i32>>::new());
}

#[test]
fn choosing_more_than_there_is_gives_none() {
    assert_eq!(combinations(&[1, 2], 3), Vec::<Vec<i32>>::new());
}

#[test]
fn single_items() {
    assert_eq!(combinations(&[7, 8, 9], 1), vec![vec![7], vec![8], vec![9]]);
}

#[test]
fn count_is_binomial_and_members_come_from_input() {
    let arr = [1, 2, 3, 4, 5];
    let res = combinations(&arr, 3);
    assert_eq!(res.len(), 10);
    for c in &res {
        assert_eq!(c.len(), 3);
        for x in c {
            assert!(arr.contains(x));
        }
    }
    assert_eq!(res[0], vec![1, 2, 3]);
    assert_eq!(res[9], vec![3, 4, 5]);
}

#[test]
fn whole_set() {
    assert_eq!(combinations(&[1, 2, 3], 3), vec![vec![1, 2, 3]]);
}

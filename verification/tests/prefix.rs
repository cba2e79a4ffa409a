use problems::prefix::{longest_common_prefix, longest_common_prefix_allocs, longest_common_prefix_no_allocs};

fn all(strs: Vec<&str>) -> (String, String, String) {
    (
        longest_common_prefix(strs.clone()),
        longest_common_prefix_no_allocs(strs.clone()),
        longest_common_prefix_allocs(strs),
    )
}

fn check(strs: Vec<&str>, expected: &str) {
    let (a, b, c) = all(strs);
    assert_eq!(a, expected);
    assert_eq!(b, expected);
    assert_eq!(c, expected);
}

#[test]
fn plain_words() {
    check(vec!["flower", "flow", "flight"], "fl");
    check(vec!["dog", "racecar", "car"], "");
    check(vec!["same", "same", "same"], "same");
}

#[test]
fn no_strings_and_one_string() {
    check(vec![], "");
    check(vec!["alone"], "alone");
    check(vec![""], "");
}

#[test]
fn empty_member_gives_empty_prefix() {
    check(vec!["abc", ""], "");
    check(vec!["", "abc"], "");
}

#[test]
fn one_string_is_prefix_of_another() {
    check(vec!["abcd", "ab"], "ab");
    check(vec!["ab", "abcd"], "ab");
}

#[test]
fn multibyte_characters() {
    check(vec!["Привет", "Привед"], "Приве");
    check(vec!["a😀b", "a😀c"], "a😀");
    check(vec!["aé", "ab"], "a");
    check(vec!["éa", "éb", "éc"], "é");
}

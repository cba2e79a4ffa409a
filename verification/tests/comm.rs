use problems::comm::common_lines;

fn lines(v: &[&str]) -> Vec<String> {
    v.iter().map(|s| s.to_string()).collect()
}

#[test]
fn common_lines_in_second_file_order_once_each() {
    let res = common_lines(lines(&["a", "b", "c", "b"]), lines(&["b", "d", "a", "b", "a"]));
    assert_eq!(res, lines(&["b", "a"]));
}

#[test]
fn nothing_in_common() {
    assert_eq!(common_lines(lines(&["x"]), lines(&["y", "z"])), Vec::<String>::new());
    assert_eq!(common_lines(Vec::new(), lines(&["y"])), Vec::<String>::new());
    assert_eq!(common_lines(lines(&["y"]), Vec::new()), Vec::<String>::new());
}

#[test]
fn empty_lines_count_as_lines() {
    assert_eq!(common_lines(lines(&["", "q"]), lines(&["", "", "q"])), lines(&["", "q"]));
}

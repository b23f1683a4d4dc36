use track_cli::strutil::{find_sub, split_all, split_first};

#[test]
fn find_sub_reports_leftmost_occurrence() {
    assert_eq!(find_sub("a | b | c", " | ", 0), Some(1));
    assert_eq!(find_sub("a | b | c", " | ", 2), Some(5));
    assert_eq!(find_sub("a | b | c", " | ", 6), None);
    assert_eq!(find_sub("abc", " | ", 0), None);
    assert_eq!(find_sub("", "x", 0), None);
}

#[test]
fn split_first_separates_head_and_rest() {
    let (head, rest) = split_first("a | b | c", " | ");
    assert_eq!(head, "a");
    assert_eq!(rest, Some("b | c"));

    let (head, rest) = split_first("abc", " | ");
    assert_eq!(head, "abc");
    assert_eq!(rest, None);

    let (head, rest) = split_first(" | b", " | ");
    assert_eq!(head, "");
    assert_eq!(rest, Some("b"));
}

#[test]
fn split_all_splits_every_occurrence() {
    assert_eq!(split_all("a, b, c", ", "), vec!["a", "b", "c"]);
    assert_eq!(split_all("one", ", "), vec!["one"]);
    assert_eq!(split_all("", ", "), vec![""]);
    assert_eq!(split_all("a, ", ", "), vec!["a", ""]);
}

use deet::text::{split_spaces, str_eq};

#[test]
fn splits_at_every_space() {
    assert_eq!(split_spaces("a bc d"), vec!["a", "bc", "d"]);
    assert_eq!(split_spaces("a  b"), vec!["a", "", "b"]);
    assert_eq!(split_spaces(""), vec![""]);
    assert_eq!(split_spaces(" x "), vec!["", "x", ""]);
    assert_eq!(split_spaces("word").len(), 1);
}

#[test]
fn compares_strings() {
    assert!(str_eq("main", "main"));
    assert!(!str_eq("main", "mains"));
    assert!(!str_eq("main", "maim"));
    assert!(str_eq("", ""));
}

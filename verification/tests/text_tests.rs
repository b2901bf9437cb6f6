use toad_ops::analytics::shortstat_totals;
use toad_ops::text::{
    chars_of, decimal_string, first_word_of, lines_of, second_field_of, split_chars,
    str_contains, str_ends_with, str_starts_with, trim_chars,
};

fn s(v: &[char]) -> String {
    v.iter().collect()
}

#[test]
fn lines_match_std() {
    for text in ["", "a", "a\n", "a\n\n", "foo\nbar\n\r\nbaz\r", "x\r\ny", "\n", "\r", "one\ntwo"] {
        let ours: Vec<String> = lines_of(&chars_of(text)).iter().map(|l| s(l)).collect();
        let std: Vec<String> = text.lines().map(|l| l.to_string()).collect();
        assert_eq!(ours, std, "{:?}", text);
    }
}

#[test]
fn split_matches_std() {
    for text in ["", "a", "a,b", ",", "1 file changed, 2 insertions(+), 3 deletions(-)", "a,,b,"] {
        let ours: Vec<String> = split_chars(&chars_of(text), ',').iter().map(|l| s(l)).collect();
        let std: Vec<String> = text.split(',').map(|l| l.to_string()).collect();
        assert_eq!(ours, std, "{:?}", text);
    }
}

#[test]
fn trim_and_first_word_match_std() {
    for text in ["", "  ", " a b ", "\tname = \"x\"\n", "word"] {
        assert_eq!(s(&trim_chars(&chars_of(text))), text.trim());
        let ours = first_word_of(&chars_of(text)).map(|w| s(&w));
        let std = text.split_whitespace().next().map(|w| w.to_string());
        assert_eq!(ours, std, "{:?}", text);
    }
}

#[test]
fn second_field_matches_std() {
    for text in ["name = \"toad-ops\"", "no quotes", "name = \"open", "\"\""] {
        let ours = second_field_of(&chars_of(text), '"').map(|w| s(&w));
        let std = text.split('"').nth(1).map(|w| w.to_string());
        assert_eq!(ours, std, "{:?}", text);
    }
}

#[test]
fn substring_tests() {
    assert!(str_contains("hello world", "lo w"));
    assert!(str_contains("abc", ""));
    assert!(!str_contains("abc", "abcd"));
    assert!(str_starts_with("cargo build", "cargo "));
    assert!(!str_starts_with("car", "cargo"));
    assert!(str_ends_with("line\n", "\n"));
    assert!(!str_ends_with("line", "\n"));
}

#[test]
fn decimal_matches_std() {
    for n in [0u64, 7, 10, 99, 1000, 123456789, u64::MAX] {
        assert_eq!(decimal_string(n), n.to_string());
    }
}

#[test]
fn shortstat_counts_parse_like_std() {
    // counts are read with `str::parse::<usize>`: a leading `+` is accepted,
    // a sign `-` or trailing letters make the part count nothing
    assert_eq!(shortstat_totals(" 42 insertions(+), +7 deletions(-)"), Some((42, 7)));
    assert_eq!(shortstat_totals(" -1 insertion(+), 12a deletions(-)"), Some((0, 0)));
}

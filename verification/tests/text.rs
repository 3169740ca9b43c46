use content_renamer::text::{
    decimal_text, has_bytes, join_strings, parse_u64, replace_char, split_at_char, split_at_text,
    text_contains, text_starts_with, trim_end_text, trim_start_text, trim_text,
};

#[test]
fn trims_texts() {
    assert_eq!(trim_text(" \u{3000}a b\t\n"), "a b");
    assert_eq!(trim_start_text(" a "), "a ");
    assert_eq!(trim_end_text(" a "), " a");
    assert_eq!(trim_text(" \u{2003} "), "");
}

#[test]
fn finds_and_splits_texts() {
    assert!(text_contains("abc", "bc"));
    assert!(text_contains("abc", ""));
    assert!(!text_contains("abc", "ac"));
    assert!(text_starts_with("abc", "ab"));
    assert!(!text_starts_with("abc", "bc"));
    assert_eq!(split_at_char("a,b,,c", ','), vec!["a", "b", "", "c"]);
    assert_eq!(split_at_char("", ','), vec![""]);
    assert_eq!(split_at_text("a - b - c", " - "), vec!["a", "b", "c"]);
    assert_eq!(split_at_text("aaa", "aa"), vec!["", "a"]);
    assert_eq!(replace_char("a.b.", '.', ' '), "a b ");
    assert_eq!(
        join_strings(&vec!["a".to_string(), "b".to_string()], ", "),
        "a, b"
    );
}

#[test]
fn counts_bytes() {
    assert!(has_bytes("愛", 3));
    assert!(!has_bytes("愛", 4));
    assert!(has_bytes("", 0));
}

#[test]
fn writes_and_reads_numbers() {
    assert_eq!(decimal_text(0), "0");
    assert_eq!(decimal_text(1203), "1203");
    assert_eq!(decimal_text(u64::MAX), "18446744073709551615");
    assert_eq!(parse_u64("00012"), Some(12));
    assert_eq!(parse_u64("+"), None);
    assert_eq!(parse_u64("-1"), None);
    assert_eq!(parse_u64("１"), None);
}

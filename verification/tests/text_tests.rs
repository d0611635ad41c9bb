use electrolysis::calendar::{date_of, format_timestamp, is_leap};
use electrolysis::listing::{difference, sorted_set};
use electrolysis::order::str_le;
use electrolysis::table::{Table, TextSet};
use electrolysis::text::{
    blank, contains, ends_with, join_lines, leading_whitespace, replace, split_lines, starts_with,
    trim, trim_end, trim_start, usize_text,
};

fn strings(v: &[&str]) -> Vec<String> {
    v.iter().map(|s| s.to_string()).collect()
}

#[test]
fn lines_are_split_like_std() {
    for text in ["", "\n", "a", "a\n", "a\nb", "a\n\nb\n", "a\r\nb\r\n", "a\r", "\r\n\r", "a\r\r\n"] {
        let expected: Vec<String> = text.lines().map(String::from).collect();
        assert_eq!(split_lines(text), expected, "{text:?}");
    }
}

#[test]
fn lines_are_joined() {
    assert_eq!(join_lines(&strings(&[])), "");
    assert_eq!(join_lines(&strings(&["a", "", "b"])), "a\n\nb");
}

#[test]
fn white_space_is_trimmed_like_std() {
    for text in ["", "  ", "\t a b \n", "\u{a0}x\u{3000}", "x", "\u{2028}\u{200b}y"] {
        assert_eq!(trim(text), text.trim(), "{text:?}");
        assert_eq!(trim_start(text), text.trim_start(), "{text:?}");
        assert_eq!(trim_end(text), text.trim_end(), "{text:?}");
        assert_eq!(blank(text), text.trim().is_empty(), "{text:?}");
    }
    assert_eq!(leading_whitespace("\t  x y"), "\t  ");
}

#[test]
fn texts_are_searched_and_replaced() {
    assert!(starts_with("abc", "ab") && !starts_with("abc", "b"));
    assert!(ends_with("abc", "bc") && !ends_with("abc", "b"));
    assert!(contains("abc", "b") && !contains("abc", "ac") && contains("abc", ""));
    assert_eq!(replace("aaa", "aa", "b"), "ba");
    assert_eq!(replace("a.b.c", ".", "::"), "a::b::c");
}

#[test]
fn numbers_are_written() {
    assert_eq!(usize_text(0), "0");
    assert_eq!(usize_text(1_024), "1024");
    assert_eq!(usize_text(usize::MAX), format!("{}", usize::MAX));
}

#[test]
fn order_of_texts_is_that_of_std() {
    for (a, b) in [("", "a"), ("a", "a"), ("a", "ab"), ("b", "ab"), ("Z", "a"), ("é", "z")] {
        assert_eq!(str_le(a, b), a <= b, "{a:?} {b:?}");
        assert_eq!(str_le(b, a), b <= a, "{b:?} {a:?}");
    }
}

#[test]
fn listings_are_sorted_without_duplicates() {
    let v = strings(&["b", "a", "b", "c", "a"]);
    assert_eq!(sorted_set(&v), strings(&["a", "b", "c"]));
    assert_eq!(difference(&v, &strings(&["a", "x"])), strings(&["b", "c"]));
}

#[test]
fn tables_keep_the_place_of_a_key() {
    let mut t: Table<String> = Table::new();
    t.set("a".to_string(), "1".to_string());
    t.set("b".to_string(), "2".to_string());
    t.set("a".to_string(), "3".to_string());
    assert_eq!(t.len(), 2);
    assert_eq!(t.key_at(0), "a");
    assert_eq!(t.val_at(0), "3");
    assert_eq!(t.get("b").map(String::as_str), Some("2"));
    assert!(t.get("c").is_none());

    let mut s = TextSet::new();
    s.insert("a".to_string());
    assert!(s.contains("a") && !s.contains("b"));
}

#[test]
fn timestamps_are_exact() {
    assert_eq!(format_timestamp(0), "1970-01-01T00:00:00Z");
    assert_eq!(format_timestamp(951_782_400), "2000-02-29T00:00:00Z");
    assert_eq!(format_timestamp(1_704_067_199), "2023-12-31T23:59:59Z");
    assert_eq!(format_timestamp(4_107_542_399), "2100-02-28T23:59:59Z");
    assert_eq!(format_timestamp(4_107_542_400), "2100-03-01T00:00:00Z");
}

#[test]
fn dates_are_exact() {
    assert!(is_leap(2000) && is_leap(2024) && !is_leap(1900) && !is_leap(2023));
    assert_eq!(date_of(0), (1970, 1, 1));
    assert_eq!(date_of(11_016), (2000, 2, 29));
    assert_eq!(date_of(11_017), (2000, 3, 1));
}

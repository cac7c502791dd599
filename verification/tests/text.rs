use charabia::segmenter::camel_case::scan_char;
use charabia::text::{byte_len, split_after};

#[test]
fn byte_len_counts_bytes_not_characters() {
    assert_eq!(byte_len(""), 0);
    assert_eq!(byte_len("abc"), 3);
    assert_eq!(byte_len("é"), 2);
    assert_eq!(byte_len("世界"), 6);
    assert_eq!(byte_len("😀"), 4);
}

#[test]
fn split_after_gives_what_follows_the_head() {
    assert_eq!(split_after("héllo wörld", "héllo"), " wörld");
    assert_eq!(split_after("世界abc", "世"), "界abc");
    assert_eq!(split_after("abc", ""), "abc");
    assert_eq!(split_after("abc", "abc"), "");
}

#[test]
fn an_uppercase_letter_opens_a_unit_behind_a_lowercase_one() {
    let mut seen_lower = true;
    assert!(!scan_char(&mut seen_lower, 'B'));
    assert!(!seen_lower);
    assert!(scan_char(&mut seen_lower, 'C'));
    assert!(!seen_lower);
}

#[test]
fn the_scan_looks_through_marks() {
    let mut seen_lower = false;
    assert!(scan_char(&mut seen_lower, 'b'));
    assert!(seen_lower);
    assert!(scan_char(&mut seen_lower, '\u{0301}'));
    assert!(seen_lower);
    assert!(!scan_char(&mut seen_lower, 'C'));
    assert!(!seen_lower);
    assert!(scan_char(&mut seen_lower, '\u{0301}'));
    assert!(!seen_lower);
    assert!(scan_char(&mut seen_lower, 'D'));
    assert!(!seen_lower);
}

#[test]
fn a_digit_ends_what_a_lowercase_letter_began() {
    let mut seen_lower = false;
    assert!(scan_char(&mut seen_lower, 'a'));
    assert!(seen_lower);
    assert!(scan_char(&mut seen_lower, '1'));
    assert!(!seen_lower);
    assert!(scan_char(&mut seen_lower, 'D'));
    assert!(!seen_lower);
}

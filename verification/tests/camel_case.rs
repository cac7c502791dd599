use charabia::segmenter::camel_case::{split_camel_case_bounds, CamelCaseSegmenter};
use charabia::segmenter::Segmenter;

#[test]
fn empty_string_is_preserved() {
    assert_eq!(split_camel_case_bounds(""), vec![""]);
}

#[test]
fn one_letter_word() {
    assert_eq!(split_camel_case_bounds("a"), vec!["a"]);
}

#[test]
fn two_letter_word() {
    assert_eq!(split_camel_case_bounds("aB"), vec!["a", "B"]);
}

#[test]
fn camel_case_is_split() {
    assert_eq!(split_camel_case_bounds("camelCase"), vec!["camel", "Case"]);
}

#[test]
fn all_caps_is_not_split() {
    assert_eq!(split_camel_case_bounds("SCREAMING"), vec!["SCREAMING"]);
}

#[test]
fn non_ascii_boundary_on_left() {
    assert_eq!(split_camel_case_bounds("resuméWriter"), vec!["resumé", "Writer"]);
}

#[test]
fn non_ascii_boundary_on_right() {
    assert_eq!(split_camel_case_bounds("KarelČapek"), vec!["Karel", "Čapek"]);
}

#[test]
fn accented_word_is_split() {
    assert_eq!(split_camel_case_bounds("résuméWriter"), vec!["résumé", "Writer"]);
}

#[test]
fn non_spacing_marks_are_respected() {
    assert_eq!(
        split_camel_case_bounds("resume\u{0301}Writer"),
        vec!["resume\u{0301}", "Writer"]
    );
}

#[test]
fn segmenter_splits_as_the_function_does() {
    assert_eq!(CamelCaseSegmenter.segment_str("camelCase"), vec!["camel", "Case"]);
}

#[test]
fn an_uppercase_letter_behind_an_uppercase_letter_stays() {
    assert_eq!(split_camel_case_bounds("abCD"), vec!["ab", "CD"]);
    assert_eq!(split_camel_case_bounds("ABCdefGHI"), vec!["ABCdef", "GHI"]);
    assert_eq!(split_camel_case_bounds("aBcD"), vec!["a", "Bc", "D"]);
}

#[test]
fn a_mark_behind_the_first_letter_does_not_hide_it() {
    assert_eq!(split_camel_case_bounds("a\u{0301}B"), vec!["a\u{0301}", "B"]);
    assert_eq!(split_camel_case_bounds("a\u{0301}\u{0302}B"), vec!["a\u{0301}\u{0302}", "B"]);
}

#[test]
fn a_mark_behind_an_uppercase_letter_changes_nothing() {
    assert_eq!(split_camel_case_bounds("A\u{0301}B"), vec!["A\u{0301}B"]);
    assert_eq!(split_camel_case_bounds("\u{0301}B"), vec!["\u{0301}B"]);
    assert_eq!(split_camel_case_bounds("aB\u{0301}C"), vec!["a", "B\u{0301}C"]);
}

#[test]
fn an_uppercase_run_after_the_first_letter_stays_whole() {
    assert_eq!(split_camel_case_bounds("aBC"), vec!["a", "BC"]);
}

#[test]
fn digits_between_letters_reset_the_scan() {
    assert_eq!(split_camel_case_bounds("aB1C"), vec!["a", "B1C"]);
    assert_eq!(split_camel_case_bounds("ab1C"), vec!["ab1C"]);
}

#[test]
fn title_case_words_are_not_split() {
    assert_eq!(split_camel_case_bounds("Hello World"), vec!["Hello World"]);
    assert_eq!(split_camel_case_bounds("helloWorld fooBar"), vec!["hello", "World foo", "Bar"]);
}

#[test]
fn a_single_character_of_several_bytes_is_one_unit() {
    assert_eq!(split_camel_case_bounds("é"), vec!["é"]);
    assert_eq!(split_camel_case_bounds("世"), vec!["世"]);
}

#[test]
fn every_segmentation_tiles_the_text() {
    for text in ["", "a", "aB", "fooBarBaz", "résuméWriter", "e\u{0301}E", "ABCdefGHI", "x1Y2z"] {
        assert_eq!(split_camel_case_bounds(text).concat(), text);
    }
}

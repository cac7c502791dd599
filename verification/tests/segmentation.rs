use charabia::detection::{AllowList, Language, LanguageDetector, Script};
use charabia::segmenter::camel_case::CamelCaseSegmenter;
use charabia::segmenter::registry::Registry;
use charabia::segmenter::{Segment, SegmentedStrIter, SegmentedTokenIter, Segmenter};
use charabia::token::{Lemma, Token, TokenKind};
use std::collections::HashMap;
use std::sync::atomic::{AtomicUsize, Ordering};

struct Fixed(Language);

impl LanguageDetector for Fixed {
    fn detect_language(
        &self,
        _text: &str,
        _script: Script,
        _allow_list: Option<&AllowList>,
    ) -> Language {
        self.0
    }
}

/// Answers with the language that the allow list holds first for the script.
struct FromAllowList {
    calls: AtomicUsize,
}

impl LanguageDetector for FromAllowList {
    fn detect_language(
        &self,
        _text: &str,
        script: Script,
        allow_list: Option<&AllowList>,
    ) -> Language {
        self.calls.fetch_add(1, Ordering::SeqCst);
        allow_list
            .and_then(|list| list.get(&script))
            .and_then(|languages| languages.first().copied())
            .unwrap_or(Language::Other)
    }
}

fn lemmas<'a>(tokens: &'a [Token<'a>]) -> Vec<&'a str> {
    tokens.iter().map(|token| token.lemma()).collect()
}

#[test]
fn units_come_run_by_run() {
    let registry = Registry::new(CamelCaseSegmenter);
    let detector = Fixed(Language::Other);
    let mut units = "helloWorld世界fooBar".segment_str(&registry, &detector);
    assert_eq!(units.next(), Some("hello"));
    assert_eq!(units.script, Script::Latin);
    assert_eq!(units.next(), Some("World"));
    assert_eq!(units.next(), Some("世界"));
    assert_eq!(units.script, Script::Cj);
    assert_eq!(units.next(), Some("foo"));
    assert_eq!(units.script, Script::Latin);
    assert_eq!(units.next(), Some("Bar"));
    assert_eq!(units.next(), None);
    assert_eq!(units.next(), None);
}

#[test]
fn tokens_tile_the_text() {
    let text = "helloWorld世界fooBar";
    let registry = Registry::new(CamelCaseSegmenter);
    let detector = Fixed(Language::Other);
    let tokens = text.segment(&registry, &detector).collect();
    assert_eq!(lemmas(&tokens), vec!["hello", "World", "世界", "foo", "Bar"]);
    let chars: Vec<(usize, usize)> = tokens.iter().map(|t| (t.char_start, t.char_end)).collect();
    let bytes: Vec<(usize, usize)> = tokens.iter().map(|t| (t.byte_start, t.byte_end)).collect();
    assert_eq!(chars, vec![(0, 5), (5, 10), (10, 12), (12, 15), (15, 18)]);
    assert_eq!(bytes, vec![(0, 5), (5, 10), (10, 16), (16, 19), (19, 22)]);
    assert_eq!(lemmas(&tokens).concat(), text);
    for pair in tokens.windows(2) {
        assert_eq!(pair[0].char_end, pair[1].char_start);
        assert_eq!(pair[0].byte_end, pair[1].byte_start);
    }
    for token in &tokens {
        assert_eq!(&text[token.byte_start..token.byte_end], token.lemma());
        assert_eq!(token.kind, TokenKind::Unknown);
        assert!(matches!(token.lemma, Lemma::Borrowed(_)));
    }
    assert_eq!(tokens[2].script, Script::Cj);
    assert_eq!(tokens[4].script, Script::Latin);
}

#[test]
fn next_gives_the_tokens_that_collect_gives() {
    let registry = Registry::new(CamelCaseSegmenter);
    let detector = Fixed(Language::Other);
    let mut tokens = "aB".segment(&registry, &detector);
    let first = tokens.next().unwrap();
    assert_eq!((first.lemma(), first.char_start, first.char_end), ("a", 0, 1));
    assert_eq!((first.byte_start, first.byte_end), (0, 1));
    let second = tokens.next().unwrap();
    assert_eq!((second.lemma(), second.char_start, second.char_end), ("B", 1, 2));
    assert_eq!((tokens.char_index, tokens.byte_index), (2, 2));
    assert!(tokens.next().is_none());
    assert_eq!((tokens.char_index, tokens.byte_index), (2, 2));
}

#[test]
fn the_empty_text_is_one_empty_run() {
    let registry = Registry::new(CamelCaseSegmenter);
    let detector = Fixed(Language::Other);
    let mut units = "".segment_str(&registry, &detector);
    assert_eq!(units.next(), Some(""));
    assert_eq!(units.next(), None);
    let tokens = "".segment(&registry, &detector).collect();
    assert_eq!(tokens.len(), 1);
    assert_eq!(tokens[0].lemma(), "");
    assert_eq!((tokens[0].char_start, tokens[0].char_end), (0, 0));
    assert_eq!((tokens[0].byte_start, tokens[0].byte_end), (0, 0));
    assert_eq!(tokens[0].script, Script::Other);
}

#[test]
fn collecting_units_gives_them_all() {
    let registry = Registry::new(CamelCaseSegmenter);
    let detector = Fixed(Language::Other);
    let units = "résuméWriter 42 שלום".segment_str(&registry, &detector).collect();
    assert_eq!(units, vec!["résumé", "Writer 42 ", "שלום"]);
}

#[test]
fn later_runs_are_not_touched_before_their_turn() {
    let mut registry = Registry::new(CamelCaseSegmenter);
    registry.register(Script::Latin, Language::Eng, CamelCaseSegmenter);
    registry.register(Script::Latin, Language::Fra, CamelCaseSegmenter);
    let mut allow_list: AllowList = HashMap::new();
    allow_list.insert(Script::Latin, vec![Language::Fra]);
    let detector = FromAllowList { calls: AtomicUsize::new(0) };
    let mut units = SegmentedStrIter::new("fooBar中c", Some(&allow_list), &registry, &detector);
    assert_eq!(detector.calls.load(Ordering::SeqCst), 0);
    assert_eq!(units.rest, "fooBar中c");
    assert!(units.current.is_empty());

    assert_eq!(units.next(), Some("foo"));
    assert_eq!(detector.calls.load(Ordering::SeqCst), 1);
    assert_eq!(units.rest, "中c");
    assert_eq!(units.current, vec!["foo", "Bar"]);
    assert_eq!(units.language, Some(Language::Fra));

    assert_eq!(units.next(), Some("Bar"));
    assert_eq!(detector.calls.load(Ordering::SeqCst), 1);
    assert_eq!(units.rest, "中c");

    assert_eq!(units.next(), Some("中"));
    assert_eq!(detector.calls.load(Ordering::SeqCst), 1);
    assert_eq!(units.rest, "c");
    assert_eq!(units.script, Script::Cj);
    assert_eq!(units.language, None);

    assert_eq!(units.next(), Some("c"));
    assert_eq!(detector.calls.load(Ordering::SeqCst), 2);
    assert_eq!(units.rest, "");
    assert_eq!(units.next(), None);
    assert_eq!(detector.calls.load(Ordering::SeqCst), 2);
}

#[test]
fn tokens_carry_the_language_of_their_run() {
    let mut registry = Registry::new(CamelCaseSegmenter);
    registry.register(Script::Cj, Language::Cmn, CamelCaseSegmenter);
    registry.register(Script::Cj, Language::Jpn, CamelCaseSegmenter);
    let detector = Fixed(Language::Jpn);
    let tokens = "aあ".segment(&registry, &detector).collect();
    assert_eq!(lemmas(&tokens), vec!["a", "あ"]);
    assert_eq!((tokens[0].script, tokens[0].language), (Script::Latin, None));
    assert_eq!((tokens[1].script, tokens[1].language), (Script::Cj, Some(Language::Jpn)));
    assert_eq!((tokens[1].byte_start, tokens[1].byte_end), (1, 4));
}

#[test]
fn a_boxed_segmenter_gives_the_units_of_the_one_in_the_box() {
    let boxed: Box<dyn Segmenter> = Box::new(CamelCaseSegmenter);
    for text in ["", "a", "fooBarBaz", "résuméWriter", "a\u{0301}B", "ABc dEf"] {
        assert_eq!(boxed.segment_str(text), CamelCaseSegmenter.segment_str(text));
    }
}

#[test]
fn boxed_segmenters_share_a_registry() {
    let fallback: Box<dyn Segmenter> = Box::new(CamelCaseSegmenter);
    let mut registry = Registry::new(fallback);
    registry.register(Script::Cj, Language::Other, Box::new(CamelCaseSegmenter));
    let detector = Fixed(Language::Other);
    let units = "fooBar中文".segment_str(&registry, &detector).collect();
    assert_eq!(units, vec!["foo", "Bar", "中文"]);
}

#[test]
fn a_token_iterator_can_take_over_from_a_unit_iterator() {
    let registry = Registry::new(CamelCaseSegmenter);
    let detector = Fixed(Language::Other);
    let mut units = "fooBarBaz".segment_str(&registry, &detector);
    assert_eq!(units.next(), Some("foo"));
    let mut tokens = SegmentedTokenIter::from(units);
    let token = tokens.next().unwrap();
    assert_eq!((token.lemma(), token.char_start, token.char_end), ("Bar", 0, 3));
    let token = tokens.next().unwrap();
    assert_eq!((token.lemma(), token.byte_start, token.byte_end), ("Baz", 3, 6));
}

#[test]
fn the_allow_list_reaches_the_detector() {
    let mut registry = Registry::new(CamelCaseSegmenter);
    registry.register(Script::Latin, Language::Eng, CamelCaseSegmenter);
    registry.register(Script::Latin, Language::Deu, CamelCaseSegmenter);
    let mut allow_list: AllowList = HashMap::new();
    allow_list.insert(Script::Latin, vec![Language::Deu, Language::Eng]);
    let detector = FromAllowList { calls: AtomicUsize::new(0) };
    let mut tokens = "ja".segment_with_allowlist(Some(&allow_list), &registry, &detector);
    assert_eq!(tokens.next().unwrap().language, Some(Language::Deu));
    let mut tokens = "ja".segment(&registry, &detector);
    assert_eq!(tokens.next().unwrap().language, Some(Language::Other));
}

#[test]
fn the_entry_points_agree() {
    let registry = Registry::new(CamelCaseSegmenter);
    let detector = Fixed(Language::Other);
    let text = "résuméWriter 42 שלוםAb";
    let units = text.segment_str(&registry, &detector).collect();
    assert_eq!(units, text.segment_str_with_allowlist(None, &registry, &detector).collect());
    let tokens = text.segment(&registry, &detector).collect();
    assert_eq!(lemmas(&tokens), units);
    let listed = text.segment_with_allowlist(None, &registry, &detector).collect();
    assert_eq!(lemmas(&listed), units);
    let last = tokens.last().unwrap();
    assert_eq!(last.char_end, text.chars().count());
    assert_eq!(last.byte_end, text.len());
}

#[test]
fn the_first_token_of_a_one_character_text() {
    let registry = Registry::new(CamelCaseSegmenter);
    let detector = Fixed(Language::Other);
    let mut tokens = "é".segment(&registry, &detector);
    let token = tokens.next().unwrap();
    assert_eq!(token.lemma(), "é");
    assert_eq!((token.char_start, token.char_end), (0, 1));
    assert_eq!((token.byte_start, token.byte_end), (0, 2));
    assert!(tokens.next().is_none());
}

use charabia::detection::{Language, Script};
use charabia::normalizer::tatweel::{contains_char, TatweelNormalizer, TATWEEL};
use charabia::normalizer::{normalize, normalize_token, pipeline_for, CharNormalizer, CharOrStr, Pipeline};
use charabia::segmenter::registry::Registry;
use charabia::token::{Lemma, Token, TokenKind};

fn token(lemma: &str, script: Script) -> Token<'_> {
    Token {
        lemma: Lemma::Borrowed(lemma),
        script,
        language: None,
        char_start: 3,
        char_end: 3 + lemma.chars().count(),
        byte_start: 7,
        byte_end: 7 + lemma.len(),
        kind: TokenKind::Unknown,
    }
}

#[test]
fn tatweel_is_dropped_from_an_arabic_token() {
    let normalized = normalize(&TatweelNormalizer, token("الـــعـربية", Script::Arabic));
    assert_eq!(normalized.lemma(), "العربية");
    assert!(matches!(normalized.lemma, Lemma::Owned(_)));
    assert_eq!(normalized.script, Script::Arabic);
    assert_eq!((normalized.char_start, normalized.char_end), (3, 14));
    assert_eq!((normalized.byte_start, normalized.byte_end), (7, 29));
    assert_eq!(normalized.kind, TokenKind::Unknown);
}

#[test]
fn a_token_of_another_script_is_left_as_it_is() {
    let normalized = normalize(&TatweelNormalizer, token("a\u{0640}b", Script::Latin));
    assert_eq!(normalized.lemma(), "a\u{0640}b");
    assert_eq!(normalized.lemma().as_bytes(), "a\u{0640}b".as_bytes());
    assert!(matches!(normalized.lemma, Lemma::Borrowed(_)));
}

#[test]
fn an_arabic_token_without_tatweel_is_left_as_it_is() {
    let normalized = normalize(&TatweelNormalizer, token("العربية", Script::Arabic));
    assert_eq!(normalized.lemma(), "العربية");
    assert!(matches!(normalized.lemma, Lemma::Borrowed(_)));
}

#[test]
fn should_normalize_asks_for_script_and_tatweel() {
    assert!(TatweelNormalizer.should_normalize(&token("عـ", Script::Arabic)));
    assert!(!TatweelNormalizer.should_normalize(&token("ع", Script::Arabic)));
    assert!(!TatweelNormalizer.should_normalize(&token("عـ", Script::Other)));
    assert!(!TatweelNormalizer.should_normalize(&token("", Script::Arabic)));
}

#[test]
fn normalize_char_drops_only_the_tatweel() {
    assert!(TatweelNormalizer.normalize_char(TATWEEL).is_none());
    assert!(matches!(TatweelNormalizer.normalize_char('ع'), Some(CharOrStr::Char('ع'))));
    assert!(matches!(TatweelNormalizer.normalize_char('a'), Some(CharOrStr::Char('a'))));
}

#[test]
fn contains_char_looks_at_every_character() {
    assert!(contains_char("abc", 'c'));
    assert!(contains_char("abc", 'a'));
    assert!(!contains_char("abc", 'd'));
    assert!(!contains_char("", 'a'));
}

#[test]
fn a_token_of_tatweels_only_becomes_empty() {
    let normalized = normalize(&TatweelNormalizer, token("ـــ", Script::Arabic));
    assert_eq!(normalized.lemma(), "");
}

#[test]
fn the_empty_pipeline_changes_nothing() {
    let pipeline: Pipeline<TatweelNormalizer> = Pipeline::new();
    let normalized = pipeline.apply(token("عـ", Script::Arabic));
    assert_eq!(normalized.lemma(), "عـ");
    assert!(matches!(normalized.lemma, Lemma::Borrowed(_)));
}

#[test]
fn a_pipeline_applies_its_normalizers_in_turn() {
    let mut pipeline = Pipeline::new();
    pipeline.push(TatweelNormalizer);
    pipeline.push(TatweelNormalizer);
    let normalized = pipeline.apply(token("عـرـب", Script::Arabic));
    assert_eq!(normalized.lemma(), "عرب");
    let skipped = pipeline.apply(token("x\u{0640}", Script::Latin));
    assert_eq!(skipped.lemma(), "x\u{0640}");
    assert!(matches!(skipped.lemma, Lemma::Borrowed(_)));
}

#[test]
fn the_pipeline_of_a_token_is_looked_up_by_script_and_language() {
    let mut arabic = Pipeline::new();
    arabic.push(TatweelNormalizer);
    let mut pipelines: Registry<Pipeline<TatweelNormalizer>> = Registry::new(Pipeline::new());
    pipelines.register(Script::Arabic, Language::Ara, arabic);
    assert_eq!(pipeline_for(&pipelines, Script::Arabic, Language::Ara).normalizers.len(), 1);
    assert_eq!(pipeline_for(&pipelines, Script::Arabic, Language::Pes).normalizers.len(), 0);

    let mut known = token("عـ", Script::Arabic);
    known.language = Some(Language::Ara);
    assert_eq!(normalize_token(&pipelines, known).lemma(), "ع");
    let unknown = token("عـ", Script::Arabic);
    assert_eq!(normalize_token(&pipelines, unknown).lemma(), "عـ");

    let mut general = Pipeline::new();
    general.push(TatweelNormalizer);
    pipelines.register(Script::Other, Language::Other, general);
    let unknown = token("عـ", Script::Arabic);
    assert_eq!(normalize_token(&pipelines, unknown).lemma(), "ع");
}

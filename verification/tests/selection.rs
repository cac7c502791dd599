use charabia::detection::{AllowList, Language, LanguageDetector, Script, StrDetection};
use charabia::segmenter::camel_case::CamelCaseSegmenter;
use charabia::segmenter::registry::Registry;
use charabia::segmenter::{segmenter, Segmenter};
use std::sync::atomic::{AtomicUsize, Ordering};

struct Fixed {
    language: Language,
    asked: AtomicUsize,
}

impl Fixed {
    fn new(language: Language) -> Self {
        Fixed { language, asked: AtomicUsize::new(0) }
    }

    fn asked(&self) -> usize {
        self.asked.load(Ordering::SeqCst)
    }
}

impl LanguageDetector for Fixed {
    fn detect_language(
        &self,
        _text: &str,
        _script: Script,
        _allow_list: Option<&AllowList>,
    ) -> Language {
        self.asked.fetch_add(1, Ordering::SeqCst);
        self.language
    }
}

type Boxed = Box<dyn Segmenter>;

fn boxed() -> Boxed {
    Box::new(CamelCaseSegmenter)
}

/// Latin at 0, Chinese at 1, Japanese at 2, then Hebrew, and last the entry
/// of the script of Chinese and Japanese under `Other`, if asked for.
fn cj_registry(with_other: bool) -> Registry<Boxed> {
    let mut registry = Registry::new(boxed());
    registry.register(Script::Latin, Language::Other, boxed());
    registry.register(Script::Cj, Language::Cmn, boxed());
    registry.register(Script::Cj, Language::Jpn, boxed());
    registry.register(Script::Hebrew, Language::Heb, boxed());
    if with_other {
        registry.register(Script::Cj, Language::Other, boxed());
    }
    registry
}

fn is_entry(found: &Boxed, registry: &Registry<Boxed>, place: usize) -> bool {
    std::ptr::eq(found, &registry.entries[place].item)
}

fn is_fallback(found: &Boxed, registry: &Registry<Boxed>) -> bool {
    std::ptr::eq(found, &registry.fallback)
}

fn named_registry(with_other: bool) -> Registry<&'static str> {
    let mut registry = Registry::new("default");
    registry.register(Script::Latin, Language::Other, "latin");
    registry.register(Script::Cj, Language::Cmn, "chinese");
    registry.register(Script::Cj, Language::Jpn, "japanese");
    if with_other {
        registry.register(Script::Cj, Language::Other, "cj");
    }
    registry.register(Script::Hebrew, Language::Heb, "hebrew");
    registry
}

#[test]
fn no_entry_for_the_script_gives_the_default() {
    let registry = cj_registry(false);
    let detector = Fixed::new(Language::Tha);
    let mut detection = StrDetection::new("สวัสดี", None, &detector);
    assert!(is_fallback(segmenter(&registry, &mut detection), &registry));
    assert_eq!(detection.script, Some(Script::Thai));
    assert_eq!(detection.language, None);
    assert_eq!(detector.asked(), 0);
}

#[test]
fn a_single_entry_is_taken_without_language_detection() {
    let registry = cj_registry(false);
    let detector = Fixed::new(Language::Yid);
    let mut detection = StrDetection::new("שלום", None, &detector);
    assert!(is_entry(segmenter(&registry, &mut detection), &registry, 3));
    assert_eq!(detection.script, Some(Script::Hebrew));
    assert_eq!(detection.language, None);
    assert_eq!(detector.asked(), 0);
}

#[test]
fn several_entries_are_told_apart_by_language() {
    let registry = cj_registry(false);
    let japanese = Fixed::new(Language::Jpn);
    let mut detection = StrDetection::new("こんにちは", None, &japanese);
    assert!(is_entry(segmenter(&registry, &mut detection), &registry, 2));
    assert_eq!(detection.language, Some(Language::Jpn));
    assert_eq!(japanese.asked(), 1);

    let chinese = Fixed::new(Language::Cmn);
    let mut detection = StrDetection::new("你好", None, &chinese);
    assert!(is_entry(segmenter(&registry, &mut detection), &registry, 1));
    assert_eq!(detection.language, Some(Language::Cmn));
}

#[test]
fn an_unregistered_language_falls_back_on_the_entry_under_other() {
    let registry = cj_registry(true);
    let detector = Fixed::new(Language::Kor);
    let mut detection = StrDetection::new("你好", None, &detector);
    assert!(is_entry(segmenter(&registry, &mut detection), &registry, 4));
    assert_eq!(detection.language, Some(Language::Kor));
}

#[test]
fn an_unregistered_language_without_entry_under_other_gives_the_default() {
    let registry = cj_registry(false);
    let detector = Fixed::new(Language::Kor);
    let mut detection = StrDetection::new("你好", None, &detector);
    assert!(is_fallback(segmenter(&registry, &mut detection), &registry));
}

#[test]
fn select_goes_through_the_three_tiers() {
    let registry = named_registry(true);
    assert_eq!(registry.select(Script::Cj, Language::Jpn), &"japanese");
    assert_eq!(registry.select(Script::Cj, Language::Vie), &"cj");
    assert_eq!(registry.select(Script::Latin, Language::Fra), &"latin");
    assert_eq!(registry.select(Script::Thai, Language::Tha), &"default");
}

#[test]
fn get_finds_only_the_exact_key() {
    let registry = named_registry(false);
    assert_eq!(registry.get(Script::Cj, Language::Cmn), Some(&"chinese"));
    assert_eq!(registry.get(Script::Cj, Language::Other), None);
    assert_eq!(registry.find(Script::Cj, Language::Jpn), Some(2));
    assert_eq!(registry.find(Script::Thai, Language::Tha), None);
}

#[test]
fn registering_a_key_again_replaces_the_entry() {
    let mut registry = named_registry(false);
    registry.register(Script::Cj, Language::Cmn, "mandarin");
    assert_eq!(registry.entries.len(), 4);
    assert_eq!(registry.get(Script::Cj, Language::Cmn), Some(&"mandarin"));
    assert_eq!(registry.get(Script::Cj, Language::Jpn), Some(&"japanese"));
}

#[test]
fn a_detected_language_is_kept_for_the_pass() {
    let detector = Fixed::new(Language::Deu);
    let mut detection = StrDetection::new("Guten Tag", None, &detector);
    assert_eq!(detection.script(), Script::Latin);
    assert_eq!(detection.language(), Language::Deu);
    assert_eq!(detection.language(), Language::Deu);
    assert_eq!(detector.asked(), 1);
}

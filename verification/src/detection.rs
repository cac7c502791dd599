//! Writing systems and languages, and the classification of characters and
//! texts by writing system.

use std::collections::HashMap;
use vstd::prelude::*;
use vstd::std_specs::iter::IteratorSpec;

verus! {

/// Writing system of a character or of a text.
#[derive(Clone, Copy, Debug, PartialEq, Eq, Hash, Structural)]
pub enum Script {
    Arabic,
    Armenian,
    Bengali,
    Cyrillic,
    Devanagari,
    Ethiopic,
    Georgian,
    Greek,
    Gujarati,
    Gurmukhi,
    Hangul,
    Hebrew,
    Kannada,
    Khmer,
    Latin,
    Malayalam,
    Myanmar,
    Oriya,
    Sinhala,
    Tamil,
    Telugu,
    Thai,
    /// Chinese and Japanese: Han ideographs, Hiragana and Katakana.
    Cj,
    /// Characters of no particular script: digits, punctuation, white space,
    /// combining marks, and every script not listed above.
    Other,
}

/// Language of a text, by its ISO 639-3 code.
#[derive(Clone, Copy, Debug, PartialEq, Eq, Hash, Structural)]
pub enum Language {
    Epo,
    Eng,
    Rus,
    Cmn,
    Spa,
    Por,
    Ita,
    Ben,
    Fra,
    Deu,
    Ukr,
    Kat,
    Ara,
    Hin,
    Jpn,
    Heb,
    Yid,
    Pol,
    Amh,
    Jav,
    Kor,
    Nob,
    Dan,
    Swe,
    Fin,
    Tur,
    Nld,
    Hun,
    Ces,
    Ell,
    Bul,
    Bel,
    Mar,
    Kan,
    Ron,
    Slv,
    Hrv,
    Srp,
    Mkd,
    Lit,
    Lav,
    Est,
    Tam,
    Vie,
    Urd,
    Tha,
    Guj,
    Uzb,
    Pan,
    Aze,
    Ind,
    Tel,
    Pes,
    Mal,
    Ori,
    Mya,
    Nep,
    Sin,
    Khm,
    Tuk,
    Aka,
    Zul,
    Sna,
    Afr,
    Lat,
    Slk,
    Cat,
    Tgl,
    Hye,
    /// Any other language; in a registry, the entry for a whole script.
    Other,
}

/// Whether the code point `p` lies in the closed range from `lo` to `hi`.
pub open spec fn within(p: u32, lo: u32, hi: u32) -> bool {
    lo <= p && p <= hi
}

/// The script of the Unicode block that the code point `p` belongs to.
pub open spec fn script_of_code_point(p: u32) -> Script {
    if within(p, 0x41, 0x5A) || within(p, 0x61, 0x7A) || within(p, 0xC0, 0xD6) || within(
        p,
        0xD8,
        0xF6,
    ) || within(p, 0xF8, 0x24F) || within(p, 0x1E00, 0x1EFF) {
        Script::Latin
    } else if within(p, 0x370, 0x3FF) || within(p, 0x1F00, 0x1FFF) {
        Script::Greek
    } else if within(p, 0x400, 0x52F) || within(p, 0x2DE0, 0x2DFF) || within(p, 0xA640, 0xA69F) {
        Script::Cyrillic
    } else if within(p, 0x530, 0x58F) {
        Script::Armenian
    } else if within(p, 0x590, 0x5FF) {
        Script::Hebrew
    } else if within(p, 0x600, 0x6FF) || within(p, 0x750, 0x77F) || within(p, 0x8A0, 0x8FF)
        || within(p, 0xFB50, 0xFDFF) || within(p, 0xFE70, 0xFEFF) {
        Script::Arabic
    } else if within(p, 0x900, 0x97F) {
        Script::Devanagari
    } else if within(p, 0x980, 0x9FF) {
        Script::Bengali
    } else if within(p, 0xA00, 0xA7F) {
        Script::Gurmukhi
    } else if within(p, 0xA80, 0xAFF) {
        Script::Gujarati
    } else if within(p, 0xB00, 0xB7F) {
        Script::Oriya
    } else if within(p, 0xB80, 0xBFF) {
        Script::Tamil
    } else if within(p, 0xC00, 0xC7F) {
        Script::Telugu
    } else if within(p, 0xC80, 0xCFF) {
        Script::Kannada
    } else if within(p, 0xD00, 0xD7F) {
        Script::Malayalam
    } else if within(p, 0xD80, 0xDFF) {
        Script::Sinhala
    } else if within(p, 0xE00, 0xE7F) {
        Script::Thai
    } else if within(p, 0x1000, 0x109F) {
        Script::Myanmar
    } else if within(p, 0x10A0, 0x10FF) {
        Script::Georgian
    } else if within(p, 0x1100, 0x11FF) || within(p, 0x3130, 0x318F) || within(p, 0xA960, 0xA97F)
        || within(p, 0xAC00, 0xD7FF) {
        Script::Hangul
    } else if within(p, 0x1200, 0x139F) || within(p, 0x2D80, 0x2DDF) {
        Script::Ethiopic
    } else if within(p, 0x1780, 0x17FF) || within(p, 0x19E0, 0x19FF) {
        Script::Khmer
    } else if within(p, 0x2E80, 0x2FDF) || within(p, 0x3040, 0x30FF) || within(p, 0x3400, 0x4DBF)
        || within(p, 0x4E00, 0x9FFF) || within(p, 0xF900, 0xFAFF) {
        Script::Cj
    } else {
        Script::Other
    }
}

/// The script of the character `c`.
pub open spec fn script_of(c: char) -> Script {
    script_of_code_point(c as u32)
}

/// The dominant script of a text: the script of its first character that has
/// one, and `Other` where no character has.
pub open spec fn dominant_script(text: Seq<char>) -> Script
    decreases text.len(),
{
    if text.len() == 0 {
        Script::Other
    } else if script_of(text[0]) != Script::Other {
        script_of(text[0])
    } else {
        dominant_script(text.drop_first())
    }
}

fn in_range(p: u32, lo: u32, hi: u32) -> (r: bool)
    ensures
        r == within(p, lo, hi),
{
    lo <= p && p <= hi
}

impl Script {
    /// Classifies one character by the Unicode block that it lies in.
    pub fn from_char(c: char) -> (script: Script)
        ensures
            script == script_of(c),
    {
        let p: u32 = c as u32;
        if p < 0x370 {
            if in_range(p, 0x41, 0x5A) || in_range(p, 0x61, 0x7A) || in_range(p, 0xC0, 0xD6)
                || in_range(p, 0xD8, 0xF6) || in_range(p, 0xF8, 0x24F) {
                Script::Latin
            } else {
                Script::Other
            }
        } else if p < 0x900 {
            if p <= 0x3FF {
                Script::Greek
            } else if p <= 0x52F {
                Script::Cyrillic
            } else if p <= 0x58F {
                Script::Armenian
            } else if p <= 0x5FF {
                Script::Hebrew
            } else if p <= 0x6FF || in_range(p, 0x750, 0x77F) || p >= 0x8A0 {
                Script::Arabic
            } else {
                Script::Other
            }
        } else if p < 0xE80 {
            if p <= 0x97F {
                Script::Devanagari
            } else if p <= 0x9FF {
                Script::Bengali
            } else if p <= 0xA7F {
                Script::Gurmukhi
            } else if p <= 0xAFF {
                Script::Gujarati
            } else if p <= 0xB7F {
                Script::Oriya
            } else if p <= 0xBFF {
                Script::Tamil
            } else if p <= 0xC7F {
                Script::Telugu
            } else if p <= 0xCFF {
                Script::Kannada
            } else if p <= 0xD7F {
                Script::Malayalam
            } else if p <= 0xDFF {
                Script::Sinhala
            } else if p <= 0xE7F {
                Script::Thai
            } else {
                Script::Other
            }
        } else if p < 0x2000 {
            if in_range(p, 0x1000, 0x109F) {
                Script::Myanmar
            } else if in_range(p, 0x10A0, 0x10FF) {
                Script::Georgian
            } else if in_range(p, 0x1100, 0x11FF) {
                Script::Hangul
            } else if in_range(p, 0x1200, 0x139F) {
                Script::Ethiopic
            } else if in_range(p, 0x1780, 0x17FF) || in_range(p, 0x19E0, 0x19FF) {
                Script::Khmer
            } else if in_range(p, 0x1E00, 0x1EFF) {
                Script::Latin
            } else if p >= 0x1F00 {
                Script::Greek
            } else {
                Script::Other
            }
        } else if in_range(p, 0x2D80, 0x2DDF) {
            Script::Ethiopic
        } else if in_range(p, 0x2DE0, 0x2DFF) || in_range(p, 0xA640, 0xA69F) {
            Script::Cyrillic
        } else if in_range(p, 0x2E80, 0x2FDF) || in_range(p, 0x3040, 0x30FF) || in_range(
            p,
            0x3400,
            0x4DBF,
        ) || in_range(p, 0x4E00, 0x9FFF) || in_range(p, 0xF900, 0xFAFF) {
            Script::Cj
        } else if in_range(p, 0x3130, 0x318F) || in_range(p, 0xA960, 0xA97F) || in_range(
            p,
            0xAC00,
            0xD7FF,
        ) {
            Script::Hangul
        } else if in_range(p, 0xFB50, 0xFDFF) || in_range(p, 0xFE70, 0xFEFF) {
            Script::Arabic
        } else {
            Script::Other
        }
    }
}

/// For each script, the languages that language detection may answer with.
pub type AllowList = HashMap<Script, Vec<Language>>;

/// The dominant script of `text`: the script of its first character that has
/// one. Stops at that character.
pub fn detect_script(text: &str) -> (script: Script)
    ensures
        script == dominant_script(text@),
{
    let mut chars = text.chars();
    loop
        invariant
            chars.obeys_prophetic_iter_laws(),
            chars.decrease() is Some,
            dominant_script(text@) == dominant_script(chars.remaining()),
        decreases chars.decrease()->0,
    {
        match chars.next() {
            Some(c) => {
                let script = Script::from_char(c);
                if script != Script::Other {
                    return script;
                }
            },
            None => {
                return Script::Other;
            },
        }
    }
}

/// Detection of the language of a text. It is the costly step of an
/// analysis, so it is asked only where the script alone does not decide.
pub trait LanguageDetector {
    /// The language of `text`, which is written in `script`. Where an allow
    /// list is given, the answer is meant to be one of the languages that it
    /// holds for that script.
    fn detect_language(
        &self,
        text: &str,
        script: Script,
        allow_list: Option<&AllowList>,
    ) -> Language;
}

/// One detection pass over one text: the script and the language are worked
/// out when first asked for, and kept.
pub struct StrDetection<'o, 'al, 'd, D> {
    pub text: &'o str,
    pub script: Option<Script>,
    pub language: Option<Language>,
    pub allow_list: Option<&'al AllowList>,
    pub detector: &'d D,
}

impl<'o, 'al, 'd, D: LanguageDetector> StrDetection<'o, 'al, 'd, D> {
    /// A script that is kept is the dominant script of the text.
    pub open spec fn wf(&self) -> bool {
        self.script matches Some(script) ==> script == dominant_script(self.text@)
    }

    /// Whether `language` is an answer of the detector of this pass, asked
    /// for the language of the text with its dominant script and the allow
    /// list of the pass.
    pub open spec fn answered(&self, language: Language) -> bool {
        call_ensures(
            D::detect_language,
            (self.detector, self.text, dominant_script(self.text@), self.allow_list),
            language,
        )
    }

    /// A pass over `text` in which nothing is detected yet.
    pub fn new(text: &'o str, allow_list: Option<&'al AllowList>, detector: &'d D) -> (detection:
        Self)
        ensures
            detection.wf(),
            detection.text == text,
            detection.script is None,
            detection.language is None,
            detection.allow_list == allow_list,
            detection.detector == detector,
    {
        StrDetection { text, script: None, language: None, allow_list, detector }
    }

    /// The dominant script of the text, detected on the first call.
    pub fn script(&mut self) -> (script: Script)
        requires
            old(self).wf(),
        ensures
            script == dominant_script(old(self).text@),
            final(self).wf(),
            final(self).script == Some(script),
            final(self).text == old(self).text,
            final(self).language == old(self).language,
            final(self).allow_list == old(self).allow_list,
            final(self).detector == old(self).detector,
    {
        match self.script {
            Some(script) => script,
            None => {
                let script = detect_script(self.text);
                self.script = Some(script);
                script
            },
        }
    }

    /// The language of the text. The first call asks the detector, with the
    /// dominant script and the allow list; later calls repeat its answer.
    pub fn language(&mut self) -> (language: Language)
        requires
            old(self).wf(),
        ensures
            old(self).language matches Some(known) ==> language == known,
            old(self).language is None ==> old(self).answered(language),
            final(self).wf(),
            final(self).language == Some(language),
            final(self).script == Some(dominant_script(old(self).text@)),
            final(self).text == old(self).text,
            final(self).allow_list == old(self).allow_list,
            final(self).detector == old(self).detector,
    {
        let script = self.script();
        match self.language {
            Some(language) => language,
            None => {
                let language = self.detector.detect_language(self.text, script, self.allow_list);
                self.language = Some(language);
                language
            },
        }
    }
}

} // verus!

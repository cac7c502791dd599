//! Normalizers: rewriting of the lemma of a token, character by character,
//! and chains of them.

pub mod tatweel;

use crate::detection::{Language, Script};
use crate::segmenter::registry::{position, Registry};
use crate::token::{Lemma, Token};
use vstd::prelude::*;
use vstd::std_specs::iter::IteratorSpec;
use vstd::string::StringExecFns;

verus! {

/// What a normalizer puts in the place of one character: another character,
/// or a string where no single character will do.
#[derive(Debug)]
pub enum CharOrStr {
    Char(char),
    Str(String),
}

impl View for CharOrStr {
    type V = Seq<char>;

    open spec fn view(&self) -> Seq<char> {
        match self {
            CharOrStr::Char(c) => seq![*c],
            CharOrStr::Str(s) => s@,
        }
    }
}

/// The text that stands for a replacement, where `None` stands for
/// nothing.
pub open spec fn replacement_text(replacement: Option<CharOrStr>) -> Seq<char> {
    match replacement {
        Some(replacement) => replacement@,
        None => Seq::empty(),
    }
}

/// `String::push` of the standard library appends `ch` to the string.
pub assume_specification[ String::push ](s: &mut String, ch: char)
    ensures
        final(s)@ == old(s)@.push(ch),
;

/// A normalizer that works on one character at a time.
pub trait CharNormalizer {
    /// What `c` is replaced with; the empty text where `c` is dropped.
    spec fn replacement(&self, c: char) -> Seq<char>;

    /// Whether the normalizer is to be applied to `token` at all.
    spec fn applies(&self, token: Token) -> bool;

    /// The replacement of `c`, or `None` where `c` is to be dropped.
    fn normalize_char(&self, c: char) -> (replacement: Option<CharOrStr>)
        ensures
            replacement_text(replacement) == self.replacement(c),
    ;

    /// Whether `token` is to be rewritten. A token for which the rewriting
    /// would change nothing need not be.
    fn should_normalize(&self, token: &Token) -> (should: bool)
        ensures
            should == self.applies(*token),
    ;

}

/// The text that `normalizer` rewrites `text` to: the replacements of its
/// characters, in order.
pub open spec fn rewritten<N: CharNormalizer>(normalizer: &N, text: Seq<char>) -> Seq<char>
    decreases text.len(),
{
    if text.len() == 0 {
        Seq::empty()
    } else {
        normalizer.replacement(text[0]) + rewritten(normalizer, text.drop_first())
    }
}

/// The lemma of `token` after `normalizer`: rewritten where the normalizer
/// applies to the token, and as it was where it does not.
pub open spec fn normalized_lemma<N: CharNormalizer>(normalizer: &N, token: Token) -> Seq<char> {
    if normalizer.applies(token) {
        rewritten(normalizer, token.lemma@)
    } else {
        token.lemma@
    }
}

/// Whether `after` is `before` but for its lemma.
pub open spec fn same_but_lemma(before: Token, after: Token) -> bool {
    &&& after.script == before.script
    &&& after.language == before.language
    &&& after.char_start == before.char_start
    &&& after.char_end == before.char_end
    &&& after.byte_start == before.byte_start
    &&& after.byte_end == before.byte_end
    &&& after.kind == before.kind
}

/// Normalizes `token`. Where `should_normalize` refuses, the token comes
/// back as it was; else its lemma is rewritten character by character, and
/// nothing else changes.
pub fn normalize<'o, N: CharNormalizer>(normalizer: &N, token: Token<'o>) -> (normalized: Token<
    'o,
>)
    ensures
        !normalizer.applies(token) ==> normalized == token,
        normalizer.applies(token) ==> normalized.lemma is Owned,
        normalized.lemma@ == normalized_lemma(normalizer, token),
        same_but_lemma(token, normalized),
{
    if !normalizer.should_normalize(&token) {
        return token;
    }
    let mut lemma = String::new();
    let mut chars = token.lemma().chars();
    loop
        invariant
            chars.obeys_prophetic_iter_laws(),
            chars.decrease() is Some,
            normalizer.applies(token),
            rewritten(normalizer, token.lemma@) == lemma@ + rewritten(
                normalizer,
                chars.remaining(),
            ),
        decreases chars.decrease()->0,
    {
        let ghost done = lemma@;
        let ghost left = chars.remaining();
        match chars.next() {
            Some(c) => {
                match normalizer.normalize_char(c) {
                    Some(CharOrStr::Char(replacement)) => {
                        lemma.push(replacement);
                        assert(lemma@ =~= done + normalizer.replacement(c));
                    },
                    Some(CharOrStr::Str(replacement)) => {
                        lemma.append(replacement.as_str());
                    },
                    None => {
                        assert(lemma@ =~= done + normalizer.replacement(c));
                    },
                }
                assert(lemma@ + rewritten(normalizer, chars.remaining()) =~= done + rewritten(
                    normalizer,
                    left,
                ));
            },
            None => {
                assert(lemma@ =~= rewritten(normalizer, token.lemma@));
                return Token {
                    lemma: Lemma::Owned(lemma),
                    script: token.script,
                    language: token.language,
                    char_start: token.char_start,
                    char_end: token.char_end,
                    byte_start: token.byte_start,
                    byte_end: token.byte_end,
                    kind: token.kind,
                };
            },
        }
    }
}

/// Whether `normalizer` turns the token `before` into the token `after`.
pub open spec fn stage<N: CharNormalizer>(normalizer: &N, before: Token, after: Token) -> bool {
    &&& !normalizer.applies(before) ==> after == before
    &&& after.lemma@ == normalized_lemma(normalizer, before)
    &&& same_but_lemma(before, after)
}

/// Whether the normalizers, applied one after the other in their order,
/// each to what the one before it gave, turn `before` into `after`.
pub open spec fn chained<N: CharNormalizer>(normalizers: Seq<N>, before: Token, after: Token) -> bool
    decreases normalizers.len(),
{
    if normalizers.len() == 0 {
        after == before
    } else {
        exists|middle: Token|
            chained(normalizers.drop_last(), before, middle) && #[trigger] stage(
                &normalizers.last(),
                middle,
                after,
            )
    }
}

/// An ordered chain of normalizers.
pub struct Pipeline<N> {
    pub normalizers: Vec<N>,
}

impl<N: CharNormalizer> Pipeline<N> {
    /// The chain without normalizers, which changes no token.
    pub fn new() -> (pipeline: Self)
        ensures
            pipeline.normalizers@.len() == 0,
    {
        Pipeline { normalizers: Vec::new() }
    }

    /// Puts `normalizer` at the end of the chain.
    pub fn push(&mut self, normalizer: N)
        ensures
            final(self).normalizers@ == old(self).normalizers@.push(normalizer),
    {
        self.normalizers.push(normalizer);
    }

    /// Applies the normalizers to `token`, in their order, each one to what
    /// the one before it gave.
    pub fn apply<'o>(&self, token: Token<'o>) -> (normalized: Token<'o>)
        ensures
            chained(self.normalizers@, token, normalized),
            same_but_lemma(token, normalized),
    {
        let mut current = token;
        let mut i: usize = 0;
        while i < self.normalizers.len()
            invariant
                0 <= i <= self.normalizers.len(),
                chained(self.normalizers@.take(i as int), token, current),
                same_but_lemma(token, current),
            decreases self.normalizers.len() - i,
        {
            let ghost middle = current;
            current = normalize(&self.normalizers[i], current);
            proof {
                let upto = self.normalizers@.take(i + 1);
                assert(upto.drop_last() =~= self.normalizers@.take(i as int));
                assert(upto.last() == self.normalizers@[i as int]);
                assert(chained(upto.drop_last(), token, middle) && stage(
                    &upto.last(),
                    middle,
                    current,
                ));
            }
            i += 1;
        }
        proof {
            assert(self.normalizers@.take(i as int) =~= self.normalizers@);
        }
        current
    }
}

/// A token that every normalizer of a chain leaves aside comes out of the
/// chain as it went in, its lemma the same byte for byte.
pub proof fn lemma_skipped_token_unchanged<N: CharNormalizer>(
    normalizers: Seq<N>,
    before: Token,
    after: Token,
)
    requires
        chained(normalizers, before, after),
        forall|i: int| 0 <= i < normalizers.len() ==> !(#[trigger] normalizers[i]).applies(before),
    ensures
        after == before,
    decreases normalizers.len(),
{
    if normalizers.len() > 0 {
        let front = normalizers.drop_last();
        let middle = choose|middle: Token|
            chained(front, before, middle) && #[trigger] stage(&normalizers.last(), middle, after);
        assert forall|i: int| 0 <= i < front.len() implies !(#[trigger] front[i]).applies(
            before,
        ) by {
            assert(front[i] == normalizers[i]);
        }
        lemma_skipped_token_unchanged(front, before, middle);
        assert(!normalizers[normalizers.len() - 1].applies(before));
    }
}

/// The pipeline that a table of pipelines holds for a script and a
/// language: the entry for the two, else the entry for `Script::Other` and
/// `Language::Other`, else the fallback of the table.
pub open spec fn pipeline_of<N>(
    pipelines: Registry<Pipeline<N>>,
    script: Script,
    language: Language,
) -> Pipeline<N> {
    match position(pipelines.entries@, script, language) {
        Some(i) => pipelines.entries@[i].item,
        None => match position(pipelines.entries@, Script::Other, Language::Other) {
            Some(i) => pipelines.entries@[i].item,
            None => pipelines.fallback,
        },
    }
}

/// The language under which the pipeline of a token is looked up: its own,
/// or `Other` where none was detected.
pub open spec fn lookup_language(token: Token) -> Language {
    match token.language {
        Some(language) => language,
        None => Language::Other,
    }
}

/// The pipeline that `pipelines` holds for `script` and `language`.
pub fn pipeline_for<'p, N: CharNormalizer>(
    pipelines: &'p Registry<Pipeline<N>>,
    script: Script,
    language: Language,
) -> (pipeline: &'p Pipeline<N>)
    ensures
        *pipeline == pipeline_of(*pipelines, script, language),
{
    match pipelines.get(script, language) {
        Some(pipeline) => pipeline,
        None => match pipelines.get(Script::Other, Language::Other) {
            Some(pipeline) => pipeline,
            None => &pipelines.fallback,
        },
    }
}

/// Normalizes `token` with the pipeline that `pipelines` holds for its
/// script and language.
pub fn normalize_token<'o, N: CharNormalizer>(
    pipelines: &Registry<Pipeline<N>>,
    token: Token<'o>,
) -> (normalized: Token<'o>)
    ensures
        chained(
            pipeline_of(*pipelines, token.script, lookup_language(token)).normalizers@,
            token,
            normalized,
        ),
        same_but_lemma(token, normalized),
{
    let language = match token.language {
        Some(language) => language,
        None => Language::Other,
    };
    pipeline_for(pipelines, token.script, language).apply(token)
}

} // verus!

//! Segmentation of a text into lexical units: the text is cut into runs of
//! one script, and each run goes to the segmenter that the registry holds
//! for its script and language.

pub mod camel_case;
pub mod registry;
pub mod runs;

use crate::detection::{dominant_script, AllowList, Language, LanguageDetector, Script, StrDetection};
use crate::segmenter::registry::{
    count_script, first_of_script, lemma_count_prefix, lemma_first_of_script, Registry,
};
use crate::segmenter::runs::{leading_run_len, split_first_run};
use crate::text::{
    byte_len, lemma_encode_concat, lemma_utf8_len_at_least_chars, unit_views, utf8_len,
};
use crate::token::{
    all_span_lemma, contiguous, lemma_push_token, lemma_tokens_cover, lemmas, Lemma, Token,
    TokenKind,
};
use vstd::std_specs::convert::FromSpecImpl;
use vstd::prelude::*;

verus! {

/// A segmenter cuts a text of one script into lexical units. It has no
/// state: the units are a function of the text. They are slices of the
/// text, in order, and leave nothing out: joined, they give the text back.
/// The segmentation relies on this and does not check it again.
pub trait Segmenter: Sync + Send {
    /// The units that this segmenter cuts `s` into.
    spec fn units_of(&self, s: Seq<char>) -> Seq<Seq<char>>;

    /// Segments the provided text.
    fn segment_str<'o>(&self, s: &'o str) -> (units: Vec<&'o str>)
        ensures
            unit_views(units@) == self.units_of(s@),
            unit_views(units@).flatten() == s@,
    ;
}

/// A boxed segmenter hands the text to the segmenter in the box, and its
/// units are the units of that one.
impl Segmenter for Box<dyn Segmenter> {
    open spec fn units_of(&self, s: Seq<char>) -> Seq<Seq<char>> {
        (**self).units_of(s)
    }

    fn segment_str<'o>(&self, s: &'o str) -> (units: Vec<&'o str>) {
        (**self).segment_str(s)
    }
}

/// Picks the segmenter for the text of a detection pass. The script is
/// detected first. Where the registry holds no segmenter for it, the default
/// one is picked; where it holds exactly one, that one is picked. Only where
/// it holds several is the language detected: the entry for the language is
/// picked, else the entry of the script under `Language::Other`, else the
/// default segmenter.
pub fn segmenter<'r, 'o, 'al, 'd, S: Segmenter, D: LanguageDetector>(
    registry: &'r Registry<S>,
    detector: &mut StrDetection<'o, 'al, 'd, D>,
) -> (found: &'r S)
    requires
        old(detector).wf(),
    ensures
        final(detector).wf(),
        final(detector).text == old(detector).text,
        final(detector).allow_list == old(detector).allow_list,
        final(detector).detector == old(detector).detector,
        final(detector).script == Some(dominant_script(old(detector).text@)),
        old(detector).language is Some ==> final(detector).language == old(detector).language,
        ({
            let script = dominant_script(old(detector).text@);
            let language = final(detector).language;
            &&& count_script(registry.entries@, script) < 2 ==> language == old(detector).language
            &&& count_script(registry.entries@, script) >= 2 ==> language is Some
            &&& count_script(registry.entries@, script) >= 2 && old(detector).language is None
                ==> old(detector).answered(language->0)
            &&& *found == registry.chosen(script, language)
        }),
{
    let detected_script = detector.script();
    let mut matches: usize = 0;
    let mut first: usize = 0;
    let mut i: usize = 0;
    while i < registry.entries.len() && matches < 2
        invariant
            0 <= i <= registry.entries.len(),
            matches <= 2,
            matches == count_script(registry.entries@.take(i as int), detected_script),
            matches >= 1 ==> first_of_script(registry.entries@.take(i as int), detected_script)
                == Some(first as int),
        decreases registry.entries.len() - i,
    {
        proof {
            assert(registry.entries@.take(i + 1).drop_last() =~= registry.entries@.take(i as int));
            lemma_first_of_script(registry.entries@.take(i as int), detected_script);
        }
        if registry.entries[i].script == detected_script {
            if matches == 0 {
                first = i;
            }
            matches += 1;
        }
        i += 1;
    }
    proof {
        lemma_count_prefix(registry.entries@, detected_script, i as int);
        if matches < 2 {
            assert(registry.entries@.take(i as int) =~= registry.entries@);
            lemma_first_of_script(registry.entries@, detected_script);
        }
    }
    if matches == 0 {
        &registry.fallback
    } else if matches == 1 {
        &registry.entries[first].item
    } else {
        let detected_language = detector.language();
        registry.select(detected_script, detected_language)
    }
}

/// The lexical units of a text, produced one at a time. Nothing is worked
/// out before it is asked for: a run is cut off the text, its script and
/// language are detected and it is segmented only when the units of the run
/// before it have all been handed out.
pub struct SegmentedStrIter<'o, 'al, 'r, S, D> {
    /// The part of the text that no run was cut from yet.
    pub rest: &'o str,
    /// Whether no run was cut yet.
    pub fresh: bool,
    /// The units of the run that was cut last.
    pub current: Vec<&'o str>,
    /// How many units of `current` were handed out.
    pub next_unit: usize,
    pub allow_list: Option<&'al AllowList>,
    pub registry: &'r Registry<S>,
    pub detector: &'r D,
    /// The script of the run that was cut last.
    pub script: Script,
    /// The language of the run that was cut last, where it was detected.
    pub language: Option<Language>,
}

impl<'o, 'al, 'r, S: Segmenter, D: LanguageDetector> SegmentedStrIter<'o, 'al, 'r, S, D> {
    /// The units of the current run that were not handed out yet.
    pub open spec fn pending(&self) -> Seq<Seq<char>> {
        unit_views(self.current@).skip(self.next_unit as int)
    }

    /// The text that was not handed out yet: the pending units and the part
    /// that no run was cut from.
    pub open spec fn unyielded(&self) -> Seq<char> {
        self.pending().flatten() + self.rest@
    }

    /// Whether nothing is left to hand out.
    pub open spec fn exhausted(&self) -> bool {
        self.pending().len() == 0 && self.rest@.len() == 0 && !self.fresh
    }

    /// The count of the units handed out is within the current units, and
    /// what is left to hand out is no longer in bytes than a text can be.
    pub open spec fn wf(&self) -> bool {
        &&& self.next_unit <= self.current@.len()
        &&& utf8_len(self.unyielded()) <= usize::MAX
    }

    /// Whether `after` works on the same registry, detector and allow list.
    pub open spec fn same_setup(&self, after: Self) -> bool {
        &&& after.registry == self.registry
        &&& after.detector == self.detector
        &&& after.allow_list == self.allow_list
    }

    /// Handing out the first pending unit: nothing else changes.
    pub open spec fn drains(&self, after: Self, unit: Option<Seq<char>>) -> bool {
        &&& unit == Some(self.pending()[0])
        &&& after.pending() == self.pending().skip(1)
        &&& after.rest@ == self.rest@
        &&& after.fresh == self.fresh
        &&& after.script == self.script
        &&& after.language == self.language
    }

    /// Whether the language that `after` holds was got for the run `run` as
    /// it should be: it is an answer of the detector, asked with the run,
    /// its script and the allow list.
    pub open spec fn detected_on(&self, after: Self, run: &'o str) -> bool {
        after.language matches Some(language) ==> call_ensures(
            D::detect_language,
            (self.detector, run, after.script, self.allow_list),
            language,
        )
    }

    /// Cutting the next run and handing out its first unit. The run is the
    /// first run of the rest of the text, or the empty text where the text
    /// is empty and no run was cut yet. Its script is its dominant script;
    /// its language is detected exactly where the registry holds several
    /// segmenters for that script. The units that the segmenter chosen for
    /// the two cuts the run into become the current ones.
    pub open spec fn takes_run(&self, after: Self, unit: Option<Seq<char>>) -> bool {
        let n = self.rest@.len() - after.rest@.len();
        let run = self.rest@.subrange(0, n);
        let units = unit_views(after.current@);
        &&& 0 <= n
        &&& self.rest@ == run + after.rest@
        &&& self.rest@.len() > 0 ==> leading_run_len(self.rest@, n)
        &&& !after.fresh
        &&& after.script == dominant_script(run)
        &&& after.language is Some <==> count_script(self.registry.entries@, after.script) >= 2
        &&& exists|slice: &'o str| slice@ == run && #[trigger] self.detected_on(after, slice)
        &&& units == self.registry.chosen(after.script, after.language).units_of(run)
        &&& units.flatten() == run
        &&& match unit {
            Some(first) => units.len() > 0 && first == units[0] && after.next_unit == 1,
            None => units.len() == 0 && after.next_unit == 0,
        }
    }

    /// Whether `after` is nearer to the end than `self`: less of the text
    /// is uncut, or the same and the first run is cut now, or the same and
    /// fewer units are pending.
    pub open spec fn advances(&self, after: Self) -> bool {
        ||| after.rest@.len() < self.rest@.len()
        ||| after.rest@.len() == self.rest@.len() && self.fresh && !after.fresh
        ||| after.rest@.len() == self.rest@.len() && self.fresh == after.fresh
            && after.pending().len() < self.pending().len()
    }

    /// Whether this is the state in which the segmentation of `text`
    /// starts: the whole text is uncut, no run was taken, and no unit is
    /// held.
    pub open spec fn starts_on(&self, text: Seq<char>) -> bool {
        &&& self.rest@ == text
        &&& self.fresh
        &&& self.current@.len() == 0
        &&& self.next_unit == 0
        &&& self.script == Script::Other
        &&& self.language is None
    }

    /// Whether `states` and `units` are a whole segmentation: every unit is
    /// what one call of `next` hands out in the state that the call before
    /// it left, and a last call finds nothing more.
    pub open spec fn traced(states: Seq<Self>, units: Seq<Seq<char>>) -> bool {
        &&& states.len() == units.len() + 2
        &&& forall|i: int|
            0 <= i < units.len() ==> states[i].step(states[i + 1], Some(#[trigger] units[i]))
        &&& states[units.len() as int].step(states[units.len() as int + 1], None)
    }

    /// One call of `next`, from the state `self` to the state `after`.
    /// While units are pending, the first of them is handed out. When none
    /// is pending and the text is used up, nothing is handed out and
    /// nothing changes. Otherwise the next run is cut and segmented, and
    /// its first unit is handed out.
    #[verifier::opaque]
    pub open spec fn step(&self, after: Self, unit: Option<Seq<char>>) -> bool {
        &&& self.same_setup(after)
        &&& if self.pending().len() > 0 {
            self.drains(after, unit)
        } else if self.exhausted() {
            unit is None && after == *self
        } else {
            self.takes_run(after, unit)
        }
    }

    /// The units of `text`, none of them worked out yet.
    pub fn new(
        text: &'o str,
        allow_list: Option<&'al AllowList>,
        registry: &'r Registry<S>,
        detector: &'r D,
    ) -> (iter: Self)
        ensures
            iter.wf(),
            iter.starts_on(text@),
            iter.rest == text,
            iter.unyielded() == text@,
            iter.allow_list == allow_list,
            iter.registry == registry,
            iter.detector == detector,
            iter.script == Script::Other,
            iter.language is None,
    {
        // The length of a text in bytes is a `usize`, so that no offset
        // into it overflows.
        let _total: usize = byte_len(text);
        let iter = SegmentedStrIter {
            rest: text,
            fresh: true,
            current: Vec::new(),
            next_unit: 0,
            allow_list,
            registry,
            detector,
            script: Script::Other,
            language: None,
        };
        proof {
            assert(iter.pending() =~= Seq::<Seq<char>>::empty());
            assert(iter.unyielded() =~= text@);
        }
        iter
    }

    /// The next unit, or `None` when the text is used up.
    pub fn next(&mut self) -> (unit: Option<&'o str>)
        requires
            old(self).wf(),
        ensures
            final(self).wf(),
            old(self).step(
                *final(self),
                match unit {
                    Some(unit) => Some(unit@),
                    None => None,
                },
            ),
            match unit {
                Some(unit) => old(self).unyielded() == unit@ + final(self).unyielded(),
                None => old(self).unyielded().len() == 0 && final(self).exhausted(),
            },
            unit is Some ==> old(self).advances(*final(self)),
    {
        reveal(SegmentedStrIter::step);
        let ghost before = *self;
        if self.next_unit < self.current.len() {
            let unit: &'o str = self.current[self.next_unit];
            self.next_unit += 1;
            proof {
                let pending = before.pending();
                assert(pending[0] == unit@);
                assert(self.pending() =~= pending.skip(1));
                assert(pending.drop_first() =~= pending.skip(1));
                assert(before.unyielded() =~= unit@ + self.unyielded());
                lemma_encode_concat(unit@, self.unyielded());
            }
            return Some(unit);
        }
        proof {
            assert(before.pending() =~= Seq::<Seq<char>>::empty());
            assert(before.unyielded() =~= before.rest@);
        }
        if !self.fresh && self.rest.is_empty() {
            return None;
        }
        let (run, tail) = match split_first_run(self.rest) {
            Some(parts) => parts,
            None => (self.rest, self.rest),
        };
        let mut detection = StrDetection::new(run, self.allow_list, self.detector);
        let found = segmenter(self.registry, &mut detection);
        let units = found.segment_str(run);
        let script = detection.script();
        proof {
            assert(before.rest@ =~= run@ + tail@);
            assert(before.rest@.subrange(0, before.rest@.len() - tail@.len()) =~= run@);
            lemma_encode_concat(run@, tail@);
        }
        let unit = self.begin_run(tail, script, detection.language, units);
        proof {
            assert(before.detected_on(*self, run));
            if unit is None {
                assert(unit_views(units@) =~= Seq::<Seq<char>>::empty());
                assert(run@ =~= Seq::<char>::empty());
            }
        }
        unit
    }

    /// Makes `units` the units of the current run, of the given script and
    /// language, with `rest` the text behind that run, and hands out the
    /// first of them.
    pub fn begin_run(
        &mut self,
        rest: &'o str,
        script: Script,
        language: Option<Language>,
        units: Vec<&'o str>,
    ) -> (unit: Option<&'o str>)
        requires
            utf8_len(unit_views(units@).flatten() + rest@) <= usize::MAX,
        ensures
            final(self).wf(),
            old(self).same_setup(*final(self)),
            final(self).rest == rest,
            !final(self).fresh,
            final(self).script == script,
            final(self).language == language,
            final(self).current == units,
            match unit {
                Some(unit) => {
                    &&& units@.len() > 0
                    &&& unit == units@[0]
                    &&& final(self).next_unit == 1
                    &&& unit_views(units@).flatten() + rest@ == unit@ + final(self).unyielded()
                },
                None => {
                    &&& units@.len() == 0
                    &&& final(self).next_unit == 0
                    &&& final(self).unyielded() == rest@
                },
            },
    {
        self.script = script;
        self.language = language;
        self.rest = rest;
        self.fresh = false;
        self.current = units;
        let ghost views = unit_views(self.current@);
        if self.current.len() > 0 {
            let unit: &'o str = self.current[0];
            self.next_unit = 1;
            proof {
                assert(views[0] == unit@);
                assert(views.drop_first() =~= views.skip(1));
                assert(views.flatten() =~= unit@ + views.skip(1).flatten());
                assert(views.flatten() + rest@ =~= unit@ + self.unyielded());
                lemma_encode_concat(unit@, self.unyielded());
            }
            Some(unit)
        } else {
            self.next_unit = 0;
            proof {
                assert(views =~= Seq::<Seq<char>>::empty());
                assert(self.pending() =~= Seq::<Seq<char>>::empty());
                assert(self.unyielded() =~= rest@);
                assert(views.flatten() + rest@ =~= rest@);
            }
            None
        }
    }

    /// All the units that are left, in order: what `next` hands out, call
    /// after call, until it finds nothing more. Joined, they are the text
    /// that was left.
    pub fn collect(self) -> (units: Vec<&'o str>)
        requires
            self.wf(),
        ensures
            exists|states: Seq<Self>|
                states[0] == self && #[trigger] Self::traced(states, unit_views(units@)),
            unit_views(units@).flatten() == self.unyielded(),
    {
        let mut iter = self;
        let mut units: Vec<&'o str> = Vec::new();
        let ghost mut states: Seq<Self> = seq![self];
        proof {
            assert(unit_views(units@) =~= Seq::<Seq<char>>::empty());
            assert(unit_views(units@).flatten() + iter.unyielded() =~= self.unyielded());
        }
        loop
            invariant
                iter.wf(),
                unit_views(units@).flatten() + iter.unyielded() == self.unyielded(),
                states.len() == units@.len() + 1,
                states[0] == self,
                states[units@.len() as int] == iter,
                forall|i: int|
                    0 <= i < units@.len() ==> states[i].step(
                        states[i + 1],
                        Some(#[trigger] unit_views(units@)[i]),
                    ),
            decreases iter.rest@.len(), if iter.fresh { 1int } else { 0int }, iter.pending().len(),
        {
            let ghost before = iter;
            let ghost had = unit_views(units@);
            let ghost seen = states;
            match iter.next() {
                Some(unit) => {
                    units.push(unit);
                    proof {
                        states = seen.push(iter);
                        let views = unit_views(units@);
                        assert(views =~= had.push(unit@));
                        had.lemma_flatten_push(unit@);
                        assert(views.flatten() + iter.unyielded() =~= had.flatten()
                            + before.unyielded());
                        assert forall|i: int| 0 <= i < views.len() implies states[i].step(
                            states[i + 1],
                            Some(#[trigger] views[i]),
                        ) by {
                            if i < had.len() {
                                assert(views[i] == had[i]);
                                assert(states[i] == seen[i]);
                                assert(states[i + 1] == seen[i + 1]);
                            }
                        }
                    }
                },
                None => {
                    proof {
                        states = seen.push(iter);
                        assert(unit_views(units@).flatten() =~= self.unyielded());
                        assert forall|i: int| 0 <= i < had.len() implies states[i].step(
                            states[i + 1],
                            Some(#[trigger] had[i]),
                        ) by {
                            assert(states[i] == seen[i]);
                            assert(states[i + 1] == seen[i + 1]);
                        }
                        assert(Self::traced(states, unit_views(units@)));
                    }
                    return units;
                },
            }
        }
    }
}

/// The tokens of a text, produced one at a time: the units of a
/// `SegmentedStrIter`, each with the script and language of its run and
/// with its place in the text.
pub struct SegmentedTokenIter<'o, 'al, 'r, S, D> {
    pub inner: SegmentedStrIter<'o, 'al, 'r, S, D>,
    /// How many characters were handed out.
    pub char_index: usize,
    /// How many bytes were handed out.
    pub byte_index: usize,
}

impl<'o, 'al, 'r, S: Segmenter, D: LanguageDetector> SegmentedTokenIter<'o, 'al, 'r, S, D> {
    /// The unit iterator is well formed, and the counters can take what is
    /// left to hand out without overflow.
    pub open spec fn wf(&self) -> bool {
        &&& self.inner.wf()
        &&& self.char_index <= self.byte_index
        &&& self.byte_index + utf8_len(self.inner.unyielded()) <= usize::MAX
    }

    /// Whether `states` and `tokens` are a whole segmentation: every token
    /// is what one call of `next` hands out in the state that the call
    /// before it left, and a last call finds nothing more.
    pub open spec fn traced(states: Seq<Self>, tokens: Seq<Token<'o>>) -> bool {
        &&& states.len() == tokens.len() + 2
        &&& forall|i: int|
            0 <= i < tokens.len() ==> states[i].step(states[i + 1], Some(#[trigger] tokens[i]))
        &&& states[tokens.len() as int].step(states[tokens.len() as int + 1], None)
    }

    /// One call of `next`, from the state `self` to the state `after`. The
    /// token is the next unit, not yet rewritten nor classified, with the
    /// script and language of its run; it starts where the counters stood
    /// and ends where they stand after it.
    #[verifier::opaque]
    pub open spec fn step(&self, after: Self, token: Option<Token<'o>>) -> bool {
        match token {
            Some(token) => {
                &&& self.inner.step(after.inner, Some(token.lemma@))
                &&& token.lemma is Borrowed
                &&& token.script == after.inner.script
                &&& token.language == after.inner.language
                &&& token.kind == TokenKind::Unknown
                &&& token.char_start == self.char_index
                &&& token.byte_start == self.byte_index
                &&& token.char_end == self.char_index + token.lemma@.len()
                &&& token.byte_end == self.byte_index + utf8_len(token.lemma@)
                &&& after.char_index == token.char_end
                &&& after.byte_index == token.byte_end
            },
            None => {
                &&& self.inner.step(after.inner, None)
                &&& after.char_index == self.char_index
                &&& after.byte_index == self.byte_index
            },
        }
    }

    /// The next token, or `None` when the text is used up.
    pub fn next(&mut self) -> (token: Option<Token<'o>>)
        requires
            old(self).wf(),
        ensures
            final(self).wf(),
            old(self).step(*final(self), token),
            match token {
                Some(token) => {
                    let left = final(self).inner.unyielded();
                    old(self).inner.unyielded() == token.lemma@ + left
                },
                None => old(self).inner.unyielded().len() == 0 && final(self).inner.exhausted(),
            },
            token is Some ==> old(self).inner.advances(final(self).inner),
            match token {
                Some(token) => {
                    &&& token.spans_lemma()
                    &&& token.char_start == old(self).char_index
                    &&& token.byte_start == old(self).byte_index
                    &&& token.char_end == final(self).char_index
                    &&& token.byte_end == final(self).byte_index
                },
                None => {
                    &&& final(self).char_index == old(self).char_index
                    &&& final(self).byte_index == old(self).byte_index
                },
            },
    {
        reveal(SegmentedTokenIter::step);
        let lemma = match self.inner.next() {
            Some(lemma) => lemma,
            None => {
                return None;
            },
        };
        proof {
            lemma_encode_concat(lemma@, self.inner.unyielded());
            lemma_utf8_len_at_least_chars(lemma@);
        }
        let char_start = self.char_index;
        let byte_start = self.byte_index;
        self.char_index += lemma.unicode_len();
        self.byte_index += byte_len(lemma);
        Some(
            Token {
                lemma: Lemma::Borrowed(lemma),
                script: self.inner.script,
                language: self.inner.language,
                char_start,
                char_end: self.char_index,
                byte_start,
                byte_end: self.byte_index,
                kind: TokenKind::default(),
            },
        )
    }

    /// All the tokens that are left, in order: what `next` hands out, call
    /// after call, until it finds nothing more. Their lemmas, joined, are
    /// the text that was left; each token spans its lemma; the first one
    /// starts where the counters stood and every other one where the one
    /// before it ends.
    pub fn collect(self) -> (tokens: Vec<Token<'o>>)
        requires
            self.wf(),
        ensures
            exists|states: Seq<Self>|
                states[0] == self && #[trigger] Self::traced(states, tokens@),
            lemmas(tokens@).flatten() == self.inner.unyielded(),
            all_span_lemma(tokens@),
            contiguous(tokens@),
            tokens@.len() > 0 ==> tokens@[0].char_start == self.char_index && tokens@[0].byte_start
                == self.byte_index,
            tokens@.len() > 0 ==> tokens@.last().char_end == self.char_index
                + self.inner.unyielded().len() && tokens@.last().byte_end == self.byte_index
                + utf8_len(self.inner.unyielded()),
    {
        let mut iter = self;
        let mut tokens: Vec<Token<'o>> = Vec::new();
        let ghost mut states: Seq<Self> = seq![self];
        proof {
            assert(lemmas(tokens@) =~= Seq::<Seq<char>>::empty());
            assert(lemmas(tokens@).flatten() + iter.inner.unyielded() =~= self.inner.unyielded());
        }
        loop
            invariant
                iter.wf(),
                lemmas(tokens@).flatten() + iter.inner.unyielded() == self.inner.unyielded(),
                all_span_lemma(tokens@),
                contiguous(tokens@),
                tokens@.len() == 0 ==> iter.char_index == self.char_index && iter.byte_index
                    == self.byte_index,
                tokens@.len() > 0 ==> {
                    &&& tokens@[0].char_start == self.char_index
                    &&& tokens@[0].byte_start == self.byte_index
                    &&& tokens@.last().char_end == iter.char_index
                    &&& tokens@.last().byte_end == iter.byte_index
                },
                states.len() == tokens@.len() + 1,
                states[0] == self,
                states[tokens@.len() as int] == iter,
                forall|i: int|
                    0 <= i < tokens@.len() ==> states[i].step(
                        states[i + 1],
                        Some(#[trigger] tokens@[i]),
                    ),
            decreases
                    iter.inner.rest@.len(),
                    if iter.inner.fresh {
                        1int
                    } else {
                        0int
                    },
                    iter.inner.pending().len(),
        {
            let ghost before = iter;
            let ghost had = tokens@;
            let ghost seen = states;
            match iter.next() {
                Some(token) => {
                    proof {
                        lemma_push_token(had, token);
                        assert(lemmas(had.push(token)).flatten() + iter.inner.unyielded() =~= lemmas(
                            had,
                        ).flatten() + before.inner.unyielded());
                    }
                    tokens.push(token);
                    proof {
                        states = seen.push(iter);
                        assert forall|i: int| 0 <= i < tokens@.len() implies states[i].step(
                            states[i + 1],
                            Some(#[trigger] tokens@[i]),
                        ) by {
                            if i < had.len() {
                                assert(tokens@[i] == had[i]);
                                assert(states[i] == seen[i]);
                                assert(states[i + 1] == seen[i + 1]);
                            }
                        }
                    }
                },
                None => {
                    proof {
                        states = seen.push(iter);
                        assert(lemmas(tokens@).flatten() =~= self.inner.unyielded());
                        assert forall|i: int| 0 <= i < had.len() implies states[i].step(
                            states[i + 1],
                            Some(#[trigger] had[i]),
                        ) by {
                            assert(states[i] == seen[i]);
                            assert(states[i + 1] == seen[i + 1]);
                        }
                        assert(Self::traced(states, tokens@));
                        if tokens@.len() > 0 {
                            lemma_tokens_cover(tokens@);
                        }
                    }
                    return tokens;
                },
            }
        }
    }
}

impl<'o, 'al, 'r, S: Segmenter, D: LanguageDetector> From<
    SegmentedStrIter<'o, 'al, 'r, S, D>,
> for SegmentedTokenIter<'o, 'al, 'r, S, D> {
    /// The tokens of the units that `segmented_str_iter` has left, counted
    /// from zero.
    fn from(segmented_str_iter: SegmentedStrIter<'o, 'al, 'r, S, D>) -> (iter: Self) {
        SegmentedTokenIter { inner: segmented_str_iter, char_index: 0, byte_index: 0 }
    }
}

impl<'o, 'al, 'r, S: Segmenter, D: LanguageDetector> FromSpecImpl<
    SegmentedStrIter<'o, 'al, 'r, S, D>,
> for SegmentedTokenIter<'o, 'al, 'r, S, D> {
    open spec fn obeys_from_spec() -> bool {
        true
    }

    open spec fn from_spec(segmented_str_iter: SegmentedStrIter<'o, 'al, 'r, S, D>) -> Self {
        SegmentedTokenIter { inner: segmented_str_iter, char_index: 0, byte_index: 0 }
    }
}

/// Segmentation of a text, with the registry to choose segmenters from and
/// the detector to ask for languages.
pub trait Segment<'o> {
    /// The text that is segmented.
    spec fn text(&self) -> Seq<char>;

    /// Segments the text into tokens. The tokens are neither normalized nor
    /// classified.
    fn segment<'r, S: Segmenter, D: LanguageDetector>(
        &self,
        registry: &'r Registry<S>,
        detector: &'r D,
    ) -> (iter: SegmentedTokenIter<'o, 'o, 'r, S, D>)
        ensures
            iter.wf(),
            iter.char_index == 0,
            iter.byte_index == 0,
            iter.inner.starts_on(self.text()),
            iter.inner.unyielded() == self.text(),
            iter.inner.allow_list is None,
            iter.inner.registry == registry,
            iter.inner.detector == detector,
    {
        self.segment_with_allowlist(None, registry, detector)
    }

    /// Segments the text into tokens, with a list of the languages that
    /// detection may answer with for each script.
    fn segment_with_allowlist<'al, 'r, S: Segmenter, D: LanguageDetector>(
        &self,
        allow_list: Option<&'al AllowList>,
        registry: &'r Registry<S>,
        detector: &'r D,
    ) -> (iter: SegmentedTokenIter<'o, 'al, 'r, S, D>)
        ensures
            iter.wf(),
            iter.char_index == 0,
            iter.byte_index == 0,
            iter.inner.starts_on(self.text()),
            iter.inner.unyielded() == self.text(),
            iter.inner.allow_list == allow_list,
            iter.inner.registry == registry,
            iter.inner.detector == detector,
    {
        let inner = self.segment_str_with_allowlist(allow_list, registry, detector);
        SegmentedTokenIter { inner, char_index: 0, byte_index: 0 }
    }

    /// Segments the text into lexical units.
    fn segment_str<'r, S: Segmenter, D: LanguageDetector>(
        &self,
        registry: &'r Registry<S>,
        detector: &'r D,
    ) -> (iter: SegmentedStrIter<'o, 'o, 'r, S, D>)
        ensures
            iter.wf(),
            iter.starts_on(self.text()),
            iter.unyielded() == self.text(),
            iter.allow_list is None,
            iter.registry == registry,
            iter.detector == detector,
    {
        self.segment_str_with_allowlist(None, registry, detector)
    }

    /// Segments the text into lexical units, with a list of the languages
    /// that detection may answer with for each script.
    fn segment_str_with_allowlist<'al, 'r, S: Segmenter, D: LanguageDetector>(
        &self,
        allow_list: Option<&'al AllowList>,
        registry: &'r Registry<S>,
        detector: &'r D,
    ) -> (iter: SegmentedStrIter<'o, 'al, 'r, S, D>)
        ensures
            iter.wf(),
            iter.starts_on(self.text()),
            iter.unyielded() == self.text(),
            iter.allow_list == allow_list,
            iter.registry == registry,
            iter.detector == detector,
    ;
}

impl<'o> Segment<'o> for &'o str {
    open spec fn text(&self) -> Seq<char> {
        self@
    }

    fn segment_str_with_allowlist<'al, 'r, S: Segmenter, D: LanguageDetector>(
        &self,
        allow_list: Option<&'al AllowList>,
        registry: &'r Registry<S>,
        detector: &'r D,
    ) -> (iter: SegmentedStrIter<'o, 'al, 'r, S, D>) {
        SegmentedStrIter::new(self, allow_list, registry, detector)
    }
}

/// Two tokens that come one after the other are adjacent in the text: the
/// second starts, in characters and in bytes, where the first ends, and
/// the text that was left before the first is the two lemmas followed by
/// what is left after the second.
pub proof fn lemma_successive_tokens<'o, 'al, 'r, S: Segmenter, D: LanguageDetector>(
    start: SegmentedTokenIter<'o, 'al, 'r, S, D>,
    middle: SegmentedTokenIter<'o, 'al, 'r, S, D>,
    end: SegmentedTokenIter<'o, 'al, 'r, S, D>,
    first: Token<'o>,
    second: Token<'o>,
)
    requires
        start.step(middle, Some(first)),
        middle.step(end, Some(second)),
    ensures
        first.char_end == second.char_start,
        first.byte_end == second.byte_start,
        first.spans_lemma(),
        second.spans_lemma(),
{
    reveal(SegmentedTokenIter::step);
}

/// A call of `next` that finds a unit pending hands out that unit and
/// leaves the rest of the state as it was: the uncut text, the script and
/// the language are those of before.
pub proof fn lemma_pending_unit_is_yielded<'o, 'al, 'r, S: Segmenter, D: LanguageDetector>(
    before: SegmentedStrIter<'o, 'al, 'r, S, D>,
    after: SegmentedStrIter<'o, 'al, 'r, S, D>,
    unit: Option<Seq<char>>,
)
    requires
        before.step(after, unit),
        before.pending().len() > 0,
    ensures
        unit == Some(before.pending()[0]),
        after.rest@ == before.rest@,
        after.script == before.script,
        after.language == before.language,
{
    reveal(SegmentedStrIter::step);
}

/// A call of `next` that finds no unit pending and text left cuts exactly
/// the first run off that text: what lies behind the run is the uncut text
/// of the state after the call, and the script of that state is the
/// dominant script of the run.
pub proof fn lemma_one_run_at_a_time<'o, 'al, 'r, S: Segmenter, D: LanguageDetector>(
    before: SegmentedStrIter<'o, 'al, 'r, S, D>,
    after: SegmentedStrIter<'o, 'al, 'r, S, D>,
    unit: Option<Seq<char>>,
)
    requires
        before.step(after, unit),
        before.pending().len() == 0,
        before.rest@.len() > 0,
    ensures
        leading_run_len(before.rest@, before.rest@.len() - after.rest@.len()),
        after.rest@ == before.rest@.skip(before.rest@.len() - after.rest@.len()),
        after.script == dominant_script(
            before.rest@.subrange(0, before.rest@.len() - after.rest@.len()),
        ),
{
    reveal(SegmentedStrIter::step);
    let n = before.rest@.len() - after.rest@.len();
    let run = before.rest@.subrange(0, n);
    assert(before.rest@ == run + after.rest@);
    assert(after.rest@ =~= before.rest@.skip(n));
}

} // verus!

//! Removal of the tatweel, the stroke that lengthens Arabic words in
//! writing.

use crate::detection::Script;
use crate::normalizer::{rewritten, CharNormalizer, CharOrStr};
use crate::token::Token;
use vstd::prelude::*;
use vstd::std_specs::iter::IteratorSpec;

verus! {

/// The Arabic tatweel, U+0640.
pub const TATWEEL: char = '\u{0640}';

/// Drops every tatweel from the tokens of Arabic script that hold one.
#[derive(Clone, Copy, Debug)]
pub struct TatweelNormalizer;

/// Whether `text` holds the character `c`.
pub fn contains_char(text: &str, c: char) -> (found: bool)
    ensures
        found == text@.contains(c),
{
    let mut chars = text.chars();
    loop
        invariant
            chars.obeys_prophetic_iter_laws(),
            chars.decrease() is Some,
            text@.contains(c) == chars.remaining().contains(c),
        decreases chars.decrease()->0,
    {
        let ghost left = chars.remaining();
        match chars.next() {
            Some(found) => {
                if found == c {
                    assert(left[0] == c);
                    return true;
                }
                assert forall|i: int| 0 <= i < left.len() && left[i] == c implies chars.remaining()[i
                    - 1] == c by {}
                assert(left.contains(c) == chars.remaining().contains(c)) by {
                    if left.contains(c) {
                        let i = choose|i: int| 0 <= i < left.len() && left[i] == c;
                        assert(chars.remaining()[i - 1] == c);
                    }
                    if chars.remaining().contains(c) {
                        let i = choose|i: int|
                            0 <= i < chars.remaining().len() && chars.remaining()[i] == c;
                        assert(left[i + 1] == c);
                    }
                }
            },
            None => {
                return false;
            },
        }
    }
}

impl CharNormalizer for TatweelNormalizer {
    open spec fn replacement(&self, c: char) -> Seq<char> {
        if c == TATWEEL {
            Seq::empty()
        } else {
            seq![c]
        }
    }

    open spec fn applies(&self, token: Token) -> bool {
        token.script == Script::Arabic && token.lemma@.contains(TATWEEL)
    }

    /// `None` for the tatweel, which is dropped; every other character
    /// stands for itself.
    fn normalize_char(&self, c: char) -> (replacement: Option<CharOrStr>)
        ensures
            c == TATWEEL ==> replacement is None,
            c != TATWEEL ==> replacement == Some(CharOrStr::Char(c)),
    {
        if c != TATWEEL {
            Some(CharOrStr::Char(c))
        } else {
            None
        }
    }

    /// Only a token of Arabic script that holds a tatweel is rewritten.
    fn should_normalize(&self, token: &Token) -> (should: bool)
        ensures
            should == (token.script == Script::Arabic && token.lemma@.contains(TATWEEL)),
    {
        token.script == Script::Arabic && contains_char(token.lemma(), TATWEEL)
    }
}

/// What the normalizer rewrites a text to is the text without its
/// tatweels: no tatweel is left, and every other character stays, in
/// order.
pub proof fn lemma_tatweel_removed(text: Seq<char>)
    ensures
        rewritten(&TatweelNormalizer, text) == text.filter(|c: char| c != TATWEEL),
        !rewritten(&TatweelNormalizer, text).contains(TATWEEL),
    decreases text.len(),
{
    let keep = |c: char| c != TATWEEL;
    let out = rewritten(&TatweelNormalizer, text);
    if text.len() == 0 {
        assert(text.filter(keep) =~= Seq::<char>::empty()) by {
            reveal(Seq::filter);
        }
    } else {
        let rest = text.drop_first();
        lemma_tatweel_removed(rest);
        assert(text =~= seq![text[0]] + rest);
        Seq::filter_distributes_over_add(seq![text[0]], rest, keep);
        assert(seq![text[0]].filter(keep) =~= TatweelNormalizer.replacement(text[0])) by {
            reveal_with_fuel(Seq::filter, 2);
            assert(seq![text[0]].drop_last() =~= Seq::<char>::empty());
        }
    }
    assert(!out.contains(TATWEEL)) by {
        if out.contains(TATWEEL) {
            let i = choose|i: int| 0 <= i < out.len() && out[i] == TATWEEL;
            text.lemma_filter_pred(keep, i);
        }
    }
}

/// A text without tatweel is left as it is.
pub proof fn lemma_tatweel_free(text: Seq<char>)
    requires
        !text.contains(TATWEEL),
    ensures
        rewritten(&TatweelNormalizer, text) == text,
    decreases text.len(),
{
    if text.len() > 0 {
        let rest = text.drop_first();
        assert(text[0] != TATWEEL);
        assert forall|i: int| 0 <= i < rest.len() implies rest[i] != TATWEEL by {
            assert(rest[i] == text[i + 1]);
        }
        lemma_tatweel_free(rest);
        assert(rewritten(&TatweelNormalizer, text) =~= text);
    } else {
        assert(rewritten(&TatweelNormalizer, text) =~= text);
    }
}

} // verus!

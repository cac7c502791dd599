//! Tokens: lexical units with their place in the text they were cut from.

use crate::detection::{Language, Script};
use crate::text::utf8_len;
use vstd::prelude::*;

verus! {

/// What a token is, once a later stage has classified it.
#[derive(Clone, Copy, Debug, PartialEq, Eq, Hash, Structural)]
pub enum TokenKind {
    Word,
    StopWord,
    Separator,
    /// Not classified yet.
    Unknown,
}

impl Default for TokenKind {
    fn default() -> (kind: Self)
        ensures
            kind == TokenKind::Unknown,
    {
        TokenKind::Unknown
    }
}

/// The text of a token: a slice of the text that was segmented, or a string
/// of its own once a normalizer has rewritten it.
#[derive(Debug)]
pub enum Lemma<'o> {
    Borrowed(&'o str),
    Owned(String),
}

impl<'o> View for Lemma<'o> {
    type V = Seq<char>;

    open spec fn view(&self) -> Seq<char> {
        match self {
            Lemma::Borrowed(s) => s@,
            Lemma::Owned(s) => s@,
        }
    }
}

impl<'o> Lemma<'o> {
    /// The text as a string slice.
    pub fn as_str(&self) -> (s: &str)
        ensures
            s@ == self@,
    {
        match self {
            Lemma::Borrowed(s) => s,
            Lemma::Owned(s) => s.as_str(),
        }
    }
}

/// One lexical unit. The offsets count from the start of the text that was
/// segmented: `char_start` and `char_end` in characters, `byte_start` and
/// `byte_end` in bytes of its UTF-8 form.
#[derive(Debug)]
pub struct Token<'o> {
    pub lemma: Lemma<'o>,
    pub script: Script,
    pub language: Option<Language>,
    pub char_start: usize,
    pub char_end: usize,
    pub byte_start: usize,
    pub byte_end: usize,
    pub kind: TokenKind,
}

impl<'o> Token<'o> {
    /// The offsets of a token that has not been rewritten span its lemma.
    pub open spec fn spans_lemma(&self) -> bool {
        &&& self.char_end == self.char_start + self.lemma@.len()
        &&& self.byte_end == self.byte_start + utf8_len(self.lemma@)
    }

    /// The text of the token.
    pub fn lemma(&self) -> (s: &str)
        ensures
            s@ == self.lemma@,
    {
        self.lemma.as_str()
    }
}

/// The lemmas of a sequence of tokens, in order.
pub open spec fn lemmas<'o>(tokens: Seq<Token<'o>>) -> Seq<Seq<char>> {
    Seq::new(tokens.len(), |i: int| tokens[i].lemma@)
}

/// Whether the tokens follow one another without gap or overlap: each one
/// starts, in characters and in bytes, where the one before it ends.
pub open spec fn contiguous<'o>(tokens: Seq<Token<'o>>) -> bool {
    forall|i: int, j: int|
        0 <= i && j == i + 1 && j < tokens.len() ==> (#[trigger] tokens[i]).char_end == (
        #[trigger] tokens[j]).char_start && tokens[i].byte_end == tokens[j].byte_start
}

/// Whether the offsets of every token span its lemma.
pub open spec fn all_span_lemma<'o>(tokens: Seq<Token<'o>>) -> bool {
    forall|i: int| 0 <= i < tokens.len() ==> (#[trigger] tokens[i]).spans_lemma()
}

/// A token that starts where the last of a gapless sequence of tokens ends
/// can be put behind them: the sequence stays gapless, and its lemmas,
/// joined, grow by the lemma of the token.
pub proof fn lemma_push_token<'o>(tokens: Seq<Token<'o>>, token: Token<'o>)
    requires
        contiguous(tokens),
        all_span_lemma(tokens),
        token.spans_lemma(),
        tokens.len() > 0 ==> tokens.last().char_end == token.char_start && tokens.last().byte_end
            == token.byte_start,
    ensures
        contiguous(tokens.push(token)),
        all_span_lemma(tokens.push(token)),
        lemmas(tokens.push(token)).flatten() == lemmas(tokens).flatten() + token.lemma@,
{
    let longer = tokens.push(token);
    assert forall|i: int, j: int| 0 <= i && j == i + 1 && j < longer.len() implies (
    #[trigger] longer[i]).char_end == (#[trigger] longer[j]).char_start && longer[i].byte_end
        == longer[j].byte_start by {
        if j < tokens.len() {
            assert(longer[i] == tokens[i]);
            assert(longer[j] == tokens[j]);
        } else {
            assert(longer[i] == tokens.last());
        }
    }
    assert forall|i: int| 0 <= i < longer.len() implies (#[trigger] longer[i]).spans_lemma() by {
        if i < tokens.len() {
            assert(longer[i] == tokens[i]);
        }
    }
    assert(lemmas(longer) =~= lemmas(tokens).push(token.lemma@));
    lemmas(tokens).lemma_flatten_push(token.lemma@);
}

/// Gapless tokens that span their lemmas cover, from the start of the first
/// to the end of the last, exactly their lemmas joined: the last one ends
/// as many characters, and as many bytes, behind the start of the first as
/// the joined lemmas have.
pub proof fn lemma_tokens_cover<'o>(tokens: Seq<Token<'o>>)
    requires
        contiguous(tokens),
        all_span_lemma(tokens),
        tokens.len() > 0,
    ensures
        tokens.last().char_end == tokens[0].char_start + lemmas(tokens).flatten().len(),
        tokens.last().byte_end == tokens[0].byte_start + utf8_len(lemmas(tokens).flatten()),
    decreases tokens.len(),
{
    let last = tokens.last();
    assert(last.spans_lemma());
    if tokens.len() == 1 {
        assert(lemmas(tokens) =~= seq![last.lemma@]);
        seq![last.lemma@].lemma_flatten_one_element();
        assert(seq![last.lemma@].first() =~= last.lemma@);
    } else {
        let front = tokens.drop_last();
        assert forall|i: int, j: int| 0 <= i && j == i + 1 && j < front.len() implies (
        #[trigger] front[i]).char_end == (#[trigger] front[j]).char_start && front[i].byte_end
            == front[j].byte_start by {
            assert(front[i] == tokens[i]);
            assert(front[j] == tokens[j]);
        }
        assert forall|i: int| 0 <= i < front.len() implies (#[trigger] front[i]).spans_lemma() by {
            assert(front[i] == tokens[i]);
        }
        lemma_tokens_cover(front);
        assert(front[0] == tokens[0]);
        assert(front.last() == tokens[tokens.len() - 2]);
        assert(tokens[tokens.len() - 2].char_end == tokens[tokens.len() - 1].char_start);
        assert(lemmas(tokens) =~= lemmas(front).push(last.lemma@));
        lemmas(front).lemma_flatten_push(last.lemma@);
        crate::text::lemma_encode_concat(lemmas(front).flatten(), last.lemma@);
    }
}

} // verus!

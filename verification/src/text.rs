//! Texts as sequences of characters: cutting a text into groups, joining
//! groups back together, and the length of a text in UTF-8.

use vstd::prelude::*;
use vstd::utf8::*;

verus! {

/// The texts of a sequence of string slices, in order.
pub open spec fn unit_views(units: Seq<&str>) -> Seq<Seq<char>> {
    Seq::new(units.len(), |i: int| units[i]@)
}

/// The first `n` characters of `s` cut into groups: a new group starts at
/// position 0 and at every position for which `cut` holds; every other
/// character joins the group of the character before it.
pub open spec fn groups(s: Seq<char>, cut: spec_fn(int) -> bool, n: int) -> Seq<Seq<char>>
    decreases n,
{
    if n <= 0 {
        Seq::empty()
    } else {
        let before = groups(s, cut, n - 1);
        if before.len() == 0 || cut(n - 1) {
            before.push(seq![s[n - 1]])
        } else {
            before.update(before.len() - 1, before.last().push(s[n - 1]))
        }
    }
}

/// Number of bytes that the text takes in UTF-8.
pub open spec fn utf8_len(text: Seq<char>) -> nat {
    encode_utf8(text).len()
}

/// Length of `s` in bytes.
pub fn byte_len(s: &str) -> (n: usize)
    ensures
        n == utf8_len(s@),
{
    s.as_bytes().len()
}

/// Cutting loses nothing: the groups of a prefix are non-empty, there is at
/// least one of them when the prefix is not empty, and joined in order they
/// give the prefix back.
pub proof fn lemma_groups_tile(s: Seq<char>, cut: spec_fn(int) -> bool, n: int)
    requires
        0 <= n <= s.len(),
    ensures
        groups(s, cut, n).flatten() == s.subrange(0, n),
        n > 0 ==> groups(s, cut, n).len() > 0,
        groups(s, cut, n).len() <= n,
        forall|i: int| 0 <= i < groups(s, cut, n).len() ==> #[trigger] groups(s, cut, n)[i].len() > 0,
    decreases n,
{
    let g = groups(s, cut, n);
    if n == 0 {
        assert(g.flatten() =~= s.subrange(0, n));
    } else {
        lemma_groups_tile(s, cut, n - 1);
        let before = groups(s, cut, n - 1);
        let c = seq![s[n - 1]];
        assert(s.subrange(0, n) =~= s.subrange(0, n - 1) + c);
        if before.len() == 0 || cut(n - 1) {
            assert(g =~= before + seq![c]);
            vstd::seq_lib::lemma_flatten_concat(before, seq![c]);
            seq![c].lemma_flatten_one_element();
            assert(seq![c].first() =~= c);
        } else {
            let head = before.drop_last();
            let last = before.last();
            assert(before =~= head + seq![last]);
            assert(last.push(s[n - 1]) =~= last + c);
            assert(g =~= head + seq![last + c]);
            vstd::seq_lib::lemma_flatten_concat(head, seq![last]);
            vstd::seq_lib::lemma_flatten_concat(head, seq![last + c]);
            seq![last].lemma_flatten_one_element();
            seq![last + c].lemma_flatten_one_element();
            assert(seq![last].first() =~= last);
            assert(seq![last + c].first() =~= last + c);
            assert(g.flatten() =~= s.subrange(0, n));
        }
        assert forall|i: int| 0 <= i < g.len() implies #[trigger] g[i].len() > 0 by {
            if i < g.len() - 1 {
                assert(g[i] == before[i]);
            }
        }
    }
}

/// Two ways of cutting that agree on every position inside a text give the
/// same groups.
pub proof fn lemma_groups_same_cuts(
    s: Seq<char>,
    cut: spec_fn(int) -> bool,
    other: spec_fn(int) -> bool,
    n: int,
)
    requires
        0 <= n <= s.len(),
        forall|i: int| 0 < i < n ==> cut(i) == #[trigger] other(i),
    ensures
        groups(s, cut, n) == groups(s, other, n),
    decreases n,
{
    if n > 0 {
        lemma_groups_same_cuts(s, cut, other, n - 1);
        if n > 1 {
            assert(cut(n - 1) == other(n - 1));
        } else {
            assert(groups(s, cut, 0).len() == 0);
        }
    }
}

/// The UTF-8 encoding of a text is the encoding of its first part followed by
/// the encoding of the rest.
pub proof fn lemma_encode_concat(a: Seq<char>, b: Seq<char>)
    ensures
        encode_utf8(a + b) == encode_utf8(a) + encode_utf8(b),
        utf8_len(a + b) == utf8_len(a) + utf8_len(b),
    decreases a.len(),
{
    if a.len() == 0 {
        assert(a + b =~= b);
        assert(encode_utf8(a) + encode_utf8(b) =~= encode_utf8(b));
    } else {
        lemma_encode_concat(a.drop_first(), b);
        assert((a + b).drop_first() =~= a.drop_first() + b);
        assert((a + b)[0] == a[0]);
        assert(encode_utf8(a + b) =~= encode_utf8(a) + encode_utf8(b));
    }
}

/// Every character takes at least one byte in UTF-8.
pub proof fn lemma_utf8_len_at_least_chars(text: Seq<char>)
    ensures
        text.len() <= utf8_len(text),
    decreases text.len(),
{
    if text.len() > 0 {
        lemma_utf8_len_at_least_chars(text.drop_first());
    }
}

/// In the UTF-8 form of a text, the end of the encoding of its first part
/// is a character boundary.
pub proof fn lemma_prefix_is_boundary(a: Seq<char>, b: Seq<char>)
    ensures
        is_char_boundary(encode_utf8(a + b), utf8_len(a) as int),
    decreases a.len(),
{
    let chars = a + b;
    let bytes = encode_utf8(chars);
    encode_utf8_valid_utf8(chars);
    lemma_encode_concat(a, b);
    if a.len() > 0 {
        let rest = a.drop_first();
        encode_utf8_first_scalar(chars);
        assert(chars[0] == a[0]);
        assert(chars.drop_first() =~= rest + b);
        assert(pop_first_scalar(bytes) =~= encode_utf8(rest + b));
        assert(utf8_len(a) == encode_scalar(a[0] as u32).len() + utf8_len(rest));
        lemma_prefix_is_boundary(rest, b);
    }
}

/// The part of `s` that follows `head`, where `s` begins with `head`.
pub fn split_after<'o>(s: &'o str, head: &str) -> (tail: &'o str)
    requires
        head@.len() <= s@.len(),
        s@.subrange(0, head@.len() as int) == head@,
    ensures
        tail@ == s@.subrange(head@.len() as int, s@.len() as int),
        s@ == head@ + tail@,
{
    let ghost rest = s@.subrange(head@.len() as int, s@.len() as int);
    proof {
        assert(s@ =~= head@ + rest);
        lemma_prefix_is_boundary(head@, rest);
        lemma_encode_concat(head@, rest);
    }
    let (_, tail) = s.split_at(byte_len(head));
    proof {
        assert(encode_utf8(tail@) =~= encode_utf8(rest));
        encode_utf8_decode_utf8(tail@);
        encode_utf8_decode_utf8(rest);
    }
    tail
}

} // verus!

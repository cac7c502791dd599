//! Splitting of a word at its case transitions: `camelCase` gives `camel`
//! and `Case`.

use crate::segmenter::Segmenter;
use crate::text::{
    byte_len, groups, lemma_groups_same_cuts, lemma_groups_tile, lemma_utf8_len_at_least_chars,
    unit_views,
};
use vstd::std_specs::iter::IteratorSpec;
use finl_unicode::categories::CharacterCategories;
use slice_group_by::StrGroupBy;
use vstd::prelude::*;

verus! {

/// Whether `c` is a lowercase letter (general category Ll), as
/// `finl_unicode` classifies it.
pub uninterp spec fn letter_lowercase(c: char) -> bool;

/// Whether `c` is an uppercase letter (general category Lu), as
/// `finl_unicode` classifies it.
pub uninterp spec fn letter_uppercase(c: char) -> bool;

/// Whether `c` is a non-spacing mark (general category Mn), as
/// `finl_unicode` classifies it.
pub uninterp spec fn mark_nonspacing(c: char) -> bool;

/// `CharacterCategories::is_letter_lowercase` of `finl_unicode`: a table
/// lookup that depends on the character alone. Its result is only named.
#[verifier::external_body]
fn is_letter_lowercase(c: char) -> (r: bool)
    ensures
        r == letter_lowercase(c),
{
    c.is_letter_lowercase()
}

/// `CharacterCategories::is_letter_uppercase` of `finl_unicode`: a table
/// lookup that depends on the character alone. Its result is only named.
#[verifier::external_body]
fn is_letter_uppercase(c: char) -> (r: bool)
    ensures
        r == letter_uppercase(c),
{
    c.is_letter_uppercase()
}

/// `CharacterCategories::is_mark_nonspacing` of `finl_unicode`: a table
/// lookup that depends on the character alone. Its result is only named.
#[verifier::external_body]
fn is_mark_nonspacing(c: char) -> (r: bool)
    ensures
        r == mark_nonspacing(c),
{
    c.is_mark_nonspacing()
}

/// Whether the nearest character of `s` before position `i` that is no
/// non-spacing mark is a lowercase letter. Where only marks stand before
/// `i`, or nothing, it is not.
pub open spec fn follows_lowercase(s: Seq<char>, i: int) -> bool
    decreases i,
{
    if i <= 0 {
        false
    } else if mark_nonspacing(s[i - 1]) {
        follows_lowercase(s, i - 1)
    } else {
        letter_lowercase(s[i - 1])
    }
}

/// Whether a unit of `s` starts at position `i`: an uppercase letter stands
/// there, and the nearest character before it that is no non-spacing mark
/// is a lowercase letter.
pub open spec fn camel_boundary(s: Seq<char>, i: int) -> bool {
    &&& 0 < i < s.len()
    &&& letter_uppercase(s[i])
    &&& !mark_nonspacing(s[i])
    &&& follows_lowercase(s, i)
}

/// The positions of `s` at which a unit starts, as a predicate.
pub open spec fn camel_cuts(s: Seq<char>) -> spec_fn(int) -> bool {
    |i: int| camel_boundary(s, i)
}

/// The units that a text is split into: the text cut at its case
/// transitions, and one empty unit for the empty text.
pub open spec fn camel_units(s: Seq<char>) -> Seq<Seq<char>> {
    if s.len() == 0 {
        seq![Seq::<char>::empty()]
    } else {
        groups(s, camel_cuts(s), s.len() as int)
    }
}

/// Whether a scan that has `seen_lower` as its state opens a unit at the
/// character `c`.
pub open spec fn opens_unit(seen_lower: bool, c: char) -> bool {
    seen_lower && letter_uppercase(c) && !mark_nonspacing(c)
}

/// The state of a scan after the character `c`: a non-spacing mark leaves it
/// as it was; any other character, one that opens a unit too, sets it to
/// whether that character is a lowercase letter.
pub open spec fn seen_lower_after(seen_lower: bool, c: char) -> bool {
    if mark_nonspacing(c) {
        seen_lower
    } else {
        letter_lowercase(c)
    }
}

/// The state in which a scan of `s` reaches position `i`, for `i` at least
/// 1, where it reached position 1 in the state `start`.
pub open spec fn seen_lower_at(start: bool, s: Seq<char>, i: int) -> bool
    decreases i,
{
    if i <= 1 {
        start
    } else {
        seen_lower_after(seen_lower_at(start, s, i - 1), s[i - 1])
    }
}

/// The positions at which a scan of `s` opens a unit, where it reached
/// position 1 in the state `start`.
pub open spec fn scan_cuts(start: bool, s: Seq<char>) -> spec_fn(int) -> bool {
    |i: int| 0 < i < s.len() && opens_unit(seen_lower_at(start, s, i), s[i])
}

/// The state in which the scan starts behind the first character `c` of a
/// text.
pub open spec fn seen_lower_behind(c: char) -> bool {
    seen_lower_after(false, c)
}

/// One step of the scan, over the character `c` that follows another: says
/// whether `c` stays in the unit of the character before it, and moves the
/// state on.
pub fn scan_char(seen_lower: &mut bool, c: char) -> (together: bool)
    ensures
        together == !opens_unit(*old(seen_lower), c),
        *final(seen_lower) == seen_lower_after(*old(seen_lower), c),
{
    if is_mark_nonspacing(c) {
        return true;
    }
    let together = !(*seen_lower && is_letter_uppercase(c));
    *seen_lower = is_letter_lowercase(c);
    together
}

/// `StrGroupBy::linear_group_by` of `slice_group_by`, with the scan as its
/// predicate, collected. The iterator of that crate hands every pair of
/// adjacent characters to the predicate once, from left to right, and ends a
/// group before the second character of each pair that the predicate
/// refuses; for the empty text it yields nothing. The predicate looks at
/// the second character of the pair only; `start` is the state in which it
/// meets the first pair.
#[verifier::external_body]
fn group_by_case<'o>(s: &'o str, start: bool) -> (units: Vec<&'o str>)
    ensures
        unit_views(units@) == groups(s@, scan_cuts(start, s@), s@.len() as int),
{
    let mut seen_lower = start;
    s.linear_group_by(move |_, c| scan_char(&mut seen_lower, c)).collect()
}

/// Splits `s` before every uppercase letter that follows a lowercase letter,
/// non-spacing marks in between left aside. A text of less than two bytes
/// is returned as its only unit.
pub fn split_camel_case_bounds<'o>(s: &'o str) -> (units: Vec<&'o str>)
    ensures
        unit_views(units@) == camel_units(s@),
        units@.len() > 0,
        unit_views(units@).flatten() == s@,
{
    proof {
        lemma_utf8_len_at_least_chars(s@);
        lemma_camel_units_tile(s@);
    }
    if byte_len(s) < 2 {
        let mut units: Vec<&'o str> = Vec::new();
        units.push(s);
        proof {
            if s@.len() == 1 {
                assert(s@ =~= seq![s@[0]]);
                assert(groups(s@, camel_cuts(s@), 0).len() == 0);
            } else {
                assert(s@ =~= Seq::<char>::empty());
            }
            assert(unit_views(units@) =~= camel_units(s@));
        }
        return units;
    }
    assert(s@.len() > 0) by {
        reveal_with_fuel(vstd::utf8::encode_utf8, 1);
    }
    let mut seen_lower = false;
    let mut chars = s.chars();
    match chars.next() {
        Some(first) => {
            scan_char(&mut seen_lower, first);
        },
        None => {},
    }
    proof {
        assert(seen_lower == seen_lower_behind(s@[0]));
        lemma_scan_follows_rule(s@, s@.len() as int);
        lemma_groups_same_cuts(s@, scan_cuts(seen_lower, s@), camel_cuts(s@), s@.len() as int);
    }
    group_by_case(s, seen_lower)
}

/// The scan keeps to the rule: started behind the first character of `s`,
/// it reaches every position in the state that says whether the nearest
/// character before it that is no mark is a lowercase letter, and so opens
/// a unit exactly where the rule has one start.
pub proof fn lemma_scan_follows_rule(s: Seq<char>, n: int)
    requires
        0 < n <= s.len(),
    ensures
        forall|i: int|
            0 < i <= n ==> #[trigger] seen_lower_at(seen_lower_behind(s[0]), s, i)
                == follows_lowercase(s, i),
        forall|i: int|
            0 < i < n ==> scan_cuts(seen_lower_behind(s[0]), s)(i) == #[trigger] camel_cuts(s)(i),
    decreases n,
{
    let start = seen_lower_behind(s[0]);
    if n > 1 {
        lemma_scan_follows_rule(s, n - 1);
        assert(seen_lower_at(start, s, n - 1) == follows_lowercase(s, n - 1));
    } else {
        assert(follows_lowercase(s, 0) == false);
    }
    assert(seen_lower_at(start, s, n) == follows_lowercase(s, n));
}

/// The units of a text are non-empty unless the text is, there is at least
/// one, and joined in order they give the text back.
pub proof fn lemma_camel_units_tile(s: Seq<char>)
    ensures
        camel_units(s).flatten() == s,
        camel_units(s).len() > 0,
        s.len() > 0 ==> forall|i: int|
            0 <= i < camel_units(s).len() ==> #[trigger] camel_units(s)[i].len() > 0,
{
    if s.len() == 0 {
        let e = Seq::<char>::empty();
        seq![e].lemma_flatten_one_element();
        assert(seq![e].first() =~= e);
        assert(camel_units(s).flatten() =~= s);
    } else {
        lemma_groups_tile(s, camel_cuts(s), s.len() as int);
        assert(s.subrange(0, s.len() as int) =~= s);
    }
}

/// A unit starts right behind a lowercase letter wherever an uppercase
/// letter follows it.
pub proof fn lemma_boundary_behind_lowercase(s: Seq<char>, i: int)
    requires
        0 < i < s.len(),
        letter_lowercase(s[i - 1]),
        !mark_nonspacing(s[i - 1]),
        letter_uppercase(s[i]),
        !mark_nonspacing(s[i]),
    ensures
        camel_boundary(s, i),
{
}

/// Non-spacing marks are transparent: behind a mark a unit starts exactly
/// where it would start if the mark were not there, and none starts at a
/// mark.
pub proof fn lemma_marks_are_transparent(s: Seq<char>, i: int)
    requires
        0 < i < s.len(),
        mark_nonspacing(s[i - 1]),
    ensures
        follows_lowercase(s, i) == follows_lowercase(s, i - 1),
        !camel_boundary(s, i - 1),
{
}

/// No unit starts behind a character that is neither a lowercase letter nor
/// a non-spacing mark: an uppercase letter behind an uppercase letter, a
/// digit or a space stays in their unit.
pub proof fn lemma_no_boundary_behind_other(s: Seq<char>, i: int)
    requires
        0 < i < s.len(),
        !letter_lowercase(s[i - 1]),
        !mark_nonspacing(s[i - 1]),
    ensures
        !camel_boundary(s, i),
{
}

/// The segmenter that splits words at their case transitions.
#[derive(Clone, Copy, Debug)]
pub struct CamelCaseSegmenter;

impl Segmenter for CamelCaseSegmenter {
    open spec fn units_of(&self, s: Seq<char>) -> Seq<Seq<char>> {
        camel_units(s)
    }

    fn segment_str<'o>(&self, s: &'o str) -> (units: Vec<&'o str>) {
        split_camel_case_bounds(s)
    }
}

} // verus!

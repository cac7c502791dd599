//! Runs: the stretches of a text that one script governs.

use crate::detection::{dominant_script, script_of, Script};
use crate::text::split_after;
use slice_group_by::StrGroupBy;
use vstd::prelude::*;

verus! {

/// The script that governs after the character `c`, where `before` governed
/// in front of it: the script of `c`, unless `c` has none.
pub open spec fn governing_after(before: Script, c: char) -> Script {
    if script_of(c) != Script::Other {
        script_of(c)
    } else {
        before
    }
}

/// Moving over one character twice is moving over it once. The scan for
/// runs relies on this: the key of a character is asked for twice, as the
/// second of one pair and as the first of the next.
pub proof fn lemma_governing_after_twice(before: Script, c: char)
    ensures
        governing_after(governing_after(before, c), c) == governing_after(before, c),
{
}

/// The script that governs position `i` of `s` in a scan that `start`
/// governed before it met the text.
pub open spec fn governing_from(start: Script, s: Seq<char>, i: int) -> Script
    decreases i + 1,
{
    if i < 0 {
        start
    } else {
        governing_after(governing_from(start, s, i - 1), s[i])
    }
}

/// The script that governs position `i` of `s`: the script of the nearest
/// character at or before `i` that has one, and `Other` where there is none.
pub open spec fn governing(s: Seq<char>, i: int) -> Script {
    governing_from(Script::Other, s, i)
}

/// Whether the first group of a scan of `s` that `start` governed before
/// is `n` characters long: the governing script stays the same over the
/// first `n` characters and changes right after them, unless the text ends
/// there.
pub open spec fn leading_group_len(start: Script, s: Seq<char>, n: int) -> bool {
    &&& 0 < n <= s.len()
    &&& forall|i: int|
        0 < i < n ==> #[trigger] governing_from(start, s, i) == governing_from(start, s, i - 1)
    &&& (n == s.len() || governing_from(start, s, n) != governing_from(start, s, n - 1))
}

/// Whether a run of `s` starts at position `i`: the governing script
/// changes there.
pub open spec fn run_boundary(s: Seq<char>, i: int) -> bool {
    0 < i < s.len() && governing(s, i) != governing(s, i - 1)
}

/// Whether the first run of `s` is `n` characters long: no run starts
/// inside the first `n` characters, and one starts right after them unless
/// the text ends there.
pub open spec fn leading_run_len(s: Seq<char>, n: int) -> bool {
    &&& 0 < n <= s.len()
    &&& forall|i: int| 0 < i < n ==> !run_boundary(s, i)
    &&& (n == s.len() || run_boundary(s, n))
}

/// One step of the scan for runs: moves the governing script over the
/// character `c` and returns it.
pub fn advance_script(current: &mut Script, c: char) -> (script: Script)
    ensures
        script == governing_after(*old(current), c),
        *final(current) == script,
{
    let own = Script::from_char(c);
    if own != Script::Other && own != *current {
        *current = own;
    }
    *current
}

/// `StrGroupBy::linear_group_by_key` of `slice_group_by`, with the governing
/// script as the key, asked for its first group. The iterator of that crate
/// compares the keys of every two adjacent characters from left to right and
/// ends the group before the first character whose key differs from that of
/// the character before it; for the empty text it yields nothing. `start`
/// is the script that governs when the first key is asked for.
#[verifier::external_body]
fn leading_run<'o>(text: &'o str, start: Script) -> (run: Option<&'o str>)
    ensures
        match run {
            Some(run) => leading_group_len(start, text@, run@.len() as int) && run@
                == text@.subrange(0, run@.len() as int),
            None => text@.len() == 0,
        },
{
    let mut current = start;
    text.linear_group_by_key(move |c| advance_script(&mut current, c)).next()
}

/// Parts `text` into its first run, the longest beginning that one script
/// governs, and what follows it. The empty text has no run.
pub fn split_first_run<'o>(text: &'o str) -> (parts: Option<(&'o str, &'o str)>)
    ensures
        match parts {
            Some((run, rest)) => {
                &&& leading_run_len(text@, run@.len() as int)
                &&& text@ == run@ + rest@
            },
            None => text@.len() == 0,
        },
{
    match leading_run(text, Script::Other) {
        Some(run) => {
            proof {
                let n = run@.len() as int;
                assert forall|i: int| 0 < i < n implies !run_boundary(text@, i) by {
                    assert(governing_from(Script::Other, text@, i) == governing_from(
                        Script::Other,
                        text@,
                        i - 1,
                    ));
                }
            }
            let rest = split_after(text, run);
            Some((run, rest))
        },
        None => None,
    }
}

/// Inside the first run every position is governed by the script that
/// governs its first character.
pub proof fn lemma_run_is_uniform(s: Seq<char>, n: int, i: int)
    requires
        leading_run_len(s, n),
        0 <= i < n,
    ensures
        governing(s, i) == governing(s, 0),
        script_of(s[i]) == Script::Other || script_of(s[i]) == governing(s, 0),
    decreases i,
{
    if i > 0 {
        lemma_run_is_uniform(s, n, i - 1);
        assert(!run_boundary(s, i));
    } else {
        assert(governing(s, -1) == Script::Other);
    }
}

/// The dominant script of a text whose characters, up to `n`, have either no
/// script or the script `script`.
proof fn lemma_dominant_of_uniform(s: Seq<char>, script: Script)
    requires
        forall|i: int|
            0 <= i < s.len() ==> script_of(#[trigger] s[i]) == Script::Other || script_of(s[i])
                == script,
    ensures
        dominant_script(s) == Script::Other || dominant_script(s) == script,
        dominant_script(s) == Script::Other ==> forall|i: int|
            0 <= i < s.len() ==> script_of(#[trigger] s[i]) == Script::Other,
    decreases s.len(),
{
    if s.len() > 0 {
        let rest = s.drop_first();
        assert(forall|i: int| 0 <= i < rest.len() ==> rest[i] == s[i + 1]);
        lemma_dominant_of_uniform(rest, script);
        if script_of(s[0]) == Script::Other && dominant_script(s) == Script::Other {
            assert forall|i: int| 0 <= i < s.len() implies script_of(#[trigger] s[i])
                == Script::Other by {
                if i > 0 {
                    assert(rest[i - 1] == s[i]);
                }
            }
        }
    }
}

/// The script that governs the first run is its dominant script: a run is
/// homogeneous under the rule by which characters without a script inherit
/// the script of what stands before them.
pub proof fn lemma_run_script(s: Seq<char>, n: int)
    requires
        leading_run_len(s, n),
    ensures
        dominant_script(s.subrange(0, n)) == governing(s, 0),
        forall|i: int| 0 <= i < n ==> governing(s, i) == dominant_script(s.subrange(0, n)),
{
    let run = s.subrange(0, n);
    let script = governing(s, 0);
    assert forall|i: int| 0 <= i < run.len() implies script_of(#[trigger] run[i]) == Script::Other
        || script_of(run[i]) == script by {
        lemma_run_is_uniform(s, n, i);
    }
    lemma_dominant_of_uniform(run, script);
    assert(governing(s, -1) == Script::Other);
    if script != Script::Other {
        assert(run[0] == s[0]);
        assert(script_of(s[0]) == script);
    }
    assert forall|i: int| 0 <= i < n implies governing(s, i) == dominant_script(run) by {
        lemma_run_is_uniform(s, n, i);
    }
}

/// A character without a script never starts a run.
pub proof fn lemma_neutral_starts_no_run(s: Seq<char>, i: int)
    requires
        0 <= i < s.len(),
        script_of(s[i]) == Script::Other,
    ensures
        !run_boundary(s, i),
{
}

/// The scan for runs can start afresh at the start of any run. In the part
/// of a text that begins where a run starts, every position is governed by
/// the script that governs it in the whole text, and the runs start at the
/// same places.
pub proof fn lemma_scan_restarts(s: Seq<char>, n: int, i: int)
    requires
        run_boundary(s, n),
        0 <= i < s.len() - n,
    ensures
        governing(s.skip(n), i) == governing(s, n + i),
        i > 0 ==> run_boundary(s.skip(n), i) == run_boundary(s, n + i),
    decreases i,
{
    let tail = s.skip(n);
    assert(tail[i] == s[n + i]);
    if i == 0 {
        assert(governing(tail, -1) == Script::Other);
    } else {
        lemma_scan_restarts(s, n, i - 1);
    }
}

/// Cutting a text run by run gives the runs of the whole text: the first
/// run of what is left behind the first run is the next run of the text.
pub proof fn lemma_next_run(s: Seq<char>, n: int, m: int)
    requires
        leading_run_len(s, n),
        n < s.len(),
        leading_run_len(s.skip(n), m),
    ensures
        forall|i: int| n < i < n + m ==> !run_boundary(s, i),
        n + m == s.len() || run_boundary(s, n + m),
{
    let tail = s.skip(n);
    assert forall|i: int| n < i < n + m implies !run_boundary(s, i) by {
        lemma_scan_restarts(s, n, i - n);
        assert(!run_boundary(tail, i - n));
    }
    if n + m < s.len() {
        lemma_scan_restarts(s, n, m);
    }
}

} // verus!

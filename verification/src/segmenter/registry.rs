//! A table keyed by script and language, such as the segmenters that an
//! analysis may use, and the choice among its entries.

use crate::detection::{Language, Script};
use vstd::prelude::*;

verus! {

/// An item, such as a segmenter, registered for a script and a language.
/// Registered for the language `Other`, it serves every language of the
/// script that has no entry of its own.
pub struct Entry<S> {
    pub script: Script,
    pub language: Language,
    pub item: S,
}

/// The registered items, and the one to fall back on when none is
/// registered for a script.
pub struct Registry<S> {
    pub entries: Vec<Entry<S>>,
    pub fallback: S,
}

/// Whether the entry is registered for `script` and `language`.
pub open spec fn has_key<S>(entry: Entry<S>, script: Script, language: Language) -> bool {
    entry.script == script && entry.language == language
}

/// No entry is registered for `script` and `language`.
pub open spec fn absent<S>(entries: Seq<Entry<S>>, script: Script, language: Language) -> bool {
    forall|i: int| 0 <= i < entries.len() ==> !has_key(#[trigger] entries[i], script, language)
}

/// No two entries are registered for the same script and language.
pub open spec fn distinct_keys<S>(entries: Seq<Entry<S>>) -> bool {
    forall|i: int, j: int|
        0 <= i < j < entries.len() ==> !has_key(
            #[trigger] entries[i],
            (#[trigger] entries[j]).script,
            entries[j].language,
        )
}

/// How many entries are registered for `script`, under any language.
pub open spec fn count_script<S>(entries: Seq<Entry<S>>, script: Script) -> nat
    decreases entries.len(),
{
    if entries.len() == 0 {
        0
    } else {
        count_script(entries.drop_last(), script) + if entries.last().script == script {
            1nat
        } else {
            0nat
        }
    }
}

/// The place of the first entry registered for `script`, if there is one.
pub open spec fn first_of_script<S>(entries: Seq<Entry<S>>, script: Script) -> Option<int>
    decreases entries.len(),
{
    if entries.len() == 0 {
        None
    } else {
        match first_of_script(entries.drop_last(), script) {
            Some(i) => Some(i),
            None => if entries.last().script == script {
                Some(entries.len() - 1)
            } else {
                None
            },
        }
    }
}

/// The place of the first entry registered for `script` and `language`, if
/// there is one.
pub open spec fn position<S>(entries: Seq<Entry<S>>, script: Script, language: Language) -> Option<
    int,
>
    decreases entries.len(),
{
    if entries.len() == 0 {
        None
    } else {
        match position(entries.drop_last(), script, language) {
            Some(i) => Some(i),
            None => if has_key(entries.last(), script, language) {
                Some(entries.len() - 1)
            } else {
                None
            },
        }
    }
}

/// The item for a script of which the language is known: the entry for that
/// script and language, else the entry for the script and `Other`, else
/// `fallback`.
pub open spec fn by_language<S>(
    entries: Seq<Entry<S>>,
    fallback: S,
    script: Script,
    language: Language,
) -> S {
    match position(entries, script, language) {
        Some(i) => entries[i].item,
        None => match position(entries, script, Language::Other) {
            Some(i) => entries[i].item,
            None => fallback,
        },
    }
}

/// The item for a text of dominant script `script`. Where no entry is
/// registered for the script it is `fallback`; where exactly one is, it is
/// that one, whatever its language; where several are, the language decides,
/// and without a language it is `fallback`.
pub open spec fn chosen<S>(
    entries: Seq<Entry<S>>,
    fallback: S,
    script: Script,
    language: Option<Language>,
) -> S {
    if count_script(entries, script) == 0 {
        fallback
    } else if count_script(entries, script) == 1 {
        entries[first_of_script(entries, script).unwrap()].item
    } else {
        match language {
            Some(language) => by_language(entries, fallback, script, language),
            None => fallback,
        }
    }
}

/// What `position` finds: an entry with the key, and the first of them; it
/// finds nothing only where no entry has the key.
pub proof fn lemma_position<S>(entries: Seq<Entry<S>>, script: Script, language: Language)
    ensures
        match position(entries, script, language) {
            Some(i) => 0 <= i < entries.len() && has_key(entries[i], script, language) && forall|
                j: int,
            |
                0 <= j < i ==> !has_key(#[trigger] entries[j], script, language),
            None => forall|j: int|
                0 <= j < entries.len() ==> !has_key(#[trigger] entries[j], script, language),
        },
    decreases entries.len(),
{
    if entries.len() > 0 {
        let front = entries.drop_last();
        lemma_position(front, script, language);
        assert(forall|j: int| 0 <= j < front.len() ==> front[j] == entries[j]);
    }
}

/// What `first_of_script` finds, and how it goes with the count: the count
/// is zero exactly where nothing is found.
pub proof fn lemma_first_of_script<S>(entries: Seq<Entry<S>>, script: Script)
    ensures
        match first_of_script(entries, script) {
            Some(i) => 0 <= i < entries.len() && entries[i].script == script && count_script(
                entries,
                script,
            ) >= 1 && forall|j: int| 0 <= j < i ==> (#[trigger] entries[j]).script != script,
            None => count_script(entries, script) == 0 && forall|j: int|
                0 <= j < entries.len() ==> (#[trigger] entries[j]).script != script,
        },
    decreases entries.len(),
{
    if entries.len() > 0 {
        let front = entries.drop_last();
        lemma_first_of_script(front, script);
        assert(forall|j: int| 0 <= j < front.len() ==> front[j] == entries[j]);
    }
}

/// A longer list has no fewer entries for a script than its beginning.
pub proof fn lemma_count_prefix<S>(entries: Seq<Entry<S>>, script: Script, n: int)
    requires
        0 <= n <= entries.len(),
    ensures
        count_script(entries.take(n), script) <= count_script(entries, script),
    decreases entries.len() - n,
{
    if n == entries.len() {
        assert(entries.take(n) =~= entries);
    } else {
        lemma_count_prefix(entries.drop_last(), script, n);
        assert(entries.drop_last().take(n) =~= entries.take(n));
    }
}

/// Where exactly one entry is registered for a script, every entry for that
/// script is the first one.
pub proof fn lemma_single_entry<S>(entries: Seq<Entry<S>>, script: Script, i: int)
    requires
        count_script(entries, script) == 1,
        0 <= i < entries.len(),
        entries[i].script == script,
    ensures
        first_of_script(entries, script) == Some(i),
    decreases entries.len(),
{
    let front = entries.drop_last();
    lemma_first_of_script(front, script);
    lemma_first_of_script(entries, script);
    if i < entries.len() - 1 {
        assert(front[i] == entries[i]);
        lemma_single_entry(front, script, i);
    }
}

/// The tie-break among several entries of one script. With two or more
/// entries for the script, a language that has an entry selects that entry;
/// a language that has none selects the entry of the script under `Other`;
/// and where that is missing too, the fallback is selected.
pub proof fn lemma_tie_break<S>(
    entries: Seq<Entry<S>>,
    fallback: S,
    script: Script,
    language: Language,
)
    requires
        distinct_keys(entries),
        count_script(entries, script) >= 2,
    ensures
        forall|i: int|
            0 <= i < entries.len() && has_key(#[trigger] entries[i], script, language) ==> chosen(
                entries,
                fallback,
                script,
                Some(language),
            ) == entries[i].item,
        (forall|i: int|
            0 <= i < entries.len() ==> !has_key(#[trigger] entries[i], script, language))
            ==> forall|j: int|
            0 <= j < entries.len() && has_key(#[trigger] entries[j], script, Language::Other)
                ==> chosen(entries, fallback, script, Some(language)) == entries[j].item,
        (forall|i: int|
            0 <= i < entries.len() ==> !has_key(#[trigger] entries[i], script, language)
                && !has_key(entries[i], script, Language::Other)) ==> chosen(
            entries,
            fallback,
            script,
            Some(language),
        ) == fallback,
{
    lemma_position(entries, script, language);
    lemma_position(entries, script, Language::Other);
    let found = position(entries, script, language);
    let other = position(entries, script, Language::Other);
    assert forall|i: int|
        0 <= i < entries.len() && has_key(#[trigger] entries[i], script, language) implies chosen(
        entries,
        fallback,
        script,
        Some(language),
    ) == entries[i].item by {
        let k = found.unwrap();
        if i < k {
            assert(!has_key(entries[i], script, language));
        } else if k < i {
            assert(!has_key(entries[k], entries[i].script, entries[i].language));
        }
    }
    if found is None {
        assert forall|j: int|
            0 <= j < entries.len() && has_key(
                #[trigger] entries[j],
                script,
                Language::Other,
            ) implies chosen(entries, fallback, script, Some(language))
            == entries[j].item by {
            let k = other.unwrap();
            if j < k {
                assert(!has_key(entries[j], script, Language::Other));
            } else if k < j {
                assert(!has_key(entries[k], entries[j].script, entries[j].language));
            }
        }
    }
}

/// Where the script alone decides, the language plays no part: with at most
/// one entry for the script, the choice is the same for every language and
/// without one.
pub proof fn lemma_script_decides<S>(
    entries: Seq<Entry<S>>,
    fallback: S,
    script: Script,
    a: Option<Language>,
    b: Option<Language>,
)
    requires
        count_script(entries, script) <= 1,
    ensures
        chosen(entries, fallback, script, a) == chosen(entries, fallback, script, b),
        count_script(entries, script) == 0 ==> chosen(entries, fallback, script, a) == fallback,
{
}

impl<S> Registry<S> {
    /// The registry is well formed when its entries have distinct keys.
    pub open spec fn wf(&self) -> bool {
        distinct_keys(self.entries@)
    }

    /// The item that this registry chooses for a script and, where it was
    /// detected, a language.
    pub open spec fn chosen(&self, script: Script, language: Option<Language>) -> S {
        chosen(self.entries@, self.fallback, script, language)
    }

    /// A registry without entries: every choice falls on `fallback`.
    pub fn new(fallback: S) -> (registry: Self)
        ensures
            registry.wf(),
            registry.entries@.len() == 0,
            registry.fallback == fallback,
    {
        Registry { entries: Vec::new(), fallback }
    }

    /// The place of the entry for `script` and `language`.
    pub fn find(&self, script: Script, language: Language) -> (place: Option<usize>)
        ensures
            match place {
                Some(i) => {
                    &&& position(self.entries@, script, language) == Some(i as int)
                    &&& i < self.entries@.len()
                    &&& has_key(self.entries@[i as int], script, language)
                },
                None => {
                    &&& position(self.entries@, script, language) is None
                    &&& absent(self.entries@, script, language)
                },
            },
    {
        proof {
            lemma_position(self.entries@, script, language);
        }
        let mut i: usize = 0;
        while i < self.entries.len()
            invariant
                0 <= i <= self.entries.len(),
                position(self.entries@.take(i as int), script, language) is None,
            decreases self.entries.len() - i,
        {
            proof {
                assert(self.entries@.take(i + 1).drop_last() =~= self.entries@.take(i as int));
            }
            if self.entries[i].script == script && self.entries[i].language == language {
                proof {
                    lemma_position(self.entries@.take(i + 1), script, language);
                    lemma_position(self.entries@, script, language);
                    let found = position(self.entries@, script, language);
                    assert(self.entries@.take(i + 1)[i as int] == self.entries@[i as int]);
                    assert(found is Some);
                    if found.unwrap() < i {
                        assert(self.entries@.take(i + 1)[found.unwrap()]
                            == self.entries@[found.unwrap()]);
                    }
                }
                return Some(i);
            }
            i += 1;
        }
        proof {
            assert(self.entries@.take(i as int) =~= self.entries@);
        }
        None
    }

    /// Registers `item` for `script` and `language`. An entry that was
    /// registered for them before is replaced; the other entries stay, in
    /// their order.
    pub fn register(&mut self, script: Script, language: Language, item: S)
        requires
            old(self).wf(),
        ensures
            final(self).wf(),
            final(self).fallback == old(self).fallback,
            match position(old(self).entries@, script, language) {
                Some(i) => final(self).entries@ == old(self).entries@.update(
                    i,
                    (Entry { script, language, item }),
                ),
                None => final(self).entries@ == old(self).entries@.push(
                    (Entry { script, language, item }),
                ),
            },
            absent(old(self).entries@, script, language) ==> final(self).entries@ == old(
                self,
            ).entries@.push((Entry { script, language, item })),
            position(final(self).entries@, script, language) is Some,
            final(self).entries@[position(final(self).entries@, script, language).unwrap()].item
                == item,
    {
        proof {
            lemma_position(self.entries@, script, language);
        }
        let place = self.find(script, language);
        let entry = Entry { script, language, item };
        match place {
            Some(i) => {
                self.entries.set(i, entry);
            },
            None => {
                self.entries.push(entry);
            },
        }
        proof {
            lemma_position(self.entries@, script, language);
            let found = position(self.entries@, script, language);
            match place {
                Some(i) => {
                    assert(has_key(self.entries@[i as int], script, language));
                },
                None => {
                    assert(has_key(self.entries@[self.entries@.len() - 1], script, language));
                },
            }
        }
    }

    /// The item registered for `script` and `language`, if there is one.
    pub fn get(&self, script: Script, language: Language) -> (item: Option<&S>)
        ensures
            match position(self.entries@, script, language) {
                Some(i) => item == Some(&self.entries@[i].item),
                None => item is None,
            },
            match item {
                Some(item) => exists|i: int|
                    0 <= i < self.entries@.len() && has_key(
                        #[trigger] self.entries@[i],
                        script,
                        language,
                    ) && *item == self.entries@[i].item,
                None => absent(self.entries@, script, language),
            },
    {
        proof {
            lemma_position(self.entries@, script, language);
        }
        match self.find(script, language) {
            Some(i) => Some(&self.entries[i].item),
            None => None,
        }
    }

    /// The item for a script and a language: the entry for both, else the
    /// entry for the script under `Other`, else the fallback.
    pub fn select(&self, script: Script, language: Language) -> (item: &S)
        ensures
            *item == by_language(self.entries@, self.fallback, script, language),
    {
        match self.get(script, language) {
            Some(item) => item,
            None => match self.get(script, Language::Other) {
                Some(item) => item,
                None => &self.fallback,
            },
        }
    }
}

} // verus!

//! The results of a search: the words that matched, and the key of the search.

use crate::lexicon::entry::EntryView;
use crate::lexicon::search::Matches;
use crate::lexicon::search_key::SearchKey;
use crate::lexicon::Lexicon;
use crate::text::ascii_text;
use vstd::prelude::*;

verus! {

/// The words of the entries that `accepted` holds of, in the order of the entries.
pub open spec fn matching_words(
    entries: Seq<EntryView>,
    accepted: spec_fn(EntryView) -> bool,
) -> Seq<Seq<char>>
    decreases entries.len(),
{
    if entries.len() == 0 {
        Seq::empty()
    } else if accepted(entries.last()) {
        matching_words(entries.drop_last(), accepted).push(entries.last().word)
    } else {
        matching_words(entries.drop_last(), accepted)
    }
}

/// The texts of a list of string slices.
pub open spec fn word_views(words: Seq<&str>) -> Seq<Seq<char>> {
    Seq::new(words.len(), |i: int| words[i]@)
}

/// Two conditions that hold of the same entries pick the same words.
pub proof fn lemma_matching_words_same(
    entries: Seq<EntryView>,
    p: spec_fn(EntryView) -> bool,
    q: spec_fn(EntryView) -> bool,
)
    requires
        forall|i: int| 0 <= i < entries.len() ==> p(#[trigger] entries[i]) == q(entries[i]),
    ensures
        matching_words(entries, p) == matching_words(entries, q),
    decreases entries.len(),
{
    if entries.len() > 0 {
        let init = entries.drop_last();
        assert forall|i: int| 0 <= i < init.len() implies p(#[trigger] init[i]) == q(init[i]) by {
            assert(init[i] == entries[i]);
        }
        lemma_matching_words_same(init, p, q);
        assert(p(entries[entries.len() - 1]) == q(entries[entries.len() - 1]));
    }
}

/// Results of a search: the words that matched, in the order of the lexicon, and the key
/// under which the search is shown.
pub struct Results<'a> {
    pub words: Vec<&'a str>,
    pub key: SearchKey,
}

impl<'a> Results<'a> {
    /// Holds the query against every entry of the lexicon, from the first to the last, and
    /// keeps the words of those that it matches.
    pub fn new<M: Matches>(pattern: M, lexicon: &'a Lexicon) -> (r: Results<'a>)
        ensures
            word_views(r.words@) == matching_words(lexicon@, |e: EntryView| pattern.accepts(e)),
            r.key.search_string@ == pattern.key_string(),
            r.key.len@ == ascii_text(pattern.key_len()),
    {
        let ghost accepted = |e: EntryView| pattern.accepts(e);
        let mut words: Vec<&'a str> = Vec::new();
        let entries = lexicon.entries_slice();
        let mut i: usize = 0;
        assert(lexicon@.take(0) =~= Seq::<EntryView>::empty());
        while i < entries.len()
            invariant
                i <= entries.len(),
                entries@.len() == lexicon@.len(),
                forall|k: int| 0 <= k < entries@.len() ==> (#[trigger] entries@[k])@ == lexicon@[k],
                accepted == |e: EntryView| pattern.accepts(e),
                word_views(words@) == matching_words(lexicon@.take(i as int), accepted),
            decreases entries.len() - i,
        {
            let entry = &entries[i];
            proof {
                assert(lexicon@.take(i + 1).drop_last() =~= lexicon@.take(i as int));
                assert(lexicon@.take(i + 1).last() == entry@);
            }
            let ghost before = words@;
            if pattern.matches(entry) {
                words.push(entry.word());
                assert(word_views(words@) =~= word_views(before).push(entry@.word));
            }
            i += 1;
        }
        assert(lexicon@.take(i as int) =~= lexicon@);
        let key = pattern.search_key();
        Results { words, key }
    }

    /// The length signature of the search.
    pub fn search_key_len(&self) -> (s: &str)
        ensures
            s@ == self.key.len@,
    {
        self.key.search_len()
    }

    /// The search in its display form.
    pub fn search_string(&self) -> (s: &str)
        ensures
            s@ == self.key.search_string@,
    {
        self.key.search_string()
    }

}

impl<'a> IntoIterator for Results<'a> {
    type Item = &'a str;

    type IntoIter = std::vec::IntoIter<&'a str>;

    /// Gives up the words that matched, from the first to the last.
    fn into_iter(self) -> (words: Self::IntoIter)
        ensures
            words == vstd::std_specs::vec::spec_into_iter(self.words),
    {
        self.words.into_iter()
    }
}

} // verus!

//! The lexicon and its two searches: anagrams, and words that fit a pattern.

pub mod entry;
pub mod parse_word;
pub mod results;
pub mod search;
pub mod search_key;

pub use entry::{Entry, EntryView};
pub use parse_word::{char_type, parse_word, CharType};
pub use results::Results;
pub use search::{Anagram, FindWord, Matches};
pub use search_key::SearchKey;

use crate::text::{ascii_text, decimal, comma_joined};
use entry::entry_of;
use parse_word::{letters_of, transliterated};
use results::{lemma_matching_words_same, matching_words, word_views};
use search::{
    anagram_accepts, anagram_view, blank_count, find_word_accepts, find_word_view,
    segment_lengths,
};
use vstd::prelude::*;
use vstd::utf8::encode_utf8;

verus! {

/// The searchable list of words and phrases.
///
/// The Lexicon holds a list of [entries], which are pre-processed to help searching.
///
/// [entries]: [`Entry`]
pub struct Lexicon {
    entries: Vec<Entry>,
}

impl View for Lexicon {
    type V = Seq<EntryView>;

    closed spec fn view(&self) -> Seq<EntryView> {
        Seq::new(self.entries@.len(), |i: int| self.entries@[i]@)
    }
}

/// The entries of a list of words and phrases, in their order.
pub open spec fn entries_of(words: Seq<Seq<char>>) -> Seq<EntryView> {
    Seq::new(words.len(), |i: int| entry_of(words[i]))
}

impl Lexicon {
    /// Builds a Lexicon from a list of words and phrases, keeping their order.
    pub fn new(words: &[&str]) -> (lexicon: Lexicon)
        ensures
            lexicon@ == entries_of(word_views(words@)),
    {
        let mut entries: Vec<Entry> = Vec::new();
        let mut i: usize = 0;
        while i < words.len()
            invariant
                i <= words.len(),
                entries@.len() == i,
                forall|k: int| 0 <= k < i ==> (#[trigger] entries@[k])@ == entry_of(words@[k]@),
            decreases words.len() - i,
        {
            entries.push(Entry::from(words[i]));
            i += 1;
        }
        let lexicon = Lexicon { entries };
        assert(lexicon@ =~= entries_of(word_views(words@)));
        lexicon
    }

    /// The entries, in the order in which they were given.
    pub fn entries_slice(&self) -> (entries: &[Entry])
        ensures
            entries@.len() == self@.len(),
            forall|k: int| 0 <= k < entries@.len() ==> (#[trigger] entries@[k])@ == self@[k],
    {
        self.entries.as_slice()
    }

    /// Returns a cursor over all entries, standing before the first.
    pub fn entries(&self) -> (cursor: Entries<'_>)
        ensures
            cursor.rest() == self@,
    {
        let cursor = Entries { entries: self.entries.as_slice(), pos: 0 };
        assert(cursor.rest() =~= self@);
        cursor
    }

    /// Search the lexicon for entries matching an anagram query.
    pub fn anagram<'a>(&'a self, query: &str) -> (r: Results<'a>)
        ensures
            word_views(r.words@) == matching_words(
                self@,
                |e: EntryView|
                    anagram_accepts(anagram_view(encode_utf8(transliterated(query@)), query@), e),
            ),
            r.key.search_string@ == query@,
            r.key.len@ == ascii_text(
                decimal(
                    letters_of(encode_utf8(transliterated(query@))).len() + blank_count(
                        encode_utf8(transliterated(query@)),
                    ),
                ),
            ),
    {
        let pat = Anagram::parse(query);
        proof {
            let t = encode_utf8(transliterated(query@));
            crate::sorted_ascii::lemma_sorted_bytes(letters_of(t));
            lemma_matching_words_same(
                self@,
                |e: EntryView| pat.accepts(e),
                |e: EntryView| anagram_accepts(anagram_view(t, query@), e),
            );
        }
        Results::new(pat, self)
    }

    /// Search the lexicon for entries matching a Find Word query.
    pub fn find_word<'a>(&'a self, query: &str) -> (r: Results<'a>)
        ensures
            word_views(r.words@) == matching_words(
                self@,
                |e: EntryView|
                    find_word_accepts(find_word_view(encode_utf8(transliterated(query@))), e),
            ),
            r.key.search_string@ == find_word_view(encode_utf8(transliterated(query@))).display,
            r.key.len@ == ascii_text(
                comma_joined(
                    segment_lengths(
                        find_word_view(encode_utf8(transliterated(query@))).breaks,
                        find_word_view(encode_utf8(transliterated(query@))).pattern.len() as usize,
                    ),
                ),
            ),
    {
        let pat = FindWord::parse(query);
        proof {
            let t = encode_utf8(transliterated(query@));
            lemma_matching_words_same(
                self@,
                |e: EntryView| pat.accepts(e),
                |e: EntryView| find_word_accepts(find_word_view(t), e),
            );
        }
        Results::new(pat, self)
    }
}

/// A cursor over the [`Entry`] values in a lexicon.
///
/// This struct is created by the [`entries`] method on [`Lexicon`].
///
/// [`entries`]: Lexicon::entries
pub struct Entries<'a> {
    entries: &'a [Entry],
    pos: usize,
}

impl<'a> Entries<'a> {
    /// The invariant of the type: the cursor stands within the entries or at their end.
    #[verifier::type_invariant]
    pub closed spec fn wf(&self) -> bool {
        self.pos <= self.entries@.len()
    }

    /// The entries that the cursor has not passed yet.
    pub closed spec fn rest(&self) -> Seq<EntryView> {
        Seq::new(
            (self.entries@.len() - self.pos) as nat,
            |i: int| self.entries@[self.pos + i]@,
        )
    }

    /// Passes the next entry and returns it, or `None` after the last.
    pub fn next(&mut self) -> (entry: Option<&'a Entry>)
        ensures
            old(self).rest().len() == 0 ==> entry is None && final(self).rest() == old(
                self,
            ).rest(),
            old(self).rest().len() > 0 ==> entry is Some && entry->0@ == old(self).rest()[0]
                && final(self).rest() == old(self).rest().drop_first(),
    {
        proof {
            use_type_invariant(&*self);
        }
        if self.pos < self.entries.len() {
            let entry = &self.entries[self.pos];
            self.pos = self.pos + 1;
            assert(self.rest() =~= old(self).rest().drop_first());
            Some(entry)
        } else {
            None
        }
    }
}

} // verus!

//! An entry of the lexicon: a word or phrase with what the searches read of it.

use crate::ascii_string::{all_lower, AsciiString};
use crate::lexicon::parse_word::{
    lemma_breaks_interior, lemma_letters_stable, parse_word, word_breaks, word_letters,
};
use crate::sorted_ascii::{ascending, lemma_sorted_bytes, sorted_bytes, SortedAscii};
use crate::text::ascii_text;
use crate::word_breaks::WordBreaks;
use vstd::prelude::*;

verus! {

/// What an [`Entry`] holds, as mathematical values.
pub ghost struct EntryView {
    /// The word or phrase as it was entered.
    pub word: Seq<char>,
    /// Its letters, lowercased and stripped of accents, in their order.
    pub letters: Seq<u8>,
    /// The same letters in alphabetical order.
    pub sorted: Seq<u8>,
    /// The positions of its word breaks.
    pub breaks: Set<usize>,
}

/// The entry of a word or phrase.
pub open spec fn entry_of(word: Seq<char>) -> EntryView {
    EntryView {
        word,
        letters: word_letters(word),
        sorted: sorted_bytes(word_letters(word)),
        breaks: word_breaks(word),
    }
}

/// In every entry `sorted` is exactly the letters sorted in ascending order: a rearrangement of
/// them, of the same length.
pub proof fn lemma_sorted_is_letters_sorted(word: Seq<char>)
    ensures
        ascending(entry_of(word).sorted),
        entry_of(word).sorted.to_multiset() == entry_of(word).letters.to_multiset(),
        entry_of(word).sorted.len() == entry_of(word).letters.len(),
{
    lemma_sorted_bytes(word_letters(word));
}

/// In every entry the letters are lowercase, and the word breaks lie strictly inside them:
/// none at 0, none at the number of letters.
pub proof fn lemma_entry_shape(word: Seq<char>)
    ensures
        all_lower(entry_of(word).letters),
        entry_of(word).breaks.finite(),
        forall|p: usize|
            entry_of(word).breaks.contains(p) ==> 0 < p < entry_of(word).letters.len(),
{
    lemma_letters_stable(word);
    lemma_breaks_interior(word);
}

/// The entry of the letters of an entry has those same letters: normalizing is a projection.
pub proof fn lemma_entry_letters_stable(word: Seq<char>)
    ensures
        entry_of(ascii_text(entry_of(word).letters)).letters == entry_of(word).letters,
{
    lemma_letters_stable(word);
}

/// A word or phrase stored in the Lexicon.
///
/// As well as the word or phrase itself, the Entry also contains:
///   * The letters in their original order, stripped of accents and converted to lower case
///   * The letters in alphabetical order -- this makes anagram search go faster
///   * The letter positions of word breaks.
#[derive(Debug, PartialEq)]
pub struct Entry {
    head_word: String,
    letters: AsciiString,
    sorted: SortedAscii,
    breaks: WordBreaks,
}

impl View for Entry {
    type V = EntryView;

    closed spec fn view(&self) -> EntryView {
        EntryView {
            word: self.head_word@,
            letters: self.letters@,
            sorted: self.sorted@,
            breaks: self.breaks@,
        }
    }
}

impl Clone for Entry {
    fn clone(&self) -> (r: Self)
        ensures
            r@ == self@,
    {
        proof {
            use_type_invariant(self);
        }
        Entry {
            head_word: self.head_word.clone(),
            letters: self.letters.clone(),
            sorted: self.sorted.clone(),
            breaks: self.breaks.clone(),
        }
    }
}

impl Entry {
    /// The invariant of the type: the entry is that of its word.
    #[verifier::type_invariant]
    pub open spec fn wf(&self) -> bool {
        self@ == entry_of(self@.word)
    }

    /// Builds the entry of a word or phrase.
    pub fn from(input: &str) -> (entry: Entry)
        ensures
            entry@ == entry_of(input@),
    {
        let head_word = input.to_owned();
        let (letters, breaks) = parse_word(input);
        let sorted = SortedAscii::from_bytes(letters.as_bytes());
        Entry { head_word, letters, sorted, breaks }
    }

    /// The original word or phrase, with capitalization, spacing, and so on intact
    pub fn word(&self) -> (w: &str)
        ensures
            w@ == self@.word,
    {
        self.head_word.as_str()
    }

    /// The letters in their original order, stripped of accents and converted to lower case
    pub fn letters(&self) -> (l: &AsciiString)
        ensures
            l@ == self@.letters,
            self.wf(),
    {
        proof {
            use_type_invariant(self);
        }
        &self.letters
    }

    /// The letters in alphabetical order, including repeats.
    pub fn sorted(&self) -> (s: &SortedAscii)
        ensures
            s@ == self@.sorted,
            self.wf(),
    {
        proof {
            use_type_invariant(self);
        }
        &self.sorted
    }

    /// The number of letters. This is simply the length of `letters()`.
    pub fn len(&self) -> (n: usize)
        ensures
            n == self@.letters.len(),
    {
        self.letters.len()
    }

    /// The positions of the word breaks. The positions refer to indexes into `letters()`
    /// starting from 0. A phrase with n distinct words has n-1 word breaks.
    pub fn breaks(&self) -> (b: &WordBreaks)
        ensures
            b@ == self@.breaks,
            self.wf(),
    {
        proof {
            use_type_invariant(self);
        }
        &self.breaks
    }
}

} // verus!

//! Previews of search results: the most popular matches, cut down to a number to display.

use crate::lexicon::parse_word::word_letters;
use crate::lexicon::search_key::SearchKey;
use crate::popularity::{rank_of, sorted_by_rank, Popularity};
use vstd::prelude::*;

verus! {

/// Builder for preview responses.
pub struct Preview<'a> {
    max_results: usize,
    wiggle: usize,
    popularity: &'a Popularity,
}

/// One word in a preview response. The `ranked` field indicates whether or not the word was in
/// the "most common English words" list.
#[derive(Debug, PartialEq, Eq)]
pub struct PreviewWord {
    pub text: String,
    pub ranked: bool,
}

/// Data format of a response to a preview request.  The preview trims the result set down to a
/// manageable size, and moves the most common English words to the front.
#[derive(Debug, PartialEq, Eq)]
pub struct PreviewResponse {
    pub full_count: usize,
    pub query: String,
    pub lengths: String,
    pub words: Vec<PreviewWord>,
}

impl View for PreviewWord {
    type V = (Seq<char>, bool);

    open spec fn view(&self) -> (Seq<char>, bool) {
        (self.text@, self.ranked)
    }
}

/// What each word of a preview holds.
pub open spec fn preview_words_view(words: Seq<PreviewWord>) -> Seq<(Seq<char>, bool)> {
    Seq::new(words.len(), |i: int| words[i]@)
}

/// The number of preview items to display: all `count` of them as long as they are no more
/// than `max + wiggle`, else `max`.
pub open spec fn shown_count(count: nat, max: nat, wiggle: nat) -> nat {
    if count <= max + wiggle {
        count
    } else {
        max
    }
}

/// The first `shown` of the sorted words, each with the mark that tells whether it is ranked.
pub open spec fn preview_of(ranked: Map<Seq<char>, u32>, sorted: Seq<&str>, shown: nat) -> Seq<
    (Seq<char>, bool),
> {
    Seq::new(shown, |i: int| (sorted[i]@, rank_of(ranked, word_letters(sorted[i]@)) is Some))
}

/// Decide how many preview items to display.
///
/// Normally, we display `count` items up to a maximum of `max`.  But it's annoying when the
/// count is only just above the limit; we see "5 matches (one, two, three, four, ...)".  It
/// should just bend the rules and show me that 5th match!  And that's the wiggle parameter: it
/// controls how many extra results can be crammed into the preview before it snaps back to the
/// maximum.
///
/// Suppose max = 10 and wiggle = 2. Then as count increases, we get:
///   * count = 10 -> 10 results
///   * count = 11 -> 11 results
///   * count = 12 -> 12 results
///   * count = 13 -> 10 results
///   * count = 14 -> 10 results
pub fn display_count(count: usize, max: usize, wiggle: usize) -> (shown: usize)
    ensures
        shown == shown_count(count as nat, max as nat, wiggle as nat),
        shown <= count,
{
    if count <= max || count - max <= wiggle {
        count
    } else {
        max
    }
}

impl<'a> Preview<'a> {
    /// A builder of previews of at most `max_results` words, or of up to `wiggle` more where
    /// that shows them all.
    pub fn new(max_results: usize, wiggle: usize, popularity: &'a Popularity) -> (r: Self)
        ensures
            r.max_results() == max_results,
            r.wiggle() == wiggle,
            r.popularity() == popularity,
    {
        Preview { max_results, wiggle, popularity }
    }

    /// The number of words that a preview holds at most, the wiggle room aside.
    pub closed spec fn max_results(&self) -> usize {
        self.max_results
    }

    /// The number of words by which a preview may go beyond `max_results` to show all.
    pub closed spec fn wiggle(&self) -> usize {
        self.wiggle
    }

    /// The ranking by which the words are sorted.
    pub closed spec fn popularity(&self) -> &Popularity {
        self.popularity
    }

    /// Builds the preview of a search: the words sorted by popularity, most popular first and
    /// otherwise in their order, and cut down to the number to display.
    pub fn build(&self, key: &SearchKey, words: &[&str]) -> (r: PreviewResponse)
        ensures
            r.full_count == words@.len(),
            r.query@ == key.search_string@,
            r.lengths@ == key.len@,
            exists|sorted: Seq<&str>, from: Seq<int>|
                sorted_by_rank(self.popularity()@, words@, sorted, from) && preview_words_view(
                    r.words@,
                ) == preview_of(
                    self.popularity()@,
                    sorted,
                    shown_count(
                        words@.len(),
                        self.max_results() as nat,
                        self.wiggle() as nat,
                    ),
                ),
    {
        let mut sorted: Vec<&str> = Vec::new();
        let mut i: usize = 0;
        while i < words.len()
            invariant
                i <= words.len(),
                sorted@ == words@.take(i as int),
            decreases words.len() - i,
        {
            sorted.push(words[i]);
            assert(words@.take(i + 1) =~= words@.take(i as int).push(words@[i as int]));
            i += 1;
        }
        assert(words@.take(i as int) =~= words@);
        self.popularity.sort(&mut sorted);
        let ghost ranked = self.popularity@;
        let ghost from = choose|from: Seq<int>| sorted_by_rank(ranked, words@, sorted@, from);
        let full_count = sorted.len();
        let shown = self.display_count(full_count);
        let mut out: Vec<PreviewWord> = Vec::new();
        let mut k: usize = 0;
        proof {
            assert(preview_words_view(out@) =~= preview_of(ranked, sorted@, 0));
        }
        while k < shown
            invariant
                k <= shown <= sorted@.len(),
                ranked == self.popularity@,
                preview_words_view(out@) == preview_of(ranked, sorted@, k as nat),
            decreases shown - k,
        {
            let word = sorted[k];
            let ghost had = preview_words_view(out@);
            let is_ranked = self.popularity.is_ranked(word);
            out.push(PreviewWord { text: word.to_owned(), ranked: is_ranked });
            proof {
                assert(preview_words_view(out@) =~= had.push(
                    (word@, rank_of(ranked, word_letters(word@)) is Some),
                ));
                assert(preview_words_view(out@) =~= preview_of(ranked, sorted@, (k + 1) as nat));
            }
            k += 1;
        }
        let r = PreviewResponse {
            full_count,
            query: key.search_string().to_owned(),
            lengths: key.search_len().to_owned(),
            words: out,
        };
        proof {
            assert(sorted_by_rank(self.popularity()@, words@, sorted@, from));
            assert(preview_words_view(r.words@) == preview_of(
                self.popularity()@,
                sorted@,
                shown_count(words@.len(), self.max_results() as nat, self.wiggle() as nat),
            ));
        }
        r
    }

    /// The number of words to display out of `count`.
    pub fn display_count(&self, count: usize) -> (shown: usize)
        ensures
            shown == shown_count(count as nat, self.max_results() as nat, self.wiggle() as nat),
            shown <= count,
    {
        display_count(count, self.max_results, self.wiggle)
    }
}

} // verus!

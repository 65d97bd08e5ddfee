//! What a full search and a thesaurus query answer.

use crate::dictionary::{lookup_of, Dictionary};
use crate::lexicon::parse_word::{transliterated, word_letters};
use crate::plural::{plural, plural_text};
use crate::popularity::{rank_of, Popularity};
use crate::sorting::{is_sorted_order, pair_order, pairs_of, places};
use crate::text::{ascii_text, bytes_eq};
use crate::thesaurus::word_lengths::formatted_lengths;
use crate::thesaurus::Word;
use crate::wordnet::stemming::strings_view;
use vstd::prelude::*;
use vstd::slice::slice_to_vec;
use vstd::string::StringSliceAdditionalSpecFns;

verus! {

/// A single word in the full result for anagram or find-word
#[derive(Debug, PartialEq, Eq)]
pub struct Match {
    /// The word we found
    pub word: String,
    /// If we have a definition for the word, it goes here
    pub definition: Option<String>,
    /// Used for highlighting rows in the full results: set to 1 for a word that is ranked.
    pub score: Option<u32>,
}

/// Result type for a full anagram or find-word search
#[derive(Debug, PartialEq, Eq)]
pub struct FullResults {
    /// The result set is just a list of entries.
    pub words: Vec<Match>,
}

/// The text of a string that may be absent.
pub open spec fn text_of(s: Option<String>) -> Option<Seq<char>> {
    match s {
        Some(text) => Some(text@),
        None => None,
    }
}

/// What the full result says of one word: the word, its definition if the dictionary has
/// one, and the score 1 if the word is ranked.
pub open spec fn match_of(
    m: Match,
    word: Seq<char>,
    dict: &Dictionary,
    popularity: &Popularity,
) -> bool {
    &&& m.word@ == word
    &&& text_of(m.definition) == lookup_of(dict@, transliterated(word))
    &&& m.score == if rank_of(popularity@, word_letters(word)) is Some {
        Some(1u32)
    } else {
        None
    }
}

/// The full results of a search: each word with its definition and its score.
pub fn full_results(words: &[&str], dict: &Dictionary, popularity: &Popularity) -> (r: FullResults)
    ensures
        r.words@.len() == words@.len(),
        forall|i: int|
            0 <= i < words@.len() ==> match_of(
                #[trigger] r.words@[i],
                words@[i]@,
                dict,
                popularity,
            ),
{
    let mut out: Vec<Match> = Vec::new();
    let mut i: usize = 0;
    while i < words.len()
        invariant
            i <= words.len(),
            out@.len() == i,
            forall|k: int|
                0 <= k < i ==> match_of(#[trigger] out@[k], words@[k]@, dict, popularity),
        decreases words.len() - i,
    {
        let word = words[i];
        let definition = match dict.lookup(word) {
            Some(text) => Some(text.to_owned()),
            None => None,
        };
        let score = if popularity.is_ranked(word) {
            Some(1)
        } else {
            None
        };
        out.push(Match { word: word.to_owned(), score, definition });
        i += 1;
    }
    FullResults { words: out }
}

/// The response for a thesaurus query
#[derive(Debug, PartialEq, Eq)]
pub struct ThesaurusResponse {
    /// Total number of matches, as a string like "1 match" or "137 matches"
    pub count: String,
    /// The word we looked up
    pub query: String,
    /// Matching words, grouped by word length. The key is a string showing word lengths in the
    /// group, like "10" or "8 (3,5)", and the value is a list of words.
    ///
    /// The groups are in numerical order, so 3-letter words come before 4-letter words. When
    /// there are multi-word alternatives, they are listed in lexical order after the single
    /// word.
    pub words: Vec<WordGroup>,
}

/// The terms of one length signature.
#[derive(Debug, PartialEq, Eq)]
pub struct WordGroup {
    pub lengths: String,
    pub words: Vec<String>,
}

impl View for WordGroup {
    type V = (Seq<char>, Seq<Seq<char>>);

    open spec fn view(&self) -> (Seq<char>, Seq<Seq<char>>) {
        (self.lengths@, strings_view(self.words@))
    }
}

/// What each of the groups holds.
pub open spec fn groups_view(groups: Seq<WordGroup>) -> Seq<(Seq<char>, Seq<Seq<char>>)> {
    Seq::new(groups.len(), |i: int| groups[i]@)
}

/// The packed lengths and the term of each word, the term in UTF-8.
pub open spec fn word_keys(words: Seq<&Word>) -> Seq<(Seq<u8>, Seq<u8>)> {
    Seq::new(words.len(), |i: int| (words[i].word_lengths@, words[i].term.spec_bytes()))
}

/// The words in the given order: at place `i` the word that stood at `from[i]`.
pub open spec fn arranged(words: Seq<&Word>, from: Seq<int>) -> Seq<(Seq<u8>, Seq<char>)> {
    Seq::new(from.len(), |i: int| (words[from[i]].word_lengths@, words[from[i]].term@))
}

/// The terms in groups: each group holds the terms of one length signature that follow one
/// another, with the signature written out.
pub open spec fn grouped(sorted: Seq<(Seq<u8>, Seq<char>)>) -> Seq<(Seq<char>, Seq<Seq<char>>)>
    decreases sorted.len(),
{
    if sorted.len() == 0 {
        Seq::empty()
    } else {
        let init = grouped(sorted.drop_last());
        let lengths = ascii_text(formatted_lengths(sorted.last().0));
        if sorted.len() > 1 && sorted[sorted.len() - 2].0 == sorted.last().0 && init.len() > 0 {
            init.drop_last().push((lengths, init.last().1.push(sorted.last().1)))
        } else {
            init.push((lengths, seq![sorted.last().1]))
        }
    }
}

/// The response to a thesaurus query: the words that were found, sorted by their length
/// signatures and under one signature by their terms, in groups of one signature each.
pub fn thesaurus_response(query: &str, found: &Vec<&Word>) -> (r: ThesaurusResponse)
    ensures
        r.query@ == query@,
        r.count@ == plural_text(found@.len(), "match"@, "matches"@),
        exists|from: Seq<int>|
            is_sorted_order(word_keys(found@), from) && groups_view(r.words@) == grouped(
                arranged(found@, from),
            ),
{
    let n = found.len();
    let mut lengths: Vec<Vec<u8>> = Vec::new();
    let mut terms: Vec<Vec<u8>> = Vec::new();
    let mut m: usize = 0;
    while m < n
        invariant
            m <= n,
            n == found@.len(),
            lengths@.len() == m,
            terms@.len() == m,
            forall|k: int| 0 <= k < m ==> (#[trigger] lengths@[k])@ == found@[k].word_lengths@,
            forall|k: int| 0 <= k < m ==> (#[trigger] terms@[k])@ == found@[k].term.spec_bytes(),
        decreases n - m,
    {
        lengths.push(found[m].word_lengths.to_vec());
        terms.push(slice_to_vec(found[m].term.as_bytes()));
        m += 1;
    }
    let order = pair_order(&lengths, &terms);
    let ghost from = places(order@);
    let ghost sorted = arranged(found@, from);
    proof {
        assert(pairs_of(lengths@, terms@) =~= word_keys(found@));
        assert forall|k: int| 0 <= k < n implies #[trigger] order@[k] < n by {
            assert(0 <= from[k] < n);
        }
    }
    let mut groups: Vec<WordGroup> = Vec::new();
    let mut i: usize = 0;
    proof {
        assert(sorted.take(0) =~= Seq::<(Seq<u8>, Seq<char>)>::empty());
        assert(groups_view(groups@) =~= grouped(sorted.take(0)));
    }
    while i < n
        invariant
            i <= n,
            n == found@.len(),
            n == order@.len(),
            from == places(order@),
            sorted == arranged(found@, from),
            forall|k: int| 0 <= k < n ==> #[trigger] order@[k] < n,
            lengths@.len() == n,
            forall|k: int| 0 <= k < n ==> (#[trigger] lengths@[k])@ == found@[k].word_lengths@,
            groups_view(groups@) == grouped(sorted.take(i as int)),
        decreases n - i,
    {
        let word = found[order[i]];
        let ghost before = groups_view(groups@);
        proof {
            assert(sorted.take(i + 1).drop_last() =~= sorted.take(i as int));
            assert(sorted.take(i + 1).last() == sorted[i as int]);
            assert(sorted[i as int] == (word.word_lengths@, word.term@));
            if i > 0 {
                assert(sorted.take(i + 1)[i - 1] == sorted[i - 1]);
            }
        }
        let same = i > 0 && groups.len() > 0 && bytes_eq(
            lengths[order[i - 1]].as_slice(),
            lengths[order[i]].as_slice(),
        );
        if same {
            let last = groups.len() - 1;
            let ghost had = groups@[last as int]@;
            groups[last].words.push(word.term.to_owned());
            proof {
                assert(groups@[last as int]@.1 =~= had.1.push(word.term@));
                assert(groups_view(groups@) =~= before.drop_last().push(
                    (had.0, had.1.push(word.term@)),
                ));
                lemma_group_label(sorted.take(i as int));
            }
        } else {
            let mut words: Vec<String> = Vec::new();
            words.push(word.term.to_owned());
            let label = word.word_lengths.format();
            proof {
                assert(strings_view(words@) =~= seq![word.term@]);
                if i > 0 && sorted[i - 1].0 == sorted[i as int].0 {
                    lemma_grouped_nonempty(sorted.take(i as int));
                }
            }
            groups.push(WordGroup { lengths: label, words });
            proof {
                assert(groups_view(groups@) =~= before.push((label@, seq![word.term@])));
            }
        }
        i += 1;
    }
    proof {
        assert(sorted.take(i as int) =~= sorted);
    }
    ThesaurusResponse {
        count: plural(n, "match", "matches"),
        query: query.to_owned(),
        words: groups,
    }
}

/// Words that are not none are in groups that are not none.
proof fn lemma_grouped_nonempty(sorted: Seq<(Seq<u8>, Seq<char>)>)
    ensures
        sorted.len() > 0 ==> grouped(sorted).len() > 0,
    decreases sorted.len(),
{
    if sorted.len() > 0 {
        lemma_grouped_nonempty(sorted.drop_last());
    }
}

/// The last group is written with the length signature of the last word.
proof fn lemma_group_label(sorted: Seq<(Seq<u8>, Seq<char>)>)
    ensures
        sorted.len() > 0 ==> grouped(sorted).len() > 0 && grouped(sorted).last().0 == ascii_text(
            formatted_lengths(sorted.last().0),
        ),
    decreases sorted.len(),
{
    if sorted.len() > 0 {
        lemma_group_label(sorted.drop_last());
    }
}

} // verus!

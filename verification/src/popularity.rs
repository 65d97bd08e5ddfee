//! The ranking of words by popularity, by which results are sorted for display.

use crate::ascii_string::AsciiString;
use crate::lexicon::parse_word::{parse_word, word_letters};
use crate::lexicon::results::word_views;
use crate::sorting::{is_arrangement, places, precedes, stable_order};
use crate::text::ascii_text;
use std::cmp::Ordering;
use vstd::hash_map::StringHashMap;
use vstd::prelude::*;
use vstd::string::StringExecFns;
use vstd::seq_lib::lemma_seq_contains_after_push;
use vstd::std_specs::cmp::{PartialEqSpecImpl, PartialOrdSpecImpl};

verus! {

/// A value with its place in a ranking, if it has one. Two such values compare by their ranks
/// alone: a lower rank comes first, a value without rank comes after every ranked one, and two
/// values without rank are equal.
#[derive(Debug)]
pub enum Ranked<T> {
    Ranked(T, u32),
    Unranked(T),
}

/// How two ranks compare. An absent rank is greater than every rank, and equal to an absent one.
pub open spec fn rank_order(a: Option<u32>, b: Option<u32>) -> Ordering {
    match (a, b) {
        (Some(x), Some(y)) => if x < y {
            Ordering::Less
        } else if x == y {
            Ordering::Equal
        } else {
            Ordering::Greater
        },
        (Some(_), None) => Ordering::Less,
        (None, Some(_)) => Ordering::Greater,
        (None, None) => Ordering::Equal,
    }
}

/// Compares two ranks.
pub fn compare_ranks(a: Option<u32>, b: Option<u32>) -> (r: Ordering)
    ensures
        r == rank_order(a, b),
{
    match (a, b) {
        (Some(x), Some(y)) => if x < y {
            Ordering::Less
        } else if x == y {
            Ordering::Equal
        } else {
            Ordering::Greater
        },
        (Some(_), None) => Ordering::Less,
        (None, Some(_)) => Ordering::Greater,
        (None, None) => Ordering::Equal,
    }
}

impl<T> Ranked<T> {
    /// The rank, if there is one.
    pub open spec fn rank_spec(&self) -> Option<u32> {
        match self {
            Ranked::Ranked(_, rank) => Some(*rank),
            Ranked::Unranked(_) => None,
        }
    }

    /// The rank, if there is one.
    pub fn rank(&self) -> (r: Option<u32>)
        ensures
            r == self.rank_spec(),
    {
        match self {
            Ranked::Ranked(_, rank) => Some(*rank),
            Ranked::Unranked(_) => None,
        }
    }

    /// Tells whether there is a rank.
    pub fn is_ranked(&self) -> (r: bool)
        ensures
            r == self.rank_spec() is Some,
    {
        match self {
            Ranked::Ranked(_, _) => true,
            Ranked::Unranked(_) => false,
        }
    }

    /// The value that is ranked or not.
    pub fn value(&self) -> (v: &T)
        ensures
            *v == match self {
                Ranked::Ranked(t, _) => *t,
                Ranked::Unranked(t) => *t,
            },
    {
        match self {
            Ranked::Ranked(t, _) => t,
            Ranked::Unranked(t) => t,
        }
    }
}

impl<'a> Ranked<&'a str> {
    /// The word as it is shown: with a `*` after it if it is ranked.
    pub fn to_text(&self) -> (text: String)
        ensures
            text@ == match self {
                Ranked::Ranked(t, _) => t@ + "*"@,
                Ranked::Unranked(t) => t@,
            },
    {
        match self {
            Ranked::Ranked(t, _) => {
                let mut text = (*t).to_owned();
                text.append("*");
                text
            },
            Ranked::Unranked(t) => (*t).to_owned(),
        }
    }
}

impl<'a> AsRef<str> for Ranked<&'a str> {
    fn as_ref(&self) -> (word: &str)
        ensures
            word@ == match self {
                Ranked::Ranked(t, _) => t@,
                Ranked::Unranked(t) => t@,
            },
    {
        match self {
            Ranked::Ranked(t, _) => t,
            Ranked::Unranked(t) => t,
        }
    }
}

impl<T> PartialEq for Ranked<T> {
    fn eq(&self, other: &Self) -> (r: bool) {
        match compare_ranks(self.rank(), other.rank()) {
            Ordering::Equal => true,
            _ => false,
        }
    }
}

impl<T> PartialEqSpecImpl for Ranked<T> {
    open spec fn obeys_eq_spec() -> bool {
        true
    }

    open spec fn eq_spec(&self, other: &Self) -> bool {
        rank_order(self.rank_spec(), other.rank_spec()) == Ordering::Equal
    }
}

impl<T> Eq for Ranked<T> {

}

impl<T> PartialOrd for Ranked<T> {
    fn partial_cmp(&self, other: &Self) -> (r: Option<Ordering>) {
        Some(compare_ranks(self.rank(), other.rank()))
    }
}

impl<T> PartialOrdSpecImpl for Ranked<T> {
    open spec fn obeys_partial_cmp_spec() -> bool {
        true
    }

    open spec fn partial_cmp_spec(&self, other: &Self) -> Option<Ordering> {
        Some(rank_order(self.rank_spec(), other.rank_spec()))
    }
}

/// The text under which a word is ranked: its letters.
pub open spec fn key_text(word: Seq<char>) -> Seq<char> {
    ascii_text(word_letters(word))
}

/// The texts under which the words of a list are ranked.
pub open spec fn keys_of(words: Seq<Seq<char>>) -> Seq<Seq<char>> {
    Seq::new(words.len(), |i: int| key_text(words[i]))
}

/// The keys without their repeats: each stands where it first occurs.
pub open spec fn unique(keys: Seq<Seq<char>>) -> Seq<Seq<char>>
    decreases keys.len(),
{
    if keys.len() == 0 {
        Seq::empty()
    } else if unique(keys.drop_last()).contains(keys.last()) {
        unique(keys.drop_last())
    } else {
        unique(keys.drop_last()).push(keys.last())
    }
}

/// The ranks of the keys of a list that goes from the most popular down: the first key has
/// rank 1, and each key that has not come before has the next rank.
pub open spec fn ranking(keys: Seq<Seq<char>>) -> Map<Seq<char>, u32>
    decreases keys.len(),
{
    if keys.len() == 0 {
        Map::empty()
    } else if ranking(keys.drop_last()).contains_key(keys.last()) {
        ranking(keys.drop_last())
    } else {
        ranking(keys.drop_last()).insert(
            keys.last(),
            (unique(keys.drop_last()).len() + 1) as u32,
        )
    }
}

/// The rank of a word with the given letters, if it has one.
pub open spec fn rank_of(ranks: Map<Seq<char>, u32>, letters: Seq<u8>) -> Option<u32> {
    if ranks.contains_key(ascii_text(letters)) {
        Some(ranks[ascii_text(letters)])
    } else {
        None
    }
}

/// The number by which a word is sorted: its rank, or a number above every rank.
pub open spec fn sort_key(rank: Option<u32>) -> int {
    match rank {
        Some(r) => r as int,
        None => u32::MAX + 1,
    }
}

/// The number by which a word is sorted under a ranking.
pub open spec fn word_key(ranked: Map<Seq<char>, u32>, word: Seq<char>) -> int {
    sort_key(rank_of(ranked, word_letters(word)))
}

/// `after` is `before` sorted by rank, most popular first, words that sort alike staying in the
/// order in which they stood: the word at place `i` of `after` stood at place `from[i]`.
pub open spec fn sorted_by_rank(
    ranked: Map<Seq<char>, u32>,
    before: Seq<&str>,
    after: Seq<&str>,
    from: Seq<int>,
) -> bool {
    &&& is_arrangement(from, before.len())
    &&& after.len() == before.len()
    &&& forall|i: int| 0 <= i < after.len() ==> #[trigger] after[i] == before[from[i]]
    &&& forall|i: int, j: int|
        0 <= i < j < after.len() ==> precedes(
            word_key(ranked, before[from[i]]@),
            from[i],
            word_key(ranked, before[from[j]]@),
            from[j],
        )
}

/// Rank words by their popularity. The most popular English words are
/// `you I to the a and that it of me`. After the most popular
/// 1000, the next five are `acting accept blow strange saved`.
pub struct Popularity {
    words: StringHashMap<u32>,
}

impl View for Popularity {
    type V = Map<Seq<char>, u32>;

    closed spec fn view(&self) -> Map<Seq<char>, u32> {
        self.words@
    }
}

impl Default for Popularity {
    fn default() -> (r: Self)
        ensures
            r@ == Map::<Seq<char>, u32>::empty(),
    {
        Popularity::new()
    }
}

impl Popularity {
    /// A ranking without words.
    pub fn new() -> (r: Self)
        ensures
            r@ == Map::<Seq<char>, u32>::empty(),
    {
        Popularity { words: StringHashMap::new() }
    }

    /// Ranks the words of a list from the most popular down: the first has rank 1. A word is
    /// known by its letters, and one that has come before is passed over.
    pub fn from(words: &[&str]) -> (r: Self)
        requires
            words@.len() <= u32::MAX,
        ensures
            r@ == ranking(keys_of(word_views(words@))),
    {
        let ghost keys = keys_of(word_views(words@));
        let mut ranks: StringHashMap<u32> = StringHashMap::new();
        let mut count: u32 = 0;
        let mut i: usize = 0;
        proof {
            assert(keys.take(0) =~= Seq::<Seq<char>>::empty());
        }
        while i < words.len()
            invariant
                i <= words.len(),
                words@.len() <= u32::MAX,
                keys == keys_of(word_views(words@)),
                ranks@ == ranking(keys.take(i as int)),
                count == unique(keys.take(i as int)).len(),
                count <= i,
                forall|key: Seq<char>|
                    ranks@.contains_key(key) <==> unique(keys.take(i as int)).contains(key),
            decreases words.len() - i,
        {
            let key = parse_word(words[i]).0;
            let ghost had = unique(keys.take(i as int));
            proof {
                assert(keys.take(i + 1).drop_last() =~= keys.take(i as int));
                assert(keys.take(i + 1).last() == ascii_text(key@));
            }
            if !ranks.contains_key(key.to_str()) {
                count = count + 1;
                ranks.insert(key.to_str().to_owned(), count);
            }
            proof {
                assert forall|text: Seq<char>|
                    ranks@.contains_key(text) <==> unique(keys.take(i + 1)).contains(text) by {
                    lemma_seq_contains_after_push(had, ascii_text(key@), text);
                }
            }
            i += 1;
        }
        assert(keys.take(i as int) =~= keys);
        Popularity { words: ranks }
    }

    /// The rank of a key, if it has one.
    pub fn find(&self, key: &AsciiString) -> (r: Option<u32>)
        ensures
            r == rank_of(self@, key@),
    {
        match self.words.get(key.to_str()) {
            Some(rank) => Some(*rank),
            None => None,
        }
    }

    /// Tells whether the word has a rank.
    pub fn is_ranked(&self, word: &str) -> (r: bool)
        ensures
            r == rank_of(self@, word_letters(word@)) is Some,
    {
        let key = parse_word(word).0;
        self.find(&key).is_some()
    }

    /// The word with its rank, if it has one.
    pub fn to_ranked<'a>(&self, word: &'a str) -> (r: Ranked<&'a str>)
        ensures
            r == match rank_of(self@, word_letters(word@)) {
                Some(rank) => Ranked::Ranked(word, rank),
                None => Ranked::Unranked(word),
            },
    {
        let key = parse_word(word).0;
        match self.find(&key) {
            Some(rank) => Ranked::Ranked(word, rank),
            None => Ranked::Unranked(word),
        }
    }

    /// Compare strings according to this ranking.
    /// * If both are ranked, nearer the top means smaller.
    /// * If only one is ranked, that's the smaller one.
    /// * If both are unranked, sort them equally.
    pub fn cmp(&self, a: &AsciiString, b: &AsciiString) -> (r: Ordering)
        ensures
            r == rank_order(rank_of(self@, a@), rank_of(self@, b@)),
    {
        compare_ranks(self.find(a), self.find(b))
    }

    /// The number by which a word is sorted under this ranking.
    fn key_of(&self, word: &str) -> (k: u64)
        ensures
            k == word_key(self@, word@),
    {
        let key = parse_word(word).0;
        match self.find(&key) {
            Some(rank) => rank as u64,
            None => 0x1_0000_0000,
        }
    }

    /// Sort strings by this ranking, most popular first. Unranked words
    /// remain in their relative positions at the end of the list, and so do words of the same
    /// rank among themselves.
    pub fn sort(&self, array: &mut Vec<&str>)
        ensures
            exists|from: Seq<int>| sorted_by_rank(self@, old(array)@, final(array)@, from),
    {
        let n = array.len();
        let ghost before = array@;
        let ghost ranked = self@;
        let mut keys: Vec<u64> = Vec::new();
        let mut m: usize = 0;
        while m < n
            invariant
                m <= n,
                n == array@.len(),
                array@ == before,
                ranked == self@,
                keys@.len() == m,
                forall|k: int| 0 <= k < m ==> #[trigger] keys@[k] == word_key(ranked, before[k]@),
            decreases n - m,
        {
            keys.push(self.key_of(array[m]));
            m += 1;
        }
        let order = stable_order(&keys);
        let ghost from = places(order@);
        let mut sorted: Vec<&str> = Vec::new();
        let mut i: usize = 0;
        while i < n
            invariant
                i <= n,
                n == array@.len(),
                array@ == before,
                from == places(order@),
                is_arrangement(from, n as nat),
                sorted@.len() == i,
                forall|k: int| 0 <= k < i ==> #[trigger] sorted@[k] == before[from[k]],
            decreases n - i,
        {
            assert(0 <= from[i as int] < n);
            sorted.push(array[order[i]]);
            i += 1;
        }
        let mut k: usize = 0;
        while k < n
            invariant
                k <= n,
                n == array@.len(),
                n == sorted@.len(),
                forall|a: int| 0 <= a < k ==> #[trigger] array@[a] == sorted@[a],
            decreases n - k,
        {
            array.set(k, sorted[k]);
            k += 1;
        }
        proof {
            assert(sorted_by_rank(ranked, before, array@, from)) by {
                assert forall|a: int, b: int| 0 <= a < b < array@.len() implies precedes(
                    word_key(ranked, before[from[a]]@),
                    from[a],
                    word_key(ranked, before[from[b]]@),
                    from[b],
                ) by {
                    assert(precedes(
                        keys@[from[a]] as int,
                        from[a],
                        keys@[from[b]] as int,
                        from[b],
                    ));
                }
            }
        }
    }
}

} // verus!

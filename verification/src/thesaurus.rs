//! Sets of synonyms, and the lookup of the terms that stand for a word.

pub mod word;
pub mod word_lengths;

pub use word::Word;
pub use word_lengths::WordLengths;

use crate::lexicon::results::word_views;
use crate::lines::{byte_lines, bytes_of, lemma_split_nonempty, lines_str, split, split_str};
use vstd::hash_map::StringHashMap;
use vstd::prelude::*;
use vstd::seq_lib::lemma_seq_contains_after_push;
use vstd::string::StringSliceAdditionalSpecFns;
use word::term_fits;

verus! {

/// The terms that stand for one another, by their numbers; the first is the headword.
#[derive(Default, Debug, PartialEq)]
pub struct SynonymSet {
    word_ids: Vec<u32>,
}

/// What a [`Thesaurus`] holds, as mathematical values.
pub ghost struct ThesaurusView {
    /// The sets of synonyms in the order in which they came, each as the numbers of its terms.
    pub entries: Seq<Seq<u32>>,
    /// The terms in the order in which they first came: the number of a term is its place here.
    pub terms: Seq<Seq<char>>,
}

/// The term texts of a list of words.
pub open spec fn terms_view(words: Seq<Word>) -> Seq<Seq<char>> {
    Seq::new(words.len(), |i: int| words[i].term@)
}

/// The numbers of each of the sets.
pub closed spec fn sets_view(sets: Seq<SynonymSet>) -> Seq<Seq<u32>> {
    Seq::new(sets.len(), |i: int| sets[i].word_ids@)
}

/// The place of a term among the terms; 0 for a term that is not among them.
pub open spec fn place(terms: Seq<Seq<char>>, term: Seq<char>) -> int {
    match terms.index_of_first(term) {
        Some(i) => i,
        None => 0,
    }
}

/// The terms with those of the names that are new among them, each added where it first comes.
pub open spec fn with_terms(terms: Seq<Seq<char>>, names: Seq<Seq<char>>) -> Seq<Seq<char>>
    decreases names.len(),
{
    if names.len() == 0 {
        terms
    } else if with_terms(terms, names.drop_last()).contains(names.last()) {
        with_terms(terms, names.drop_last())
    } else {
        with_terms(terms, names.drop_last()).push(names.last())
    }
}

/// The numbers of the names among the terms.
pub open spec fn ids_of(terms: Seq<Seq<char>>, names: Seq<Seq<char>>) -> Seq<u32> {
    Seq::new(names.len(), |i: int| place(terms, names[i]) as u32)
}

/// The thesaurus with one more set of synonyms.
pub open spec fn with_entry(v: ThesaurusView, names: Seq<Seq<char>>) -> ThesaurusView {
    let terms = with_terms(v.terms, names);
    ThesaurusView { entries: v.entries.push(ids_of(terms, names)), terms }
}

/// The names that a line of the thesaurus holds, with a comma between each two.
pub open spec fn names_of(line: Seq<u8>) -> Seq<Seq<char>> {
    let pieces = split(line, 0x2cu8);
    Seq::new(pieces.len(), |j: int| vstd::utf8::decode_utf8(pieces[j]))
}

/// The thesaurus that the lines give, each line a set of synonyms.
pub open spec fn imported(lines: Seq<Seq<u8>>) -> ThesaurusView
    decreases lines.len(),
{
    if lines.len() == 0 {
        ThesaurusView { entries: Seq::empty(), terms: Seq::empty() }
    } else {
        with_entry(imported(lines.drop_last()), names_of(lines.last()))
    }
}

/// The number of names on all the lines together.
pub open spec fn name_total(lines: Seq<Seq<u8>>) -> nat
    decreases lines.len(),
{
    if lines.len() == 0 {
        0
    } else {
        name_total(lines.drop_last()) + split(lines.last(), 0x2cu8).len()
    }
}

/// The lines can be taken into a thesaurus: every name on them has at most 255 letters, and
/// there are no more names than 32 bits can number.
pub open spec fn can_import(lines: Seq<Seq<u8>>) -> bool {
    &&& name_total(lines) <= u32::MAX
    &&& forall|i: int, j: int|
        0 <= i < lines.len() && 0 <= j < split(lines[i], 0x2cu8).len() ==> term_fits(
            #[trigger] split(lines[i], 0x2cu8)[j],
        )
}

/// The first of the sets whose headword has the given number.
pub open spec fn headword_entry(entries: Seq<Seq<u32>>, id: u32) -> Option<int>
    decreases entries.len(),
{
    if entries.len() == 0 {
        None
    } else if entries[0].len() > 0 && entries[0][0] == id {
        Some(0)
    } else {
        match headword_entry(entries.drop_first(), id) {
            Some(e) => Some(e + 1),
            None => None,
        }
    }
}

/// The headwords of the sets that hold the given number, in the order of the sets.
pub open spec fn headwords_with(entries: Seq<Seq<u32>>, id: u32) -> Seq<u32>
    decreases entries.len(),
{
    if entries.len() == 0 {
        Seq::empty()
    } else if entries.last().contains(id) && entries.last().len() > 0 {
        headwords_with(entries.drop_last(), id).push(entries.last()[0])
    } else {
        headwords_with(entries.drop_last(), id)
    }
}

/// The numbers without their repeats: each stands where it first occurs.
pub open spec fn unique_ids(ids: Seq<u32>) -> Seq<u32>
    decreases ids.len(),
{
    if ids.len() == 0 {
        Seq::empty()
    } else if unique_ids(ids.drop_last()).contains(ids.last()) {
        unique_ids(ids.drop_last())
    } else {
        unique_ids(ids.drop_last()).push(ids.last())
    }
}

/// The numbers of the terms that the thesaurus gives for a word: the set of which the word is
/// the headword, if there is one, else the headwords of the sets in which it stands; each once.
/// None for a word that the thesaurus does not know.
pub open spec fn synonym_ids(v: ThesaurusView, word: Seq<char>) -> Seq<u32> {
    match v.terms.index_of_first(word) {
        None => Seq::empty(),
        Some(id) => match headword_entry(v.entries, id as u32) {
            Some(e) => unique_ids(v.entries[e]),
            None => unique_ids(headwords_with(v.entries, id as u32)),
        },
    }
}

/// Tells whether the number is among the numbers.
fn has_id(ids: &Vec<u32>, id: u32) -> (r: bool)
    ensures
        r == ids@.contains(id),
{
    let mut i: usize = 0;
    while i < ids.len()
        invariant
            i <= ids.len(),
            forall|k: int| 0 <= k < i ==> ids@[k] != id,
        decreases ids.len() - i,
    {
        if ids[i] == id {
            return true;
        }
        i += 1;
    }
    false
}

/// Drops the repeats from a list of numbers.
fn unique_list(ids: &Vec<u32>) -> (r: Vec<u32>)
    ensures
        r@ == unique_ids(ids@),
{
    let mut out: Vec<u32> = Vec::new();
    let mut i: usize = 0;
    assert(ids@.take(0) =~= Seq::<u32>::empty());
    while i < ids.len()
        invariant
            i <= ids.len(),
            out@ == unique_ids(ids@.take(i as int)),
        decreases ids.len() - i,
    {
        proof {
            assert(ids@.take(i + 1).drop_last() =~= ids@.take(i as int));
        }
        if !has_id(&out, ids[i]) {
            out.push(ids[i]);
        }
        i += 1;
    }
    assert(ids@.take(i as int) =~= ids@);
    out
}

/// Sets of words and phrases that stand for one another.
pub struct Thesaurus {
    entries: Vec<SynonymSet>,
    known_terms: Vec<Word>,
    words_lookup: StringHashMap<u32>,
}

impl Default for Thesaurus {
    fn default() -> (r: Self)
        ensures
            r@ == imported(Seq::empty()),
    {
        Thesaurus::new()
    }
}

impl View for Thesaurus {
    type V = ThesaurusView;

    closed spec fn view(&self) -> ThesaurusView {
        ThesaurusView { entries: sets_view(self.entries@), terms: terms_view(self.known_terms@) }
    }
}

/// The table of numbers holds each term with its number and nothing else, no term stands
/// twice, the terms are no more than 32 bits can number, and every term has the lengths of its
/// words with it.
pub closed spec fn terms_wf(known: Seq<Word>, table: Map<Seq<char>, u32>) -> bool {
    let terms = terms_view(known);
    &&& forall|i: int|
        0 <= i < terms.len() ==> table.contains_key(#[trigger] terms[i]) && table[terms[i]] == i
    &&& forall|term: Seq<char>| #[trigger] table.contains_key(term) ==> terms.contains(term)
    &&& terms.no_duplicates()
    &&& terms.len() <= u32::MAX
    &&& forall|i: int| 0 <= i < known.len() ==> (#[trigger] known[i]).wf()
}

/// Every set has a headword, and every number in a set is that of a term.
pub closed spec fn sets_wf(entries: Seq<Seq<u32>>, terms: nat) -> bool {
    &&& forall|e: int| 0 <= e < entries.len() ==> (#[trigger] entries[e]).len() > 0
    &&& forall|e: int, j: int|
        0 <= e < entries.len() && 0 <= j < entries[e].len() ==> (#[trigger] entries[e][j]) < terms
}

/// The number of a word, if it is among the known terms.
fn number_of(known: &Vec<Word>, table: &StringHashMap<u32>, word: &str) -> (r: Option<u32>)
    requires
        terms_wf(known@, table@),
    ensures
        r is Some <==> terms_view(known@).index_of_first(word@) is Some,
        r matches Some(id) ==> terms_view(known@).index_of_first(word@) == Some(id as int),
{
    let ghost terms = terms_view(known@);
    proof {
        terms.index_of_first_ensures(word@);
    }
    match table.get(word) {
        Some(id) => {
            proof {
                assert(terms.contains(word@));
                let at = terms.index_of_first(word@)->0;
                assert(table@[terms[at]] == at);
            }
            Some(*id)
        },
        None => {
            proof {
                if terms.contains(word@) {
                    let i = choose|i: int| 0 <= i < terms.len() && terms[i] == word@;
                    assert(table@.contains_key(terms[i]));
                }
            }
            None
        },
    }
}

impl Thesaurus {
    /// The invariant of the type: the sets and the terms are as [`sets_wf`] and [`terms_wf`]
    /// say.
    #[verifier::type_invariant]
    pub closed spec fn wf(&self) -> bool {
        &&& terms_wf(self.known_terms@, self.words_lookup@)
        &&& sets_wf(sets_view(self.entries@), self.known_terms@.len())
    }

    /// A thesaurus without terms.
    pub fn new() -> (r: Self)
        ensures
            r@ == imported(Seq::empty()),
    {
        let r = Thesaurus {
            entries: Vec::new(),
            known_terms: Vec::new(),
            words_lookup: StringHashMap::new(),
        };
        proof {
            assert(r@.entries =~= Seq::<Seq<u32>>::empty());
            assert(r@.terms =~= Seq::<Seq<char>>::empty());
        }
        r
    }

    /// Tells whether the lines can be taken into a thesaurus.
    pub fn importable(lines: &[&str]) -> (r: bool)
        ensures
            r == can_import(bytes_of(lines@)),
    {
        let ghost given = bytes_of(lines@);
        let mut total: usize = 0;
        let mut i: usize = 0;
        proof {
            assert(given.take(0) =~= Seq::<Seq<u8>>::empty());
        }
        while i < lines.len()
            invariant
                i <= lines.len(),
                given == bytes_of(lines@),
                total == name_total(given.take(i as int)),
                total <= u32::MAX,
                forall|a: int, b: int|
                    0 <= a < i && 0 <= b < split(given[a], 0x2cu8).len() ==> term_fits(
                        #[trigger] split(given[a], 0x2cu8)[b],
                    ),
            decreases lines.len() - i,
        {
            let names = split_str(lines[i], 0x2c);
            proof {
                assert(given.take(i + 1).drop_last() =~= given.take(i as int));
                assert(given.take(i + 1).last() == given[i as int]);
                lemma_name_total_prefix(given, i + 1);
            }
            if names.len() > 0xffff_ffff - total {
                return false;
            }
            total = total + names.len();
            let mut j: usize = 0;
            while j < names.len()
                invariant
                    j <= names.len(),
                    0 <= i < lines@.len(),
                    given == bytes_of(lines@),
                    bytes_of(names@) == split(given[i as int], 0x2cu8),
                    forall|b: int|
                        0 <= b < j ==> term_fits(#[trigger] split(given[i as int], 0x2cu8)[b]),
                decreases names.len() - j,
            {
                assert(bytes_of(names@)[j as int] == names@[j as int].spec_bytes());
                if !Word::fits(names[j]) {
                    assert(!term_fits(split(given[i as int], 0x2cu8)[j as int]));
                    return false;
                }
                j += 1;
            }
            i += 1;
        }
        proof {
            assert(given.take(i as int) =~= given);
        }
        true
    }

    /// Reads a thesaurus from its text: each line is a set of synonyms.
    pub fn init(text: &'static str) -> (r: Self)
        requires
            can_import(byte_lines(text.spec_bytes())),
        ensures
            r@ == imported(byte_lines(text.spec_bytes())),
    {
        let lines = lines_str(text);
        Thesaurus::import(lines.as_slice())
    }

    /// Reads a thesaurus from its lines: each line is a set of synonyms with a comma between
    /// each two, the headword first.
    pub fn import(lines: &[&'static str]) -> (r: Self)
        requires
            can_import(bytes_of(lines@)),
        ensures
            r@ == imported(bytes_of(lines@)),
    {
        let ghost given = bytes_of(lines@);
        let mut thesaurus = Thesaurus::new();
        let mut i: usize = 0;
        proof {
            assert(given.take(0) =~= Seq::<Seq<u8>>::empty());
        }
        while i < lines.len()
            invariant
                i <= lines.len(),
                given == bytes_of(lines@),
                can_import(given),
                thesaurus@ == imported(given.take(i as int)),
                thesaurus@.terms.len() <= name_total(given.take(i as int)),
            decreases lines.len() - i,
        {
            let names = split_str(lines[i], 0x2c);
            proof {
                let line = given[i as int];
                let pieces = split(line, 0x2cu8);
                lemma_split_nonempty(line, 0x2cu8);
                assert(given.take(i + 1).drop_last() =~= given.take(i as int));
                assert(given.take(i + 1).last() == line);
                lemma_name_total_prefix(given, i + 1);
                assert forall|j: int| 0 <= j < names@.len() implies term_fits(
                    (#[trigger] names@[j]).spec_bytes(),
                ) by {
                    assert(bytes_of(names@)[j] == pieces[j]);
                }
                assert(word_views(names@) =~= names_of(line)) by {
                    assert forall|j: int| 0 <= j < names@.len() implies names@[j]@
                        == vstd::utf8::decode_utf8(pieces[j]) by {
                        assert(bytes_of(names@)[j] == pieces[j]);
                        vstd::utf8::encode_utf8_decode_utf8(names@[j]@);
                    }
                }
            }
            let ghost before = thesaurus@.terms;
            thesaurus.push(names.as_slice());
            proof {
                lemma_with_terms_len(before, word_views(names@));
            }
            i += 1;
        }
        assert(given.take(i as int) =~= given);
        thesaurus
    }

    /// Adds a set of synonyms, the headword first. A term that is known keeps its number; a
    /// new one gets the next.
    pub fn push(&mut self, synonyms: &[&'static str])
        requires
            synonyms@.len() > 0,
            forall|i: int|
                0 <= i < synonyms@.len() ==> term_fits((#[trigger] synonyms@[i]).spec_bytes()),
            old(self)@.terms.len() + synonyms@.len() <= u32::MAX,
        ensures
            final(self)@ == with_entry(old(self)@, word_views(synonyms@)),
    {
        proof {
            use_type_invariant(&*self);
        }
        let ghost names = word_views(synonyms@);
        let ghost start = self@.terms;
        let ghost sets = self@.entries;
        let mut taken = Thesaurus::new();
        std::mem::swap(self, &mut taken);
        let Thesaurus { entries, known_terms, words_lookup } = taken;
        let mut entries = entries;
        let mut known_terms = known_terms;
        let mut words_lookup = words_lookup;
        let mut word_ids: Vec<u32> = Vec::new();
        let mut k: usize = 0;
        proof {
            assert(names.take(0) =~= Seq::<Seq<char>>::empty());
        }
        while k < synonyms.len()
            invariant
                k <= synonyms.len(),
                names == word_views(synonyms@),
                forall|i: int|
                    0 <= i < synonyms@.len() ==> term_fits((#[trigger] synonyms@[i]).spec_bytes()),
                start.len() + synonyms@.len() <= u32::MAX,
                terms_view(known_terms@) == with_terms(start, names.take(k as int)),
                known_terms@.len() <= start.len() + k,
                terms_wf(known_terms@, words_lookup@),
                word_ids@.len() == k,
                forall|i: int|
                    0 <= i < k ==> (#[trigger] word_ids@[i]) < known_terms@.len() && terms_view(
                        known_terms@,
                    )[word_ids@[i] as int] == names[i],
            decreases synonyms.len() - k,
        {
            let term = synonyms[k];
            let ghost terms = terms_view(known_terms@);
            proof {
                assert(names.take(k + 1).drop_last() =~= names.take(k as int));
                assert(names.take(k + 1).last() == term@);
                terms.index_of_first_ensures(term@);
            }
            let id = match number_of(&known_terms, &words_lookup, term) {
                Some(at) => at,
                None => {
                    let at = known_terms.len() as u32;
                    let ghost table = words_lookup@;
                    known_terms.push(Word::new(term));
                    words_lookup.insert(term.to_owned(), at);
                    proof {
                        let now = terms_view(known_terms@);
                        assert(now =~= terms.push(term@));
                        assert(words_lookup@ == table.insert(term@, at));
                        assert forall|i: int| 0 <= i < now.len() implies words_lookup@.contains_key(
                            #[trigger] now[i],
                        ) && words_lookup@[now[i]] == i by {
                            if i < terms.len() {
                                assert(terms.contains(terms[i]));
                                assert(table.contains_key(terms[i]));
                            }
                        }
                        assert forall|name: Seq<char>| #[trigger]
                            words_lookup@.contains_key(name) implies now.contains(name) by {
                            if name == term@ {
                                assert(now[terms.len() as int] == name);
                            } else {
                                assert(table.contains_key(name));
                                let i = choose|i: int| 0 <= i < terms.len() && terms[i] == name;
                                assert(now[i] == name);
                            }
                        }
                        assert forall|a: int, b: int| 0 <= a < b < now.len() implies now[a]
                            != now[b] by {
                            if b == terms.len() {
                                assert(terms.contains(terms[a]));
                            } else {
                                assert(terms[a] != terms[b]);
                            }
                        }
                    }
                    at
                },
            };
            word_ids.push(id);
            k += 1;
        }
        proof {
            assert(names.take(k as int) =~= names);
        }
        let ghost terms = terms_view(known_terms@);
        let ghost ids = word_ids@;
        entries.push(SynonymSet { word_ids });
        proof {
            assert(ids =~= ids_of(terms, names)) by {
                assert forall|i: int| 0 <= i < names.len() implies ids[i] == place(
                    terms,
                    names[i],
                ) as u32 by {
                    let at = ids[i] as int;
                    assert(terms[at] == names[i]);
                    assert(terms.contains(names[i]));
                    terms.index_of_first_ensures(names[i]);
                    let first = terms.index_of_first(names[i])->0;
                    if first != at {
                        assert(terms[first] == terms[at]);
                    }
                }
            }
            assert(sets_view(entries@) =~= sets.push(ids));
            lemma_with_terms_len(start, names);
            assert forall|e: int, j: int|
                0 <= e < sets_view(entries@).len() && 0 <= j < sets_view(
                    entries@,
                )[e].len() implies (#[trigger] sets_view(entries@)[e][j]) < known_terms@.len() by {
                if e < sets.len() {
                    assert(sets[e][j] < start.len());
                    lemma_with_terms_grow(start, names);
                } else {
                    assert(ids[j] < known_terms@.len());
                }
            }
        }
        *self = Thesaurus { entries, known_terms, words_lookup };
    }

    /// The terms that the thesaurus gives for a word: the set of which the word is the
    /// headword, if there is one, else the headwords of the sets in which it stands.
    pub fn lookup<'a>(&'a self, word: &str) -> (r: Vec<&'a Word>)
        ensures
            r@.len() == synonym_ids(self@, word@).len(),
            forall|i: int|
                0 <= i < r@.len() ==> (#[trigger] r@[i]).term@ == self@.terms[synonym_ids(
                    self@,
                    word@,
                )[i] as int] && r@[i].wf(),
    {
        proof {
            use_type_invariant(self);
        }
        let ids = match self.lookup_word(word) {
            Some(word_id) => match self.list_single_entry(word_id) {
                Some(ids) => ids,
                None => self.list_match_headwords(word_id),
            },
            None => Vec::new(),
        };
        proof {
            self@.terms.index_of_first_ensures(word@);
            assert(ids@ == synonym_ids(self@, word@));
            assert(sets_wf(self@.entries, self@.terms.len()));
            lemma_ids_in_range(self@, word@);
        }
        let mut out: Vec<&'a Word> = Vec::new();
        let mut i: usize = 0;
        while i < ids.len()
            invariant
                i <= ids.len(),
                terms_wf(self.known_terms@, self.words_lookup@),
                ids@ == synonym_ids(self@, word@),
                forall|k: int| 0 <= k < ids@.len() ==> (#[trigger] ids@[k]) < self@.terms.len(),
                out@.len() == i,
                forall|k: int|
                    0 <= k < i ==> (#[trigger] out@[k]).term@ == self@.terms[ids@[k] as int]
                        && out@[k].wf(),
            decreases ids.len() - i,
        {
            let id = ids[i] as usize;
            assert(self@.terms.len() == self.known_terms@.len());
            out.push(&self.known_terms[id]);
            i += 1;
        }
        out
    }

    /// The terms of the first set whose headword has the given number, each once.
    fn list_single_entry(&self, word_id: u32) -> (r: Option<Vec<u32>>)
        ensures
            r is Some <==> headword_entry(self@.entries, word_id) is Some,
            r matches Some(ids) ==> ids@ == unique_ids(
                self@.entries[headword_entry(self@.entries, word_id)->0],
            ),
    {
        let ghost all = self@.entries;
        let mut e: usize = 0;
        proof {
            assert(all.skip(0) =~= all);
        }
        while e < self.entries.len()
            invariant
                e <= self.entries.len(),
                all == self@.entries,
                headword_entry(all, word_id) == match headword_entry(all.skip(e as int), word_id) {
                    Some(at) => Some(at + e),
                    None => None,
                },
            decreases self.entries.len() - e,
        {
            proof {
                assert(all.skip(e as int)[0] == all[e as int]);
                assert(all.skip(e as int).drop_first() =~= all.skip(e + 1));
            }
            let set = &self.entries[e].word_ids;
            if set.len() > 0 && set[0] == word_id {
                return Some(unique_list(set));
            }
            e += 1;
        }
        None
    }

    /// The headwords of the sets that hold the given number, each once.
    fn list_match_headwords(&self, word_id: u32) -> (r: Vec<u32>)
        ensures
            r@ == unique_ids(headwords_with(self@.entries, word_id)),
    {
        let ghost all = self@.entries;
        let mut heads: Vec<u32> = Vec::new();
        let mut e: usize = 0;
        proof {
            assert(all.take(0) =~= Seq::<Seq<u32>>::empty());
        }
        while e < self.entries.len()
            invariant
                e <= self.entries.len(),
                all == self@.entries,
                heads@ == headwords_with(all.take(e as int), word_id),
            decreases self.entries.len() - e,
        {
            proof {
                assert(all.take(e + 1).drop_last() =~= all.take(e as int));
                assert(all.take(e + 1).last() == all[e as int]);
            }
            let set = &self.entries[e].word_ids;
            if has_id(set, word_id) && set.len() > 0 {
                heads.push(set[0]);
            }
            e += 1;
        }
        proof {
            assert(all.take(e as int) =~= all);
        }
        unique_list(&heads)
    }

    /// The number of a word, if the thesaurus knows it.
    fn lookup_word(&self, word: &str) -> (r: Option<u32>)
        ensures
            r is Some <==> self@.terms.index_of_first(word@) is Some,
            r matches Some(id) ==> self@.terms.index_of_first(word@) == Some(id as int),
    {
        proof {
            use_type_invariant(self);
        }
        number_of(&self.known_terms, &self.words_lookup, word)
    }
}

/// The names of a prefix of the lines are no more than those of all the lines.
proof fn lemma_name_total_prefix(lines: Seq<Seq<u8>>, k: int)
    requires
        0 <= k <= lines.len(),
    ensures
        name_total(lines.take(k)) <= name_total(lines),
    decreases lines.len() - k,
{
    if k < lines.len() {
        assert(lines.take(k + 1).drop_last() =~= lines.take(k));
        lemma_name_total_prefix(lines, k + 1);
    } else {
        assert(lines.take(k) =~= lines);
    }
}

/// Adding names takes no term away.
proof fn lemma_with_terms_grow(terms: Seq<Seq<char>>, names: Seq<Seq<char>>)
    ensures
        terms.len() <= with_terms(terms, names).len(),
    decreases names.len(),
{
    if names.len() > 0 {
        lemma_with_terms_grow(terms, names.drop_last());
    }
}

/// Adding names adds no more terms than there are names.
proof fn lemma_with_terms_len(terms: Seq<Seq<char>>, names: Seq<Seq<char>>)
    ensures
        with_terms(terms, names).len() <= terms.len() + names.len(),
    decreases names.len(),
{
    if names.len() > 0 {
        lemma_with_terms_len(terms, names.drop_last());
    }
}

/// Every number that a lookup gives is that of a term.
proof fn lemma_ids_in_range(v: ThesaurusView, word: Seq<char>)
    requires
        forall|e: int, j: int|
            0 <= e < v.entries.len() && 0 <= j < v.entries[e].len() ==> (#[trigger] v.entries[e][j])
                < v.terms.len(),
    ensures
        forall|k: int|
            0 <= k < synonym_ids(v, word).len() ==> (#[trigger] synonym_ids(v, word)[k])
                < v.terms.len(),
{
    match v.terms.index_of_first(word) {
        None => {},
        Some(id) => {
            match headword_entry(v.entries, id as u32) {
                Some(e) => {
                    lemma_headword_entry_range(v.entries, id as u32);
                    lemma_unique_ids_subset(v.entries[e]);
                    assert forall|k: int| 0 <= k < synonym_ids(v, word).len() implies (
                    #[trigger] synonym_ids(v, word)[k]) < v.terms.len() by {
                        let x = synonym_ids(v, word)[k];
                        assert(unique_ids(v.entries[e]).contains(x));
                        assert(v.entries[e].contains(x));
                        let j = choose|j: int| 0 <= j < v.entries[e].len() && v.entries[e][j] == x;
                        assert(v.entries[e][j] < v.terms.len());
                    }
                },
                None => {
                    let heads = headwords_with(v.entries, id as u32);
                    lemma_headwords_in_range(v.entries, id as u32, v.terms.len());
                    lemma_unique_ids_subset(heads);
                    assert forall|k: int| 0 <= k < synonym_ids(v, word).len() implies (
                    #[trigger] synonym_ids(v, word)[k]) < v.terms.len() by {
                        let x = synonym_ids(v, word)[k];
                        assert(unique_ids(heads).contains(x));
                        assert(heads.contains(x));
                    }
                },
            }
        },
    }
}

/// The set that `headword_entry` names is one of the sets.
proof fn lemma_headword_entry_range(entries: Seq<Seq<u32>>, id: u32)
    ensures
        headword_entry(entries, id) matches Some(e) ==> 0 <= e < entries.len(),
    decreases entries.len(),
{
    if entries.len() > 0 {
        lemma_headword_entry_range(entries.drop_first(), id);
    }
}

/// What is left without repeats was there before.
proof fn lemma_unique_ids_subset(ids: Seq<u32>)
    ensures
        forall|x: u32| unique_ids(ids).contains(x) ==> ids.contains(x),
    decreases ids.len(),
{
    if ids.len() > 0 {
        let init = ids.drop_last();
        lemma_unique_ids_subset(init);
        assert forall|x: u32| unique_ids(ids).contains(x) implies ids.contains(x) by {
            if unique_ids(init).contains(x) {
                assert(init.contains(x));
                let j = choose|j: int| 0 <= j < init.len() && init[j] == x;
                assert(ids[j] == x);
            } else {
                lemma_seq_contains_after_push(unique_ids(init), ids.last(), x);
                assert(x == ids.last());
                assert(ids[ids.len() - 1] == x);
            }
        }
    }
}

/// The headwords of sets whose numbers are below a bound are below it.
proof fn lemma_headwords_in_range(entries: Seq<Seq<u32>>, id: u32, bound: nat)
    requires
        forall|e: int, j: int|
            0 <= e < entries.len() && 0 <= j < entries[e].len() ==> (#[trigger] entries[e][j])
                < bound,
    ensures
        forall|x: u32| headwords_with(entries, id).contains(x) ==> x < bound,
    decreases entries.len(),
{
    if entries.len() > 0 {
        let init = entries.drop_last();
        assert forall|e: int, j: int| 0 <= e < init.len() && 0 <= j < init[e].len() implies (
        #[trigger] init[e][j]) < bound by {
            assert(init[e][j] == entries[e][j]);
        }
        lemma_headwords_in_range(init, id, bound);
        assert forall|x: u32| headwords_with(entries, id).contains(x) implies x < bound by {
            if !headwords_with(init, id).contains(x) {
                lemma_seq_contains_after_push(headwords_with(init, id), entries.last()[0], x);
                assert(entries[entries.len() - 1][0] < bound);
            }
        }
    }
}

} // verus!

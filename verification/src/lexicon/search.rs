//! The two kinds of query, each with what it matches and how it is shown.

use crate::ascii_string::{all_lower, byte_is_letter, byte_to_lower, is_letter, lower};
use crate::lexicon::entry::{lemma_sorted_is_letters_sorted, Entry, EntryView};
use crate::lexicon::parse_word::{
    lemma_letters_of_lower, lemma_letters_of_step, letters_of, transliterate, transliterated,
};
use crate::lexicon::search_key::SearchKey;
use crate::sorted_ascii::{ascending, lemma_sorted_bytes, sorted_bytes, SortedAscii};
use crate::text::{
    ascii_string, ascii_text, comma_joined, decimal, is_ascii_bytes, lemma_comma_joined_ascii,
    lemma_decimal_ascii, push_decimal,
};
use crate::word_breaks::{strictly_ascending, WordBreaks};
use vstd::prelude::*;
use vstd::seq_lib::lemma_seq_contains_after_push;
use vstd::string::StringSliceAdditionalSpecFns;
use vstd::utf8::encode_utf8;

verus! {

/// A query that can be held against the entries of a lexicon and shown to the user.
pub trait Matches {
    /// The entries that the query matches.
    spec fn accepts(&self, entry: EntryView) -> bool;

    /// The query as it is displayed.
    spec fn key_string(&self) -> Seq<char>;

    /// The length signature of the query, as ASCII bytes.
    spec fn key_len(&self) -> Seq<u8>;

    /// Tells whether the query matches the entry.
    fn matches(&self, entry: &Entry) -> (r: bool)
        ensures
            r == self.accepts(entry@),
    ;

    /// The display form and length signature of the query.
    fn search_key(&self) -> (key: SearchKey)
        ensures
            key.search_string@ == self.key_string(),
            key.len@ == ascii_text(self.key_len()),
    ;
}

/// The number of blanks, written `.`, among the bytes.
pub open spec fn blank_count(t: Seq<u8>) -> nat
    decreases t.len(),
{
    if t.len() == 0 {
        0
    } else if t.last() == 0x2e {
        blank_count(t.drop_last()) + 1
    } else {
        blank_count(t.drop_last())
    }
}

/// What an [`Anagram`] holds, as mathematical values.
pub ghost struct AnagramView {
    /// The letters that a match must have, in ascending order.
    pub pool: Seq<u8>,
    /// The number of further letters, of any kind, that a match must have.
    pub blanks: nat,
    /// The query as it was given.
    pub original: Seq<char>,
}

/// The anagram query that a text in ASCII stands for: its letters, sorted, are the pool, each
/// `.` is a blank, and every other byte is passed over.
pub open spec fn anagram_view(t: Seq<u8>, original: Seq<char>) -> AnagramView {
    AnagramView { pool: sorted_bytes(letters_of(t)), blanks: blank_count(t), original }
}

/// The entries that an anagram query matches: those with as many letters as the pool and the
/// blanks together, among which every letter of the pool occurs at least as often as in the pool.
pub open spec fn anagram_accepts(a: AnagramView, e: EntryView) -> bool {
    &&& e.letters.len() == a.pool.len() + a.blanks
    &&& a.pool.to_multiset().subset_of(e.letters.to_multiset())
}

/// An anagram query with pool `L` and `n` blanks matches only entries of `|L| + n` letters among
/// which every byte value occurs at least as often as in `L`.
pub proof fn lemma_anagram_matches_only(a: AnagramView, e: EntryView)
    requires
        anagram_accepts(a, e),
    ensures
        e.letters.len() == a.pool.len() + a.blanks,
        forall|v: u8| a.pool.to_multiset().count(v) <= e.letters.to_multiset().count(v),
{
}

/// The pool of the anagram query that a text stands for is the letters of the text, rearranged:
/// what the query matches can be read off the text.
pub proof fn lemma_anagram_of_text(t: Seq<u8>, original: Seq<char>, e: EntryView)
    ensures
        anagram_accepts(anagram_view(t, original), e) <==> e.letters.len() == letters_of(t).len()
            + blank_count(t) && letters_of(t).to_multiset().subset_of(e.letters.to_multiset()),
{
    lemma_sorted_bytes(letters_of(t));
}

/// The blanks of a prefix that is one byte longer.
proof fn lemma_blank_count_step(t: Seq<u8>, k: int)
    requires
        0 <= k < t.len(),
    ensures
        blank_count(t.take(k + 1)) == blank_count(t.take(k)) + if t[k] == 0x2e {
            1nat
        } else {
            0nat
        },
{
    assert(t.take(k + 1).drop_last() =~= t.take(k));
    assert(t.take(k + 1).last() == t[k]);
}

/// A rearrangement of lowercase letters is lowercase letters.
proof fn lemma_rearranged_lower(a: Seq<u8>, b: Seq<u8>)
    requires
        all_lower(b),
        a.to_multiset() == b.to_multiset(),
    ensures
        all_lower(a),
{
    assert forall|i: int| 0 <= i < a.len() implies crate::ascii_string::is_lower(
        #[trigger] a[i],
    ) by {
        assert(a.contains(a[i]));
        vstd::seq_lib::to_multiset_contains(a, a[i]);
        vstd::seq_lib::to_multiset_contains(b, a[i]);
        let j = choose|j: int| 0 <= j < b.len() && b[j] == a[i];
        assert(crate::ascii_string::is_lower(b[j]));
    }
}

/// An anagram query: a pool of letters and a number of blanks.
pub struct Anagram {
    sorted: SortedAscii,
    num_blanks: usize,
    original: String,
}

impl View for Anagram {
    type V = AnagramView;

    closed spec fn view(&self) -> AnagramView {
        AnagramView {
            pool: self.sorted@,
            blanks: self.num_blanks as nat,
            original: self.original@,
        }
    }
}

impl Anagram {
    /// The invariant of the type: the pool is lowercase letters in ascending order, and the
    /// number of letters asked for fits the machine.
    #[verifier::type_invariant]
    pub open spec fn wf(&self) -> bool {
        &&& ascending(self@.pool)
        &&& all_lower(self@.pool)
        &&& self@.pool.len() + self@.blanks <= usize::MAX
    }

    /// Reads an anagram query: the text is transliterated into ASCII, its letters are the pool
    /// and each `.` is a blank.
    pub fn parse(input: &str) -> (a: Anagram)
        ensures
            a@ == anagram_view(encode_utf8(transliterated(input@)), input@),
    {
        let ascii = transliterate(input);
        Anagram::from_ascii(ascii.as_str().as_bytes(), input)
    }

    /// Reads an anagram query from its transliteration; `original` is the query as given.
    pub fn from_ascii(ascii: &[u8], original: &str) -> (a: Anagram)
        ensures
            a@ == anagram_view(ascii@, original@),
    {
        let mut num_blanks: usize = 0;
        let mut letters: Vec<u8> = Vec::new();
        let mut k: usize = 0;
        while k < ascii.len()
            invariant
                k <= ascii.len(),
                letters@ == letters_of(ascii@.take(k as int)),
                num_blanks == blank_count(ascii@.take(k as int)),
                letters@.len() + num_blanks <= k,
            decreases ascii.len() - k,
        {
            let b = ascii[k];
            proof {
                lemma_letters_of_step(ascii@, k as int);
                lemma_blank_count_step(ascii@, k as int);
            }
            if b == 0x2e {
                num_blanks += 1;
            } else if byte_is_letter(b) {
                letters.push(byte_to_lower(b));
            }
            k += 1;
        }
        assert(ascii@.take(k as int) =~= ascii@);
        let sorted = SortedAscii::from_bytes(letters.as_slice());
        proof {
            lemma_letters_of_lower(ascii@);
            lemma_rearranged_lower(sorted@, letters@);
        }
        Anagram { sorted, num_blanks, original: original.to_owned() }
    }

    /// The number of letters that a match has.
    pub fn len(&self) -> (n: usize)
        ensures
            n == self@.pool.len() + self@.blanks,
    {
        proof {
            use_type_invariant(self);
        }
        self.sorted.len() + self.num_blanks
    }

    /// The letters of the pool in alphabetical order.
    pub fn sorted(&self) -> (s: &SortedAscii)
        ensures
            s@ == self@.pool,
            self.wf(),
    {
        proof {
            use_type_invariant(self);
        }
        &self.sorted
    }

    /// The number of blanks.
    pub fn num_blanks(&self) -> (n: usize)
        ensures
            n == self@.blanks,
    {
        self.num_blanks
    }

    /// The query as it was given.
    pub fn original(&self) -> (s: &str)
        ensures
            s@ == self@.original,
    {
        self.original.as_str()
    }
}

impl Matches for Anagram {
    open spec fn accepts(&self, entry: EntryView) -> bool {
        anagram_accepts(self@, entry)
    }

    open spec fn key_string(&self) -> Seq<char> {
        self@.original
    }

    open spec fn key_len(&self) -> Seq<u8> {
        decimal(self@.pool.len() + self@.blanks)
    }

    fn matches(&self, entry: &Entry) -> (r: bool) {
        if self.len() != entry.len() {
            return false;
        }
        proof {
            lemma_sorted_is_letters_sorted(entry@.word);
        }
        self.sorted.is_subset(entry.sorted())
    }

    fn search_key(&self) -> (key: SearchKey) {
        let mut len: Vec<u8> = Vec::new();
        push_decimal(&mut len, self.len());
        proof {
            lemma_decimal_ascii((self@.pool.len() + self@.blanks) as nat);
            assert(len@ =~= decimal((self@.pool.len() + self@.blanks) as nat));
        }
        SearchKey { search_string: self.original.clone(), len: ascii_string(len.as_slice()) }
    }
}

/// The byte stands in a find-word pattern: a letter, or `.` for any letter.
pub open spec fn is_pattern_byte(b: u8) -> bool {
    b == 0x2e || is_letter(b)
}

/// The pattern that a text in ASCII spells: its letters, lowercased, and its `.`s, in their
/// order.
pub open spec fn pattern_of(t: Seq<u8>) -> Seq<u8>
    decreases t.len(),
{
    if t.len() == 0 {
        Seq::empty()
    } else if is_pattern_byte(t.last()) {
        pattern_of(t.drop_last()).push(lower(t.last()))
    } else {
        pattern_of(t.drop_last())
    }
}

/// The display form of a find-word query: the pattern with a `/` wherever the text has one.
pub open spec fn display_of(t: Seq<u8>) -> Seq<u8>
    decreases t.len(),
{
    if t.len() == 0 {
        Seq::empty()
    } else if is_pattern_byte(t.last()) {
        display_of(t.drop_last()).push(lower(t.last()))
    } else if t.last() == 0x2f {
        display_of(t.drop_last()).push(0x2f)
    } else {
        display_of(t.drop_last())
    }
}

/// Among the first `k` bytes of `t` there is a `/` with exactly `p` pattern bytes before it.
pub open spec fn mark_after(t: Seq<u8>, k: int, p: int) -> bool {
    exists|i: int|
        0 <= i < k && i < t.len() && t[i] == 0x2f && (#[trigger] pattern_of(t.take(i))).len() == p
}

/// The word breaks that a find-word query asks for: the positions in the pattern at which the
/// text has a `/`. The `/` itself is no position of the pattern.
pub open spec fn marks_of(t: Seq<u8>) -> Set<usize> {
    Set::new(|p: usize| mark_after(t, t.len() as int, p as int))
}

/// What a [`FindWord`] holds, as mathematical values.
pub ghost struct FindWordView {
    /// The query as it is displayed.
    pub display: Seq<char>,
    /// The pattern: a lowercase letter or `.` for each letter of a match.
    pub pattern: Seq<u8>,
    /// The word breaks that a match must have; none if the query names none.
    pub breaks: Set<usize>,
}

/// The find-word query that a text in ASCII stands for.
pub open spec fn find_word_view(t: Seq<u8>) -> FindWordView {
    FindWordView {
        display: ascii_text(display_of(t)),
        pattern: pattern_of(t),
        breaks: marks_of(t),
    }
}

/// The byte of a pattern admits the letter: it is that letter, or `.`.
pub open spec fn fits(p: u8, letter: u8) -> bool {
    p == 0x2e || p == letter
}

/// The entries that a find-word query matches: those with as many letters as the pattern is
/// long, with exactly the word breaks of the query if it names any, and with the letter of the
/// pattern at every position where the pattern has one.
pub open spec fn find_word_accepts(f: FindWordView, e: EntryView) -> bool {
    &&& e.letters.len() == f.pattern.len()
    &&& f.breaks != Set::<usize>::empty() ==> e.breaks == f.breaks
    &&& forall|i: int| 0 <= i < f.pattern.len() ==> #[trigger] fits(f.pattern[i], e.letters[i])
}

/// A find-word query that names word breaks matches only entries with exactly those breaks.
pub proof fn lemma_find_word_breaks_exact(f: FindWordView, e: EntryView)
    requires
        f.breaks != Set::<usize>::empty(),
        find_word_accepts(f, e),
    ensures
        e.breaks == f.breaks,
{
}

/// A find-word query that names no word break asks nothing of the breaks of an entry: of two
/// entries with the same letters it matches both or neither.
pub proof fn lemma_find_word_no_breaks(f: FindWordView, e1: EntryView, e2: EntryView)
    requires
        f.breaks == Set::<usize>::empty(),
        e1.letters == e2.letters,
    ensures
        find_word_accepts(f, e1) == find_word_accepts(f, e2),
{
    if find_word_accepts(f, e1) {
        assert forall|i: int| 0 <= i < f.pattern.len() implies #[trigger] fits(
            f.pattern[i],
            e2.letters[i],
        ) by {
            assert(fits(f.pattern[i], e1.letters[i]));
        }
    }
    if find_word_accepts(f, e2) {
        assert forall|i: int| 0 <= i < f.pattern.len() implies #[trigger] fits(
            f.pattern[i],
            e1.letters[i],
        ) by {
            assert(fits(f.pattern[i], e2.letters[i]));
        }
    }
}

/// The elements of `s` below `bound`, from the lowest up.
pub open spec fn ascending_below(s: Set<usize>, bound: nat) -> Seq<usize>
    decreases bound,
{
    if bound == 0 {
        Seq::empty()
    } else if s.contains((bound - 1) as usize) {
        ascending_below(s, (bound - 1) as nat).push((bound - 1) as usize)
    } else {
        ascending_below(s, (bound - 1) as nat)
    }
}

/// The points at which a pattern of length `len` is cut: its two ends and the breaks between
/// them, each once, from the lowest up.
pub open spec fn cut_points(breaks: Set<usize>, len: usize) -> Seq<usize> {
    ascending_below(breaks.insert(0).insert(len), (len + 1) as nat)
}

/// The distances from each point to the next.
pub open spec fn gaps(points: Seq<usize>) -> Seq<nat> {
    Seq::new((points.len() - 1) as nat, |i: int| (points[i + 1] - points[i]) as nat)
}

/// The lengths of the pieces into which the breaks cut a pattern of length `len`.
pub open spec fn segment_lengths(breaks: Set<usize>, len: usize) -> Seq<nat> {
    gaps(cut_points(breaks, len))
}

/// A `/` within the first `k + 1` bytes stands within the first `k`, or is the byte at `k`.
proof fn lemma_mark_after_step(t: Seq<u8>, k: int, p: int)
    requires
        0 <= k < t.len(),
    ensures
        mark_after(t, k + 1, p) <==> mark_after(t, k, p) || (t[k] == 0x2f && pattern_of(
            t.take(k),
        ).len() == p),
{
    if mark_after(t, k + 1, p) {
        let i = choose|i: int|
            0 <= i < k + 1 && i < t.len() && t[i] == 0x2f && (#[trigger] pattern_of(
                t.take(i),
            )).len() == p;
        if i < k {
            assert(mark_after(t, k, p));
        }
    }
    if mark_after(t, k, p) {
        let i = choose|i: int|
            0 <= i < k && i < t.len() && t[i] == 0x2f && (#[trigger] pattern_of(t.take(i))).len()
                == p;
        assert(0 <= i < k + 1);
    }
    if t[k] == 0x2f && pattern_of(t.take(k)).len() == p {
        assert(0 <= k < k + 1 && t[k] == 0x2f && pattern_of(t.take(k)).len() == p);
    }
}

/// The pattern of a prefix that is one byte longer.
proof fn lemma_pattern_of_step(t: Seq<u8>, k: int)
    requires
        0 <= k < t.len(),
    ensures
        pattern_of(t.take(k + 1)) == if is_pattern_byte(t[k]) {
            pattern_of(t.take(k)).push(lower(t[k]))
        } else {
            pattern_of(t.take(k))
        },
        display_of(t.take(k + 1)) == if is_pattern_byte(t[k]) {
            display_of(t.take(k)).push(lower(t[k]))
        } else if t[k] == 0x2f {
            display_of(t.take(k)).push(0x2f)
        } else {
            display_of(t.take(k))
        },
{
    assert(t.take(k + 1).drop_last() =~= t.take(k));
    assert(t.take(k + 1).last() == t[k]);
}

/// A strictly ascending sequence of the elements of `s` below `bound` is `ascending_below`.
proof fn lemma_ascending_below_unique(s: Set<usize>, bound: nat, v: Seq<usize>)
    requires
        bound <= usize::MAX + 1,
        strictly_ascending(v),
        forall|x: usize| v.contains(x) <==> s.contains(x) && x < bound,
    ensures
        ascending_below(s, bound) == v,
    decreases bound,
{
    if bound == 0 {
        if v.len() > 0 {
            assert(v.contains(v[0]));
        }
        assert(v =~= Seq::<usize>::empty());
    } else {
        let top = (bound - 1) as usize;
        if s.contains(top) {
            assert(v.contains(top));
            let at = choose|i: int| 0 <= i < v.len() && v[i] == top;
            if at < v.len() - 1 {
                assert(v.contains(v[v.len() - 1]));
                assert(v[at] < v[v.len() - 1]);
            }
            let init = v.drop_last();
            assert forall|x: usize| init.contains(x) <==> s.contains(x) && x < (bound
                - 1) as nat by {
                if init.contains(x) {
                    let i = choose|i: int| 0 <= i < init.len() && init[i] == x;
                    assert(v[i] == x);
                    assert(v.contains(x));
                    assert(v[i] < v[v.len() - 1]);
                }
                if s.contains(x) && x < (bound - 1) as nat {
                    assert(v.contains(x));
                    let i = choose|i: int| 0 <= i < v.len() && v[i] == x;
                    assert(init[i] == x);
                }
            }
            lemma_ascending_below_unique(s, (bound - 1) as nat, init);
            assert(v =~= init.push(top));
        } else {
            assert forall|x: usize| v.contains(x) <==> s.contains(x) && x < (bound
                - 1) as nat by {
                if v.contains(x) {
                    assert(x != top);
                }
            }
            lemma_ascending_below_unique(s, (bound - 1) as nat, v);
        }
    }
}

/// A find-word query: a pattern of letters and wildcards, and the word breaks asked for.
#[derive(Debug, PartialEq)]
pub struct FindWord {
    display: String,
    pat: Vec<u8>,
    breaks: WordBreaks,
}

impl View for FindWord {
    type V = FindWordView;

    closed spec fn view(&self) -> FindWordView {
        FindWordView { display: self.display@, pattern: self.pat@, breaks: self.breaks@ }
    }
}

impl FindWord {
    /// The invariant of the type: no break lies beyond the end of the pattern.
    #[verifier::type_invariant]
    pub open spec fn wf(&self) -> bool {
        forall|p: usize| self@.breaks.contains(p) ==> p <= self@.pattern.len()
    }

    /// Reads a find-word query: the text is transliterated into ASCII; its letters and `.`s are
    /// the pattern, and each `/` asks for a word break at the place in the pattern where it
    /// stands.
    pub fn parse(query: &str) -> (f: FindWord)
        ensures
            f@ == find_word_view(encode_utf8(transliterated(query@))),
    {
        let ascii = transliterate(query);
        FindWord::from_ascii(ascii.as_str().as_bytes())
    }

    /// Reads a find-word query from its transliteration.
    pub fn from_ascii(ascii: &[u8]) -> (f: FindWord)
        ensures
            f@ == find_word_view(ascii@),
    {
        let mut pat: Vec<u8> = Vec::new();
        let mut positions: Vec<usize> = Vec::new();
        let mut display: Vec<u8> = Vec::new();
        let mut k: usize = 0;
        while k < ascii.len()
            invariant
                k <= ascii.len(),
                pat@ == pattern_of(ascii@.take(k as int)),
                display@ == display_of(ascii@.take(k as int)),
                is_ascii_bytes(display@),
                pat@.len() + positions@.len() <= k,
                forall|n: int| 0 <= n < positions@.len() ==> #[trigger] positions@[n] <= pat@.len(),
                forall|p: usize| positions@.contains(p) <==> mark_after(ascii@, k as int, p as int),
            decreases ascii.len() - k,
        {
            let b = ascii[k];
            let ghost before = positions@;
            let ghost here = pat@.len();
            proof {
                lemma_pattern_of_step(ascii@, k as int);
            }
            if b == 0x2e || byte_is_letter(b) {
                pat.push(byte_to_lower(b));
                display.push(byte_to_lower(b));
            } else if b == 0x2f {
                positions.push(pat.len());
                display.push(b);
            }
            proof {
                assert forall|p: usize| positions@.contains(p) <==> mark_after(
                    ascii@,
                    k + 1,
                    p as int,
                ) by {
                    lemma_mark_after_step(ascii@, k as int, p as int);
                    if b == 0x2f {
                        lemma_seq_contains_after_push(before, here as usize, p);
                    }
                }
            }
            k += 1;
        }
        assert(ascii@.take(k as int) =~= ascii@);
        let breaks = WordBreaks::from_positions(positions.as_slice());
        proof {
            assert(breaks@ =~= marks_of(ascii@));
            assert forall|p: usize| breaks@.contains(p) implies p <= pat@.len() by {
                let n = choose|n: int| 0 <= n < positions@.len() && positions@[n] == p;
            }
        }
        FindWord { display: ascii_string(display.as_slice()), pat, breaks }
    }

    /// The query as it is displayed.
    pub fn display(&self) -> (s: &str)
        ensures
            s@ == self@.display,
    {
        self.display.as_str()
    }

    /// The pattern: a lowercase letter or `.` for each letter of a match.
    pub fn pattern(&self) -> (p: &[u8])
        ensures
            p@ == self@.pattern,
    {
        self.pat.as_slice()
    }

    /// The word breaks that the query asks for.
    pub fn breaks(&self) -> (b: &WordBreaks)
        ensures
            b@ == self@.breaks,
            self.wf(),
    {
        proof {
            use_type_invariant(self);
        }
        &self.breaks
    }
}

/// The cut points of a pattern of length `len` with the given breaks, none of them beyond `len`.
fn cut_points_of(breaks: &WordBreaks, len: usize) -> (points: Vec<usize>)
    requires
        forall|p: usize| breaks@.contains(p) ==> p <= len,
    ensures
        points@ == cut_points(breaks@, len),
        strictly_ascending(points@),
        points@.len() > 0,
{
    let positions = breaks.positions();
    let mut points: Vec<usize> = Vec::new();
    points.push(0);
    proof {
        assert(points@ =~= Seq::<usize>::empty().push(0));
        assert(positions@.take(0) =~= Seq::<usize>::empty());
        assert forall|x: usize| points@.contains(x) <==> x == 0 by {
            lemma_seq_contains_after_push(Seq::<usize>::empty(), 0, x);
        }
    }
    let mut n: usize = 0;
    while n < positions.len()
        invariant
            n <= positions.len(),
            strictly_ascending(positions@),
            positions@.to_set() == breaks@,
            forall|p: usize| breaks@.contains(p) ==> p <= len,
            strictly_ascending(points@),
            points@.len() > 0,
            points@[0] == 0,
            n == 0 ==> points@.len() == 1,
            n > 0 ==> points@[points@.len() - 1] <= positions@[n - 1],
            forall|m: int| 0 <= m < points@.len() ==> #[trigger] points@[m] < len || m == 0,
            forall|x: usize|
                points@.contains(x) <==> x == 0 || (0 < x < len && positions@.take(
                    n as int,
                ).contains(x)),
        decreases positions.len() - n,
    {
        let p = positions[n];
        let ghost kept = points@;
        proof {
            assert(positions@.contains(p));
            assert(breaks@.contains(p));
            assert(positions@.take(n + 1) =~= positions@.take(n as int).push(p));
            if n > 0 {
                assert(positions@[n - 1] < positions@[n as int]);
            }
        }
        if p != 0 && p != len {
            points.push(p);
        }
        proof {
            assert forall|x: usize|
                points@.contains(x) <==> x == 0 || (0 < x < len && positions@.take(
                    n + 1,
                ).contains(x)) by {
                lemma_seq_contains_after_push(positions@.take(n as int), p, x);
                if p != 0 && p != len {
                    assert(points@ == kept.push(p));
                    lemma_seq_contains_after_push(kept, p, x);
                }
            }
        }
        n += 1;
    }
    let ghost inner = points@;
    if len != 0 {
        points.push(len);
    }
    proof {
        let all = breaks@.insert(0).insert(len);
        assert(positions@.take(n as int) =~= positions@);
        assert forall|x: usize|
            points@.contains(x) <==> all.contains(x) && x < (len + 1) as nat by {
            assert(positions@.contains(x) <==> breaks@.contains(x));
            if len != 0 {
                assert(points@ == inner.push(len));
                lemma_seq_contains_after_push(inner, len, x);
            }
        }
        lemma_ascending_below_unique(all, (len + 1) as nat, points@);
    }
    points
}

/// The distances between neighbouring points, in decimal with commas between them.
fn joined_gaps(points: &Vec<usize>) -> (out: Vec<u8>)
    requires
        strictly_ascending(points@),
        points@.len() > 0,
    ensures
        out@ == comma_joined(gaps(points@)),
{
    let ghost lengths = gaps(points@);
    let mut out: Vec<u8> = Vec::new();
    let mut i: usize = 0;
    assert(lengths.take(0) =~= Seq::<nat>::empty());
    while i < points.len() - 1
        invariant
            i < points@.len(),
            strictly_ascending(points@),
            lengths == gaps(points@),
            out@ == comma_joined(lengths.take(i as int)),
        decreases points.len() - i,
    {
        if i > 0 {
            out.push(0x2c);
        }
        push_decimal(&mut out, points[i + 1] - points[i]);
        proof {
            let now = lengths.take(i + 1);
            assert(now.drop_last() =~= lengths.take(i as int));
            assert(now.last() == (points@[i + 1] - points@[i as int]) as nat);
            if i == 0 {
                assert(out@ =~= decimal(now[0]));
            } else {
                assert(out@ =~= comma_joined(lengths.take(i as int)).push(0x2c).add(
                    decimal(now.last()),
                ));
            }
        }
        i += 1;
    }
    assert(lengths.take(i as int) =~= lengths);
    out
}

impl Matches for FindWord {
    open spec fn accepts(&self, entry: EntryView) -> bool {
        find_word_accepts(self@, entry)
    }

    open spec fn key_string(&self) -> Seq<char> {
        self@.display
    }

    open spec fn key_len(&self) -> Seq<u8> {
        comma_joined(segment_lengths(self@.breaks, self@.pattern.len() as usize))
    }

    fn matches(&self, entry: &Entry) -> (r: bool) {
        let len = self.pat.len();
        let letters = entry.letters().as_bytes();
        if letters.len() != len {
            return false;
        }
        if !self.breaks.is_empty() && !self.breaks.equals(entry.breaks()) {
            return false;
        }
        let mut i: usize = 0;
        while i < len
            invariant
                i <= len,
                len == self.pat@.len(),
                letters@ == entry@.letters,
                entry@.letters.len() == self@.pattern.len(),
                self@.breaks != Set::<usize>::empty() ==> entry@.breaks == self@.breaks,
                forall|k: int| 0 <= k < i ==> #[trigger] fits(self.pat@[k], letters@[k]),
            decreases len - i,
        {
            let p = self.pat[i];
            if !(p == 0x2e || p == letters[i]) {
                assert(!fits(self@.pattern[i as int], entry@.letters[i as int]));
                return false;
            }
            i += 1;
        }
        true
    }

    fn search_key(&self) -> (key: SearchKey) {
        proof {
            use_type_invariant(self);
            assert forall|p: usize| self.breaks@.contains(p) implies p <= self.pat@.len() by {
                assert(self@.breaks.contains(p));
            }
        }
        let points = cut_points_of(&self.breaks, self.pat.len());
        let out = joined_gaps(&points);
        proof {
            lemma_comma_joined_ascii(gaps(points@));
        }
        SearchKey { search_string: self.display.clone(), len: ascii_string(out.as_slice()) }
    }
}

} // verus!

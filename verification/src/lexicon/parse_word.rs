//! The normalizer: from any text to its letters and the positions of its word breaks.

use crate::ascii_string::{
    all_letters, all_lower, byte_is_letter, byte_to_lower, is_letter, letter_count, lower,
    lowered, AsciiString,
};
use crate::text::{ascii_text, lemma_ascii_text_utf8};
use crate::word_breaks::WordBreaks;
use vstd::prelude::*;
use vstd::seq_lib::lemma_seq_contains_after_push;
use vstd::string::StringSliceAdditionalSpecFns;
use vstd::utf8::encode_utf8;

verus! {

/// The ASCII transliteration that `deunicode::deunicode` gives for a text.
pub uninterp spec fn transliterated(text: Seq<char>) -> Seq<char>;

/// `deunicode::deunicode`: the transliteration of a text into ASCII, read from the crate's
/// fixed table, so the same text always gives the same result.
#[verifier::external_body]
pub(crate) fn transliterate(text: &str) -> (ascii: String)
    ensures
        ascii@ == transliterated(text@),
{
    deunicode::deunicode(text)
}

/// Rough categorization of `u8` values.
#[derive(Copy, Clone, Debug, PartialEq, Eq)]
pub enum CharType {
    Letter,
    Apostrophe,
    Digit,
    Punctuation,
    Unprintable,
    WhiteSpace,
}

/// The category of a byte. Everything below 32 and above 126 is unprintable; the space is the
/// only white space; what is left of the printable bytes besides letters, digits and the
/// apostrophe is punctuation.
pub open spec fn spec_char_type(b: u8) -> CharType {
    if is_letter(b) {
        CharType::Letter
    } else if 0x30 <= b <= 0x39 {
        CharType::Digit
    } else if b == 0x27 {
        CharType::Apostrophe
    } else if b == 0x20 {
        CharType::WhiteSpace
    } else if 0x21 <= b <= 0x7e {
        CharType::Punctuation
    } else {
        CharType::Unprintable
    }
}

/// The byte separates words: it is punctuation or white space.
pub open spec fn is_separator(b: u8) -> bool {
    spec_char_type(b) == CharType::Punctuation || spec_char_type(b) == CharType::WhiteSpace
}

/// The letters among the bytes, lowercased, in the order in which they stand.
pub open spec fn letters_of(t: Seq<u8>) -> Seq<u8>
    decreases t.len(),
{
    if t.len() == 0 {
        Seq::empty()
    } else if is_letter(t.last()) {
        letters_of(t.drop_last()).push(lower(t.last()))
    } else {
        letters_of(t.drop_last())
    }
}

/// Among the first `k` bytes of `t` there is a separator with exactly `p` letters before it.
pub open spec fn separator_after(t: Seq<u8>, k: int, p: int) -> bool {
    exists|i: int|
        0 <= i < k && i < t.len() && is_separator(t[i]) && (#[trigger] letters_of(t.take(i))).len()
            == p
}

/// The word breaks of a text in ASCII: the positions strictly inside its letters at which a
/// separator stands. A run of separators gives one break, and separators before the first letter
/// or after the last give none.
pub open spec fn breaks_of(t: Seq<u8>) -> Set<usize> {
    Set::new(|p: usize| 0 < p < letters_of(t).len() && separator_after(t, t.len() as int, p as int))
}

/// The letters of a word or phrase. A text of nothing but ASCII letters is lowercased as it is;
/// any other text is transliterated first.
pub open spec fn word_letters(text: Seq<char>) -> Seq<u8> {
    if all_letters(encode_utf8(text)) {
        lowered(encode_utf8(text))
    } else {
        letters_of(encode_utf8(transliterated(text)))
    }
}

/// The word breaks of a word or phrase: none in a text of nothing but ASCII letters, else those
/// of its transliteration.
pub open spec fn word_breaks(text: Seq<char>) -> Set<usize> {
    if all_letters(encode_utf8(text)) {
        Set::empty()
    } else {
        breaks_of(encode_utf8(transliterated(text)))
    }
}

/// The letters of a prefix that is one byte longer.
pub proof fn lemma_letters_of_step(t: Seq<u8>, k: int)
    requires
        0 <= k < t.len(),
    ensures
        letters_of(t.take(k + 1)) == if is_letter(t[k]) {
            letters_of(t.take(k)).push(lower(t[k]))
        } else {
            letters_of(t.take(k))
        },
{
    assert(t.take(k + 1).drop_last() =~= t.take(k));
    assert(t.take(k + 1).last() == t[k]);
}

/// There are as many letters as there are bytes that are letters.
pub proof fn lemma_letters_of_len(t: Seq<u8>)
    ensures
        letters_of(t).len() == letter_count(t),
    decreases t.len(),
{
    if t.len() > 0 {
        lemma_letters_of_len(t.drop_last());
    }
}

/// What `letters_of` gives is lowercase letters, no more of them than there are bytes.
pub proof fn lemma_letters_of_lower(t: Seq<u8>)
    ensures
        all_lower(letters_of(t)),
        letters_of(t).len() <= t.len(),
    decreases t.len(),
{
    if t.len() > 0 {
        lemma_letters_of_lower(t.drop_last());
    }
}

/// Normalizing the letters of a text once more gives the same letters, and no word break.
pub proof fn lemma_letters_stable(text: Seq<char>)
    ensures
        all_lower(word_letters(text)),
        word_letters(ascii_text(word_letters(text))) == word_letters(text),
        word_breaks(ascii_text(word_letters(text))) == Set::<usize>::empty(),
{
    let letters = word_letters(text);
    if all_letters(encode_utf8(text)) {
        assert(all_lower(letters));
    } else {
        lemma_letters_of_lower(encode_utf8(transliterated(text)));
    }
    crate::ascii_string::lemma_lower_is_ascii(letters);
    lemma_ascii_text_utf8(letters);
    assert(all_letters(letters));
    assert(lowered(letters) =~= letters);
}

/// The word breaks of a text lie strictly inside its letters: none at 0, none at their number.
pub proof fn lemma_breaks_interior(text: Seq<char>)
    ensures
        word_breaks(text).finite(),
        forall|p: usize| word_breaks(text).contains(p) ==> 0 < p < word_letters(text).len(),
{
    let letters = word_letters(text);
    let bound = letters.len();
    let below = Set::new(|p: usize| p < bound);
    assert(below.finite()) by {
        lemma_below_finite(bound);
    }
    assert(word_breaks(text).subset_of(below));
    vstd::set_lib::lemma_len_subset(word_breaks(text), below);
}

/// The `usize` values below a bound are finitely many.
proof fn lemma_below_finite(bound: nat)
    ensures
        Set::new(|p: usize| p < bound).finite(),
    decreases bound,
{
    let s = Set::new(|p: usize| p < bound);
    if bound == 0 {
        assert(s =~= Set::<usize>::empty());
    } else {
        let t = Set::new(|p: usize| p < (bound - 1) as nat);
        lemma_below_finite((bound - 1) as nat);
        if bound - 1 <= usize::MAX {
            assert(s =~= t.insert((bound - 1) as usize));
        } else {
            assert(s =~= t);
        }
    }
}

/// The category of every byte value, as a table indexed by the byte.
pub fn gen_char_types() -> (types: [CharType; 256])
    ensures
        forall|b: u8| types@[b as int] == spec_char_type(b),
{
    // Everything below 32 and above 126 is unprintable for our purposes.
    let mut types = [CharType::Unprintable; 256];
    let mut i: usize = 0;
    while i < 256
        invariant
            i <= 256,
            forall|k: int| 0 <= k < i ==> types@[k] == spec_char_type(k as u8),
        decreases 256 - i,
    {
        types[i] = char_type(i as u8);
        i += 1;
    }
    types
}

/// Convert a `u8` to its [`CharType`].
pub fn char_type(b: u8) -> (t: CharType)
    ensures
        t == spec_char_type(b),
{
    if byte_is_letter(b) {
        CharType::Letter
    } else if 0x30 <= b && b <= 0x39 {
        CharType::Digit
    } else if b == 0x27 {
        CharType::Apostrophe
    } else if b == 0x20 {
        CharType::WhiteSpace
    } else if 0x21 <= b && b <= 0x7e {
        CharType::Punctuation
    } else {
        CharType::Unprintable
    }
}

/// A separator within the first `k + 1` bytes stands within the first `k`, or is the byte at `k`.
proof fn lemma_separator_after_step(t: Seq<u8>, k: int, p: int)
    requires
        0 <= k < t.len(),
    ensures
        separator_after(t, k + 1, p) <==> separator_after(t, k, p) || (is_separator(t[k])
            && letters_of(t.take(k)).len() == p),
{
    if separator_after(t, k + 1, p) {
        let i = choose|i: int|
            0 <= i < k + 1 && i < t.len() && is_separator(t[i]) && (#[trigger] letters_of(
                t.take(i),
            )).len() == p;
        if i < k {
            assert(separator_after(t, k, p));
        }
    }
    if separator_after(t, k, p) {
        let i = choose|i: int|
            0 <= i < k && i < t.len() && is_separator(t[i]) && (#[trigger] letters_of(
                t.take(i),
            )).len() == p;
        assert(0 <= i < k + 1);
    }
    if is_separator(t[k]) && letters_of(t.take(k)).len() == p {
        assert(0 <= k < k + 1 && is_separator(t[k]) && letters_of(t.take(k)).len() == p);
    }
}

/// Takes a text in ASCII apart into its letters, lowercased, and the positions of its word
/// breaks. Punctuation and white space are the separators; an apostrophe, a digit or an
/// unprintable byte is passed over as if it were not there.
pub fn normalize(ascii: &[u8]) -> (r: (AsciiString, WordBreaks))
    ensures
        r.0@ == letters_of(ascii@),
        r.1@ == breaks_of(ascii@),
{
    let mut letters: Vec<u8> = Vec::new();
    let mut positions: Vec<usize> = Vec::new();
    let mut k: usize = 0;
    while k < ascii.len()
        invariant
            k <= ascii.len(),
            letters@ == letters_of(ascii@.take(k as int)),
            letters@.len() <= k,
            forall|p: usize|
                positions@.contains(p) <==> 0 < p && separator_after(ascii@, k as int, p as int),
        decreases ascii.len() - k,
    {
        let b = ascii[k];
        let ghost before = positions@;
        let ghost here = letters@.len();
        proof {
            lemma_letters_of_step(ascii@, k as int);
        }
        match char_type(b) {
            CharType::Letter => {
                letters.push(byte_to_lower(b));
            },
            CharType::Punctuation | CharType::WhiteSpace => {
                // A separator before the first letter is no word break.
                if letters.len() > 0 {
                    positions.push(letters.len());
                }
            },
            CharType::Apostrophe | CharType::Digit | CharType::Unprintable => {
                // Apostrophe doesn't count as a word break, but we do ignore it.
                // Digits and any remaining unprintable characters just get stripped out.
            },
        }
        proof {
            assert forall|p: usize|
                positions@.contains(p) <==> 0 < p && separator_after(
                    ascii@,
                    k + 1,
                    p as int,
                ) by {
                lemma_separator_after_step(ascii@, k as int, p as int);
                if is_separator(b) && here > 0 {
                    lemma_seq_contains_after_push(before, here as usize, p);
                }
            }
        }
        k += 1;
    }
    assert(ascii@.take(k as int) =~= ascii@);
    // A separator after the last letter is no word break either.
    let count = letters.len();
    let mut interior: Vec<usize> = Vec::new();
    let mut n: usize = 0;
    assert(positions@.take(0) =~= Seq::<usize>::empty());
    while n < positions.len()
        invariant
            n <= positions.len(),
            forall|m: int| 0 <= m < interior@.len() ==> #[trigger] interior@[m] < count,
            forall|p: usize|
                interior@.contains(p) <==> p < count && positions@.take(n as int).contains(p),
        decreases positions.len() - n,
    {
        let p = positions[n];
        let ghost kept = interior@;
        if p < count {
            interior.push(p);
        }
        proof {
            assert(positions@.take(n + 1) =~= positions@.take(n as int).push(p));
            assert forall|q: usize|
                interior@.contains(q) <==> q < count && positions@.take(n + 1).contains(q) by {
                lemma_seq_contains_after_push(positions@.take(n as int), p, q);
                if p < count {
                    lemma_seq_contains_after_push(kept, p, q);
                }
            }
        }
        n += 1;
    }
    let breaks = WordBreaks::from_positions(interior.as_slice());
    proof {
        assert(positions@.take(n as int) =~= positions@);
        lemma_letters_of_lower(ascii@);
        assert(breaks@ =~= breaks_of(ascii@)) by {
            assert forall|p: usize| breaks@.contains(p) <==> breaks_of(ascii@).contains(p) by {
                assert(breaks@.contains(p) <==> interior@.contains(p));
            }
        }
    }
    (AsciiString::unchecked(letters.as_slice()), breaks)
}

/// Break a term into its constituent words, with accents and punctuation removed.
///
/// A term of nothing but ASCII letters is only lowercased and has no word break. Any other term
/// is transliterated into ASCII and then taken apart by [`normalize`].
pub fn parse_word(word: &str) -> (r: (AsciiString, WordBreaks))
    ensures
        r.0@ == word_letters(word@),
        r.1@ == word_breaks(word@),
{
    match AsciiString::try_from(word) {
        Ok(letters) => (letters, WordBreaks::default()),
        Err(_) => {
            let ascii = transliterate(word);
            normalize(ascii.as_str().as_bytes())
        },
    }
}

} // verus!

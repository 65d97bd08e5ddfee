//! The data files, in which a definition is found at an offset.

use crate::lines::{
    byte_lines, lemma_ascii_boundary, lemma_split_front, lemma_split_none, without_last,
};
use crate::text::{chars_of, string_of};
use crate::wordnet::import::sense::{Sense, SenseView};
use crate::wordnet::word_type::WordType;
use vstd::prelude::*;
use vstd::slice::slice_subrange;
use vstd::string::StringSliceAdditionalSpecFns;
use vstd::utf8::{decode_utf8, is_char_boundary};

verus! {

/// The texts of the four data files, one for each part of speech. A data file holds one
/// definition on each line, after a `|`.
pub struct WordnetData {
    pub noun: String,
    pub verb: String,
    pub adj: String,
    pub adv: String,
}

/// What the four data files hold, as UTF-8.
pub ghost struct WordnetDataView {
    pub noun: Seq<u8>,
    pub verb: Seq<u8>,
    pub adj: Seq<u8>,
    pub adv: Seq<u8>,
}

impl View for WordnetData {
    type V = WordnetDataView;

    open spec fn view(&self) -> WordnetDataView {
        WordnetDataView {
            noun: vstd::utf8::encode_utf8(self.noun@),
            verb: vstd::utf8::encode_utf8(self.verb@),
            adj: vstd::utf8::encode_utf8(self.adj@),
            adv: vstd::utf8::encode_utf8(self.adv@),
        }
    }
}

/// The data file for a part of speech.
pub open spec fn file_of(data: WordnetDataView, word_type: WordType) -> Seq<u8> {
    match word_type {
        WordType::Noun => data.noun,
        WordType::Verb => data.verb,
        WordType::Adj => data.adj,
        WordType::Adv => data.adv,
    }
}

/// The character is white space: one with the Unicode property `White_Space`.
pub open spec fn is_space(c: char) -> bool {
    let u = c as u32;
    (0x09 <= u <= 0x0d) || u == 0x20 || u == 0x85 || u == 0xa0 || u == 0x1680 || (0x2000 <= u
        <= 0x200a) || u == 0x2028 || u == 0x2029 || u == 0x202f || u == 0x205f || u == 0x3000
}

/// The text without the white space at its start.
pub open spec fn trim_start(s: Seq<char>) -> Seq<char>
    decreases s.len(),
{
    if s.len() > 0 && is_space(s[0]) {
        trim_start(s.drop_first())
    } else {
        s
    }
}

/// The text without the white space at its end.
pub open spec fn trim_end(s: Seq<char>) -> Seq<char>
    decreases s.len(),
{
    if s.len() > 0 && is_space(s.last()) {
        trim_end(s.drop_last())
    } else {
        s
    }
}

/// The text without the white space at its start and at its end.
pub open spec fn trimmed(s: Seq<char>) -> Seq<char> {
    trim_end(trim_start(s))
}

/// The line that starts at an offset into a text in UTF-8: what stands from there up to the
/// next line ending. There is none where the offset lies beyond the text or inside a character,
/// nor at the very end of the text.
pub open spec fn line_at(bytes: Seq<u8>, offset: int) -> Option<Seq<u8>> {
    if 0 <= offset <= bytes.len() && is_char_boundary(bytes, offset) && byte_lines(
        bytes.skip(offset),
    ).len() > 0 {
        Some(byte_lines(bytes.skip(offset))[0])
    } else {
        None
    }
}

/// The definition on a line of a data file: what follows the first `|`, without the white
/// space around it.
pub open spec fn definition_in(line: Seq<char>) -> Option<Seq<char>> {
    match line.index_of_first('|') {
        Some(at) => Some(trimmed(line.skip(at + 1))),
        None => None,
    }
}

/// The definition of a sense: that on the line at the offset of the sense in the data file for
/// its part of speech.
pub open spec fn sense_definition(sense: SenseView, data: WordnetDataView) -> Option<Seq<char>> {
    match line_at(file_of(data, sense.word_type), sense.offset as int) {
        Some(line) => definition_in(decode_utf8(line)),
        None => None,
    }
}

/// Tells whether a character is white space.
pub fn char_is_space(c: char) -> (r: bool)
    ensures
        r == is_space(c),
{
    let u = c as u32;
    (0x09 <= u && u <= 0x0d) || u == 0x20 || u == 0x85 || u == 0xa0 || u == 0x1680 || (0x2000 <= u
        && u <= 0x200a) || u == 0x2028 || u == 0x2029 || u == 0x202f || u == 0x205f || u == 0x3000
}

/// The text without the white space at its start and at its end.
pub fn trim(s: &[char]) -> (r: &[char])
    ensures
        r@ == trimmed(s@),
{
    let mut from: usize = 0;
    proof {
        assert(s@.skip(0) =~= s@);
    }
    while from < s.len() && char_is_space(s[from])
        invariant
            from <= s.len(),
            trim_start(s@) == trim_start(s@.skip(from as int)),
        decreases s.len() - from,
    {
        proof {
            assert(s@.skip(from as int)[0] == s@[from as int]);
            assert(s@.skip(from as int).drop_first() =~= s@.skip(from + 1));
        }
        from += 1;
    }
    proof {
        if from < s.len() {
            assert(s@.skip(from as int)[0] == s@[from as int]);
        }
        assert(trim_start(s@) == s@.skip(from as int));
    }
    let ghost rest = s@.skip(from as int);
    let mut to: usize = s.len();
    proof {
        assert(s@.subrange(from as int, to as int) =~= rest);
    }
    while to > from && char_is_space(s[to - 1])
        invariant
            from <= to <= s.len(),
            trim_end(rest) == trim_end(s@.subrange(from as int, to as int)),
        decreases to,
    {
        proof {
            let now = s@.subrange(from as int, to as int);
            assert(now.last() == s@[to - 1]);
            assert(now.drop_last() =~= s@.subrange(from as int, to - 1));
        }
        to -= 1;
    }
    proof {
        let now = s@.subrange(from as int, to as int);
        if to > from {
            assert(now.last() == s@[to - 1]);
        }
        assert(trim_end(now) == now);
    }
    slice_subrange(s, from, to)
}

/// The line that starts at an offset into a text.
pub fn read_line_at<'a>(file: &'a str, offset: usize) -> (r: Option<&'a str>)
    ensures
        r is Some <==> line_at(file.spec_bytes(), offset as int) is Some,
        r matches Some(line) ==> line_at(file.spec_bytes(), offset as int) == Some(
            line.spec_bytes(),
        ),
{
    if offset > file.as_bytes().len() {
        return None;
    }
    if !file.is_char_boundary(offset) {
        return None;
    }
    let (_, tail) = file.split_at(offset);
    let bytes = tail.as_bytes();
    proof {
        assert(bytes@ =~= file.spec_bytes().skip(offset as int));
    }
    let mut end: usize = 0;
    while end < bytes.len() && bytes[end] != 0x0a
        invariant
            end <= bytes.len(),
            forall|k: int| 0 <= k < end ==> bytes@[k] != 0x0a,
        decreases bytes.len() - end,
    {
        end += 1;
    }
    if end == bytes.len() {
        proof {
            if bytes@.contains(0x0au8) {
                let k = choose|k: int| 0 <= k < bytes@.len() && bytes@[k] == 0x0au8;
                assert(false);
            }
            lemma_split_none(bytes@, 0x0au8);
        }
        if end == 0 {
            return None;
        }
        proof {
            let pieces = seq![bytes@];
            let ended = Seq::new(0, |i: int| without_last(pieces[i], 0x0du8));
            assert(byte_lines(bytes@) =~= ended.push(bytes@));
        }
        return Some(tail);
    }
    proof {
        vstd::utf8::encode_utf8_valid_utf8(tail@);
        lemma_ascii_boundary(bytes@, end as int);
    }
    let (head, _) = tail.split_at(end);
    proof {
        let a = bytes@.take(end as int);
        let b = bytes@.skip(end + 1);
        assert(head.spec_bytes() =~= a);
        assert(bytes@ =~= a + seq![0x0au8] + b);
        if a.contains(0x0au8) {
            let k = choose|k: int| 0 <= k < a.len() && a[k] == 0x0au8;
            assert(bytes@[k] == 0x0au8);
        }
        lemma_split_front(a, 0x0au8, b);
        crate::lines::lemma_split_nonempty(b, 0x0au8);
        assert(byte_lines(bytes@)[0] == without_last(a, 0x0du8));
    }
    let line = head.as_bytes();
    let n = line.len();
    if n > 0 && line[n - 1] == 0x0d {
        proof {
            vstd::utf8::encode_utf8_valid_utf8(head@);
            lemma_ascii_boundary(line@, n - 1);
        }
        let (bare, _) = head.split_at(n - 1);
        assert(bare.spec_bytes() =~= line@.drop_last());
        Some(bare)
    } else {
        Some(head)
    }
}

/// The definition of a sense, read from the data file for its part of speech.
pub fn lookup(sense: &Sense, data: &WordnetData) -> (r: Option<String>)
    ensures
        r is Some <==> sense_definition(sense@, data@) is Some,
        r matches Some(text) ==> sense_definition(sense@, data@) == Some(text@),
{
    // The sense gives us a word type and a file offset.  We match the word type to one of the
    // data files, then read a line at the given offset.
    let file = match sense.word_type {
        WordType::Noun => data.noun.as_str(),
        WordType::Verb => data.verb.as_str(),
        WordType::Adj => data.adj.as_str(),
        WordType::Adv => data.adv.as_str(),
    };
    let len = file.as_bytes().len();
    if sense.offset > len as u64 {
        return None;
    }
    let line = match read_line_at(file, sense.offset as usize) {
        Some(line) => line,
        None => {
            return None;
        },
    };
    proof {
        vstd::utf8::encode_utf8_decode_utf8(line@);
    }
    // The line consists of some metadata, a `|` character, and the definition.
    let chars = chars_of(line);
    let mut at: usize = 0;
    while at < chars.len() && chars[at] != '|'
        invariant
            at <= chars.len(),
            forall|k: int| 0 <= k < at ==> chars@[k] != '|',
        decreases chars.len() - at,
    {
        at += 1;
    }
    proof {
        chars@.index_of_first_ensures('|');
        if at < chars.len() {
            assert(chars@.contains('|'));
        } else if chars@.contains('|') {
            let k = choose|k: int| 0 <= k < chars@.len() && chars@[k] == '|';
            assert(false);
        }
    }
    if at == chars.len() {
        return None;
    }
    let rest = slice_subrange(chars.as_slice(), at + 1, chars.len());
    proof {
        assert(rest@ =~= chars@.skip(at + 1));
    }
    Some(string_of(trim(rest)))
}

} // verus!

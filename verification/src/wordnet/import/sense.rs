//! The lines of the sense index.

use crate::lines::{lemma_split_first, split, split_chars};
use crate::text::{chars_of, string_of};
use crate::wordnet::word_type::WordType;
use vstd::prelude::*;
use vstd::slice::slice_subrange;

verus! {

/// Why a line of the sense index could not be read.
#[derive(Debug)]
pub struct ParseError {
    line: String,
    message: String,
}

impl ParseError {
    /// The line that could not be read.
    pub fn line(&self) -> (s: &str)
        ensures
            s@ == self.line_text(),
    {
        self.line.as_str()
    }

    /// What is wrong with the line.
    pub fn message(&self) -> (s: &str)
        ensures
            s@ == self.message_text(),
    {
        self.message.as_str()
    }

    /// The text of the line that could not be read.
    pub closed spec fn line_text(&self) -> Seq<char> {
        self.line@
    }

    /// The text that says what is wrong with the line.
    pub closed spec fn message_text(&self) -> Seq<char> {
        self.message@
    }
}

fn parse_error(line: &str, message: &str) -> (e: ParseError)
    ensures
        e.line_text() == line@,
        e.message_text() == message@,
{
    ParseError { line: line.to_owned(), message: message.to_owned() }
}

/// One sense of a lemma, as the sense index lists it.
pub struct Sense {
    pub lemma: String,
    pub word_type: WordType,
    pub offset: u64,
    pub sense_num: u32,
}

/// What a [`Sense`] holds, as mathematical values.
pub ghost struct SenseView {
    pub lemma: Seq<char>,
    pub word_type: WordType,
    pub offset: u64,
    pub sense_num: u32,
}

impl View for Sense {
    type V = SenseView;

    open spec fn view(&self) -> SenseView {
        SenseView {
            lemma: self.lemma@,
            word_type: self.word_type,
            offset: self.offset,
            sense_num: self.sense_num,
        }
    }
}

/// The character is a decimal digit.
pub open spec fn is_digit(c: char) -> bool {
    '0' <= c <= '9'
}

/// The number that a decimal digit stands for.
pub open spec fn digit_value(c: char) -> nat {
    (c as u8 - 0x30) as nat
}

/// Every character is a decimal digit.
pub open spec fn all_digits(s: Seq<char>) -> bool {
    forall|i: int| 0 <= i < s.len() ==> is_digit(#[trigger] s[i])
}

/// The number that a run of decimal digits stands for.
pub open spec fn number_value(s: Seq<char>) -> nat
    decreases s.len(),
{
    if s.len() == 0 {
        0
    } else {
        number_value(s.drop_last()) * 10 + digit_value(s.last())
    }
}

/// The number that a text stands for, if it is one that is at most `max`: decimal digits, at
/// least one, with or without a `+` before them.
pub open spec fn parsed_number(s: Seq<char>, max: nat) -> Option<nat> {
    let digits = if s.len() > 0 && s[0] == '+' {
        s.drop_first()
    } else {
        s
    };
    if digits.len() > 0 && all_digits(digits) && number_value(digits) <= max {
        Some(number_value(digits))
    } else {
        None
    }
}

/// The part of speech that a digit of a sense key stands for.
pub open spec fn word_type_of(c: char) -> Option<WordType> {
    if c == '1' {
        Some(WordType::Noun)
    } else if c == '2' {
        Some(WordType::Verb)
    } else if c == '3' {
        Some(WordType::Adj)
    } else if c == '4' {
        Some(WordType::Adv)
    } else if c == '5' {
        Some(WordType::Adj)
    } else {
        None
    }
}

/// The sense that a line of the sense index holds, or what is wrong with the line.
///
/// A line reads `dog%1:05:00:: 02086723 1 42`: the sense key, the offset of the definition in
/// its data file, and the number of the sense, with one space between each two. The lemma is
/// what stands before the `%` of the sense key, and the digit after the `%` is the part of
/// speech.
pub open spec fn parsed_sense(line: Seq<char>) -> Result<SenseView, Seq<char>> {
    let tokens = split(line, ' ');
    if tokens.len() < 2 {
        Err("Synset Offset not found"@)
    } else {
        match parsed_number(tokens[1], u64::MAX as nat) {
            None => Err("Unparseable Synset Offset"@),
            Some(offset) => if tokens.len() < 3 {
                Err("Sense Number not found"@)
            } else {
                match parsed_number(tokens[2], u32::MAX as nat) {
                    None => Err("Unparseable Sense Number"@),
                    Some(sense_num) => match tokens[0].index_of_first('%') {
                        None => Err("lemma % delimiter not found"@),
                        Some(at) => match word_type_of(line[at + 1]) {
                            None => Err("Unknown word_type"@),
                            Some(word_type) => Ok(
                                SenseView {
                                    lemma: line.take(at),
                                    word_type,
                                    offset: offset as u64,
                                    sense_num: sense_num as u32,
                                },
                            ),
                        },
                    },
                }
            },
        }
    }
}

/// The value of a prefix that is one digit longer.
proof fn lemma_number_value_step(s: Seq<char>, k: int)
    requires
        0 <= k < s.len(),
    ensures
        number_value(s.take(k + 1)) == number_value(s.take(k)) * 10 + digit_value(s[k]),
{
    assert(s.take(k + 1).drop_last() =~= s.take(k));
}

/// The value of a prefix is at most the value of the whole.
proof fn lemma_number_value_prefix(s: Seq<char>, k: int)
    requires
        0 <= k <= s.len(),
    ensures
        number_value(s.take(k)) <= number_value(s),
    decreases s.len() - k,
{
    if k < s.len() {
        lemma_number_value_step(s, k);
        lemma_number_value_prefix(s, k + 1);
    } else {
        assert(s.take(k) =~= s);
    }
}

/// Reads a number of at most 64 bits.
pub fn parse_u64(text: &[char]) -> (r: Option<u64>)
    ensures
        r is Some <==> parsed_number(text@, u64::MAX as nat) is Some,
        r matches Some(n) ==> parsed_number(text@, u64::MAX as nat) == Some(n as nat),
{
    let start: usize = if text.len() > 0 && text[0] == '+' {
        1
    } else {
        0
    };
    let ghost digits = text@.skip(start as int);
    proof {
        if start == 1 {
            assert(digits =~= text@.drop_first());
        } else {
            assert(digits =~= text@);
        }
    }
    if start == text.len() {
        return None;
    }
    let mut value: u64 = 0;
    let mut i: usize = start;
    proof {
        assert(digits.take(0) =~= Seq::<char>::empty());
    }
    while i < text.len()
        invariant
            start <= i <= text.len(),
            digits == text@.skip(start as int),
            digits == (if text@.len() > 0 && text@[0] == '+' {
                text@.drop_first()
            } else {
                text@
            }),
            forall|k: int| 0 <= k < i - start ==> is_digit(#[trigger] digits[k]),
            value == number_value(digits.take(i - start)),
        decreases text.len() - i,
    {
        let c = text[i];
        if !('0' <= c && c <= '9') {
            assert(!is_digit(digits[i - start]));
            return None;
        }
        let d: u64 = ((c as u8) - 0x30) as u64;
        proof {
            lemma_number_value_step(digits, i - start);
            lemma_number_value_prefix(digits, i - start + 1);
        }
        if value > (u64::MAX - d) / 10 {
            return None;
        }
        value = value * 10 + d;
        i += 1;
    }
    proof {
        assert(digits.take(i - start) =~= digits);
    }
    Some(value)
}

/// Reads a number of at most 32 bits.
pub fn parse_u32(text: &[char]) -> (r: Option<u32>)
    ensures
        r is Some <==> parsed_number(text@, u32::MAX as nat) is Some,
        r matches Some(n) ==> parsed_number(text@, u32::MAX as nat) == Some(n as nat),
{
    match parse_u64(text) {
        Some(n) => if n <= 0xffff_ffff {
            Some(n as u32)
        } else {
            None
        },
        None => None,
    }
}

/// The part of speech that a digit of a sense key stands for.
pub fn parse_word_type(n: char) -> (r: Option<WordType>)
    ensures
        r == word_type_of(n),
{
    if n == '1' {
        Some(WordType::Noun)
    } else if n == '2' {
        Some(WordType::Verb)
    } else if n == '3' {
        Some(WordType::Adj)
    } else if n == '4' {
        Some(WordType::Adv)
    } else if n == '5' {
        Some(WordType::Adj)
    } else {
        None
    }
}

impl Sense {
    /// Reads a line of the sense index.
    pub fn from_str(line: &str) -> (r: Result<Sense, ParseError>)
        ensures
            r matches Ok(sense) ==> parsed_sense(line@) == Ok::<SenseView, Seq<char>>(sense@),
            r matches Err(e) ==> parsed_sense(line@) == Err::<SenseView, Seq<char>>(
                e.message_text(),
            ) && e.line_text() == line@,
    {
        let chars = chars_of(line);
        let tokens = split_chars(chars.as_slice(), ' ');
        let ghost pieces = split(line@, ' ');
        proof {
            lemma_split_first(line@, ' ');
        }
        if tokens.len() < 2 {
            return Err(parse_error(line, "Synset Offset not found"));
        }
        let offset = match parse_u64(tokens[1].as_slice()) {
            Some(n) => n,
            None => {
                return Err(parse_error(line, "Unparseable Synset Offset"));
            },
        };
        if tokens.len() < 3 {
            return Err(parse_error(line, "Sense Number not found"));
        }
        let sense_num = match parse_u32(tokens[2].as_slice()) {
            Some(n) => n,
            None => {
                return Err(parse_error(line, "Unparseable Sense Number"));
            },
        };
        let sense_key = &tokens[0];
        let mut at: usize = 0;
        while at < sense_key.len() && sense_key[at] != '%'
            invariant
                at <= sense_key.len(),
                forall|k: int| 0 <= k < at ==> sense_key@[k] != '%',
            decreases sense_key.len() - at,
        {
            at += 1;
        }
        proof {
            sense_key@.index_of_first_ensures('%');
            if at < sense_key.len() {
                assert(sense_key@.contains('%'));
            } else if sense_key@.contains('%') {
                let k = choose|k: int| 0 <= k < sense_key@.len() && sense_key@[k] == '%';
                assert(false);
            }
        }
        if at == sense_key.len() {
            return Err(parse_error(line, "lemma % delimiter not found"));
        }
        let word_type = match parse_word_type(chars[at + 1]) {
            Some(t) => t,
            None => {
                return Err(parse_error(line, "Unknown word_type"));
            },
        };
        let lemma = string_of(slice_subrange(chars.as_slice(), 0, at));
        proof {
            assert(line@.subrange(0, at as int) =~= line@.take(at as int));
        }
        Ok(Sense { lemma, word_type, offset, sense_num })
    }
}

} // verus!

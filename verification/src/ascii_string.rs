//! Strings of lowercase ASCII letters, the alphabet in which words are compared.

use crate::text::{ascii_str, ascii_text, is_ascii_bytes};
use vstd::prelude::*;
use vstd::slice::slice_to_vec;
use vstd::string::StringSliceAdditionalSpecFns;

verus! {

/// The byte is one of `a` ..= `z`.
pub open spec fn is_lower(b: u8) -> bool {
    0x61 <= b <= 0x7a
}

/// The byte is one of `A` ..= `Z`.
pub open spec fn is_upper(b: u8) -> bool {
    0x41 <= b <= 0x5a
}

/// The byte is an ASCII letter of either case.
pub open spec fn is_letter(b: u8) -> bool {
    is_lower(b) || is_upper(b)
}

/// The lowercase form of an uppercase letter; any other byte is left as it is.
pub open spec fn lower(b: u8) -> u8 {
    if is_upper(b) {
        (b + 0x20) as u8
    } else {
        b
    }
}

/// Every byte of the sequence is a lowercase letter.
pub open spec fn all_lower(s: Seq<u8>) -> bool {
    forall|i: int| 0 <= i < s.len() ==> is_lower(#[trigger] s[i])
}

/// Every byte of the sequence is a letter.
pub open spec fn all_letters(s: Seq<u8>) -> bool {
    forall|i: int| 0 <= i < s.len() ==> is_letter(#[trigger] s[i])
}

/// The sequence with each byte replaced by its lowercase form.
pub open spec fn lowered(s: Seq<u8>) -> Seq<u8> {
    Seq::new(s.len(), |i: int| lower(s[i]))
}

/// The number of ASCII letters among the bytes.
pub open spec fn letter_count(t: Seq<u8>) -> nat
    decreases t.len(),
{
    if t.len() == 0 {
        0
    } else if is_letter(t.last()) {
        letter_count(t.drop_last()) + 1
    } else {
        letter_count(t.drop_last())
    }
}

/// Lowercase letters are ASCII codes.
pub proof fn lemma_lower_is_ascii(s: Seq<u8>)
    requires
        all_lower(s),
    ensures
        is_ascii_bytes(s),
{
    assert forall|i: int| 0 <= i < s.len() implies #[trigger] s[i] < 0x80 by {
        assert(is_lower(s[i]));
    }
}

/// Tells whether a byte is an ASCII letter.
pub fn byte_is_letter(b: u8) -> (r: bool)
    ensures
        r == is_letter(b),
{
    (0x61 <= b && b <= 0x7a) || (0x41 <= b && b <= 0x5a)
}

/// Lowercases one byte.
pub fn byte_to_lower(b: u8) -> (r: u8)
    ensures
        r == lower(b),
{
    if 0x41 <= b && b <= 0x5a {
        b + 0x20
    } else {
        b
    }
}

/// Why a byte buffer could not be taken as letters.
#[derive(Debug, Clone, Copy, PartialEq, Eq)]
pub enum AsciiError {
    /// Some byte is not an ASCII letter.
    NotAsciiLetter,
}

/// A string containing only lowercase ASCII letters.
#[derive(PartialEq, Eq, PartialOrd, Ord, Hash, Default, Debug)]
pub struct AsciiString(Vec<u8>);

impl Clone for AsciiString {
    fn clone(&self) -> (r: Self)
        ensures
            r@ == self@,
    {
        proof {
            use_type_invariant(self);
        }
        AsciiString(self.0.clone())
    }
}

impl View for AsciiString {
    type V = Seq<u8>;

    closed spec fn view(&self) -> Seq<u8> {
        self.0@
    }
}

impl AsRef<[u8]> for AsciiString {
    fn as_ref(&self) -> (bytes: &[u8])
        ensures
            bytes@ == self@,
    {
        self.0.as_slice()
    }
}

impl AsciiString {
    /// The invariant of the type: nothing but lowercase letters.
    #[verifier::type_invariant]
    pub closed spec fn wf(&self) -> bool {
        all_lower(self.0@)
    }

    /// Returns the number of characters in the string.
    pub fn len(&self) -> (n: usize)
        ensures
            n == self@.len(),
    {
        self.0.len()
    }

    /// Returns `true` if the string is empty.
    pub fn is_empty(&self) -> (r: bool)
        ensures
            r == (self@.len() == 0),
    {
        self.0.len() == 0
    }

    /// The letters as a byte slice.
    pub fn as_bytes(&self) -> (bytes: &[u8])
        ensures
            bytes@ == self@,
            all_lower(bytes@),
    {
        proof {
            use_type_invariant(self);
        }
        self.0.as_slice()
    }

    /// Converts the ASCII string to a string slice.
    pub fn to_str(&self) -> (s: &str)
        ensures
            s@ == ascii_text(self@),
            s.spec_bytes() == self@,
    {
        proof {
            use_type_invariant(self);
            lemma_lower_is_ascii(self.0@);
        }
        ascii_str(self.0.as_slice())
    }

    /// Gives up the letters as a byte vector.
    pub fn into_bytes(self) -> (bytes: Vec<u8>)
        ensures
            bytes@ == self@,
            all_lower(bytes@),
    {
        proof {
            use_type_invariant(&self);
        }
        self.0
    }

    /// Takes the given lowercase letters as they are.
    pub fn unchecked(input: &[u8]) -> (s: AsciiString)
        requires
            all_lower(input@),
        ensures
            s@ == input@,
    {
        AsciiString(slice_to_vec(input))
    }

    /// Takes a string of ASCII letters as an `AsciiString`, lowercasing it. A string with
    /// anything but ASCII letters in it is an error.
    pub fn try_from(s: &str) -> (r: Result<AsciiString, AsciiError>)
        ensures
            r is Ok <==> all_letters(s.spec_bytes()),
            r matches Ok(a) ==> a@ == lowered(s.spec_bytes()),
            r matches Err(e) ==> e == AsciiError::NotAsciiLetter,
    {
        AsciiString::try_from_bytes(slice_to_vec(s.as_bytes()))
    }

    /// Takes a buffer of ASCII letters as an `AsciiString`. Uppercase letters are converted to
    /// lowercase; no other change is made, and any other byte is an error.
    pub fn try_from_bytes(input: Vec<u8>) -> (r: Result<AsciiString, AsciiError>)
        ensures
            r is Ok <==> all_letters(input@),
            r matches Ok(s) ==> s@ == lowered(input@),
            r matches Err(e) ==> e == AsciiError::NotAsciiLetter,
    {
        let ghost given = input@;
        let mut bytes = input;
        let mut i: usize = 0;
        while i < bytes.len()
            invariant
                given == input@,
                i <= bytes.len(),
                bytes@.len() == given.len(),
                forall|k: int| 0 <= k < i ==> is_letter(#[trigger] given[k]),
                forall|k: int| 0 <= k < i ==> bytes@[k] == lower(#[trigger] given[k]),
                forall|k: int| i <= k < given.len() ==> bytes@[k] == given[k],
            decreases bytes.len() - i,
        {
            let b = bytes[i];
            if !byte_is_letter(b) {
                assert(!is_letter(given[i as int]));
                return Err(AsciiError::NotAsciiLetter);
            }
            bytes.set(i, byte_to_lower(b));
            i += 1;
        }
        assert(bytes@ =~= lowered(given));
        Ok(AsciiString(bytes))
    }
}

} // verus!

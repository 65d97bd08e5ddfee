//! A count with its noun.

use crate::text::{ascii_string, ascii_text, decimal, lemma_decimal_ascii, push_decimal};
use vstd::prelude::*;
use vstd::string::StringExecFns;

verus! {

/// A count with its noun: `1` and the singular, or any other number and the plural.
pub open spec fn plural_text(count: nat, singular: Seq<char>, many: Seq<char>) -> Seq<char> {
    if count == 1 {
        ascii_text(decimal(1)).push(' ') + singular
    } else {
        ascii_text(decimal(count)).push(' ') + many
    }
}

/// Writes a count with its noun, as in `1 match` and `3 matches`.
pub fn plural(count: usize, singular: &str, many: &str) -> (text: String)
    ensures
        text@ == plural_text(count as nat, singular@, many@),
{
    let mut number: Vec<u8> = Vec::new();
    push_decimal(&mut number, count);
    number.push(0x20);
    proof {
        lemma_decimal_ascii(count as nat);
        assert(number@ =~= decimal(count as nat).push(0x20));
        assert(ascii_text(number@) =~= ascii_text(decimal(count as nat)).push(' '));
    }
    let mut text = ascii_string(number.as_slice());
    if count == 1 {
        text.append(singular);
    } else {
        text.append(many);
    }
    text
}

} // verus!

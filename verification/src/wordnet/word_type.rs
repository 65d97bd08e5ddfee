//! The parts of speech.

use vstd::prelude::*;

verus! {

/// The part of speech of a word.
#[derive(Debug, PartialEq, Eq, Hash, Clone, Copy, Structural)]
pub enum WordType {
    Noun,
    Verb,
    Adj,
    Adv,
}

} // verus!

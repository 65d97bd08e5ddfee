//! A term of the thesaurus with the lengths of its words.

use crate::ascii_string::{byte_is_letter, is_letter, letter_count};
use crate::thesaurus::word_lengths::{lengths_as_nat, packed_lengths, total, WordLengths};
use vstd::prelude::*;
use vstd::string::StringSliceAdditionalSpecFns;

verus! {

/// The length of the run of letters that the bytes end with.
pub open spec fn run_open(t: Seq<u8>) -> nat
    decreases t.len(),
{
    if t.len() == 0 {
        0
    } else if is_letter(t.last()) {
        run_open(t.drop_last()) + 1
    } else {
        0
    }
}

/// The lengths of the runs of letters that have come to an end within the bytes.
pub open spec fn runs_done(t: Seq<u8>) -> Seq<nat>
    decreases t.len(),
{
    if t.len() == 0 {
        Seq::empty()
    } else if !is_letter(t.last()) && run_open(t.drop_last()) > 0 {
        runs_done(t.drop_last()).push(run_open(t.drop_last()))
    } else {
        runs_done(t.drop_last())
    }
}

/// The lengths of the words of a term: of each run of ASCII letters with no other byte in it
/// and none next to it, in the order of the runs.
pub open spec fn letter_runs(t: Seq<u8>) -> Seq<nat> {
    if run_open(t) > 0 {
        runs_done(t).push(run_open(t))
    } else {
        runs_done(t)
    }
}

/// The packed lengths of a term.
pub open spec fn word_lengths_of(t: Seq<u8>) -> Seq<u8> {
    packed_lengths(Seq::new(letter_runs(t).len(), |i: int| letter_runs(t)[i] as u8))
}

/// The term is short enough to have its lengths packed: it has at most 255 letters.
pub open spec fn term_fits(t: Seq<u8>) -> bool {
    letter_count(t) <= u8::MAX
}

/// A term of the thesaurus with the lengths of its words.
#[derive(Debug, PartialEq, Eq, PartialOrd, Ord)]
pub struct Word {
    pub term: &'static str,
    pub word_lengths: WordLengths,
}

impl Word {
    /// The lengths are those of the term.
    pub open spec fn wf(&self) -> bool {
        self.word_lengths@ == word_lengths_of(self.term.spec_bytes())
    }

    /// Tells whether a term is short enough to have its lengths packed.
    pub fn fits(term: &str) -> (r: bool)
        ensures
            r == term_fits(term.spec_bytes()),
    {
        let bytes = term.as_bytes();
        let mut count: usize = 0;
        let mut k: usize = 0;
        proof {
            assert(bytes@.take(0) =~= Seq::<u8>::empty());
        }
        while k < bytes.len()
            invariant
                k <= bytes.len(),
                bytes@ == term.spec_bytes(),
                count == letter_count(bytes@.take(k as int)),
                count <= u8::MAX,
            decreases bytes.len() - k,
        {
            proof {
                assert(bytes@.take(k + 1).drop_last() =~= bytes@.take(k as int));
                assert(bytes@.take(k + 1).last() == bytes@[k as int]);
                lemma_letter_count_prefix(bytes@, k + 1);
            }
            if byte_is_letter(bytes[k]) {
                if count == 255 {
                    return false;
                }
                count += 1;
            }
            k += 1;
        }
        proof {
            assert(bytes@.take(k as int) =~= bytes@);
        }
        true
    }

    /// A term with the lengths of its words. The term must have at most 255 letters.
    pub fn new(term: &'static str) -> (r: Self)
        requires
            term_fits(term.spec_bytes()),
        ensures
            r.term == term,
            r.wf(),
    {
        let bytes = term.as_bytes();
        let mut runs: Vec<u8> = Vec::new();
        let mut current: u8 = 0;
        let mut k: usize = 0;
        proof {
            assert(bytes@.take(0) =~= Seq::<u8>::empty());
            assert(lengths_as_nat(runs@) =~= runs_done(bytes@.take(0)));
        }
        while k < bytes.len()
            invariant
                k <= bytes.len(),
                letter_count(bytes@) <= u8::MAX,
                lengths_as_nat(runs@) == runs_done(bytes@.take(k as int)),
                current == run_open(bytes@.take(k as int)),
                total(runs@) + current == letter_count(bytes@.take(k as int)),
                runs@.len() <= total(runs@),
            decreases bytes.len() - k,
        {
            let ghost had = lengths_as_nat(runs@);
            proof {
                assert(bytes@.take(k + 1).drop_last() =~= bytes@.take(k as int));
                lemma_letter_count_prefix(bytes@, k + 1);
            }
            if byte_is_letter(bytes[k]) {
                current = current + 1;
            } else if current > 0 {
                let ghost before = runs@;
                runs.push(current);
                proof {
                    assert(lengths_as_nat(runs@) =~= had.push(current as nat));
                    assert(runs@.drop_last() =~= before);
                }
                current = 0;
            }
            k += 1;
        }
        proof {
            assert(bytes@.take(k as int) =~= bytes@);
        }
        if current > 0 {
            let ghost had = lengths_as_nat(runs@);
            let ghost before = runs@;
            runs.push(current);
            proof {
                assert(lengths_as_nat(runs@) =~= had.push(current as nat));
                assert(runs@.drop_last() =~= before);
            }
        }
        proof {
            let given = letter_runs(bytes@);
            assert(lengths_as_nat(runs@) == given);
            assert(runs@ =~= Seq::new(given.len(), |i: int| given[i] as u8)) by {
                assert forall|i: int| 0 <= i < runs@.len() implies runs@[i] == given[i] as u8 by {
                    assert(lengths_as_nat(runs@)[i] == runs@[i] as nat);
                }
            }
        }
        Word { term, word_lengths: WordLengths::new(runs.as_slice()) }
    }
}

/// A prefix has no more letters than the whole.
proof fn lemma_letter_count_prefix(t: Seq<u8>, k: int)
    requires
        0 <= k <= t.len(),
    ensures
        letter_count(t.take(k)) <= letter_count(t),
    decreases t.len() - k,
{
    if k < t.len() {
        assert(t.take(k + 1).drop_last() =~= t.take(k));
        lemma_letter_count_prefix(t, k + 1);
    } else {
        assert(t.take(k) =~= t);
    }
}

} // verus!

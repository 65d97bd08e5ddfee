//! The positions of the word breaks of a phrase, kept in a bit set.

use crate::lexicon::parse_word::{parse_word, word_breaks};
use fixedbitset::FixedBitSet;
use vstd::prelude::*;

verus! {

/// `fixedbitset::FixedBitSet`, a set of bit positions below a length that can grow.
#[verifier::external_type_specification]
#[verifier::external_body]
pub struct ExFixedBitSet(fixedbitset::FixedBitSet);

/// The positions of the bits that are set in a `FixedBitSet`.
pub uninterp spec fn bitset_ones(set: FixedBitSet) -> Set<usize>;

/// The length in bits that a `FixedBitSet` was made with or has grown to.
pub uninterp spec fn bitset_len(set: FixedBitSet) -> usize;

/// `FixedBitSet::with_capacity`: a set of the given length with no bit set.
pub assume_specification[ FixedBitSet::with_capacity ](bits: usize) -> (set: FixedBitSet)
    ensures
        bitset_ones(set) == Set::<usize>::empty(),
        bitset_len(set) == bits,
;

/// `FixedBitSet::contains`: whether the bit at the position is set.
pub assume_specification[ FixedBitSet::contains ](set: &FixedBitSet, bit: usize) -> (r: bool)
    ensures
        r == bitset_ones(*set).contains(bit),
;

/// `FixedBitSet::is_superset`: whether every bit set in `other` is set in `set`, whatever the
/// two lengths are.
pub assume_specification[ FixedBitSet::is_superset ](set: &FixedBitSet, other: &FixedBitSet) -> (r:
    bool)
    ensures
        r == bitset_ones(*other).subset_of(bitset_ones(*set)),
;

/// `Extend::extend` of `FixedBitSet`: sets the bit at each given position, first growing the set
/// to one past a position that is at or beyond its length. The length is therefore the old one
/// or one past some position, and above every position. The position `usize::MAX` is left out:
/// growing to one past it overflows.
#[verifier::external_body]
fn bitset_extend(set: &mut FixedBitSet, positions: &[usize])
    requires
        forall|i: int| 0 <= i < positions@.len() ==> positions@[i] < usize::MAX,
    ensures
        bitset_ones(*final(set)) == bitset_ones(*old(set)).union(positions@.to_set()),
        bitset_len(*final(set)) >= bitset_len(*old(set)),
        forall|i: int| 0 <= i < positions@.len() ==> positions@[i] < bitset_len(*final(set)),
        bitset_len(*final(set)) == bitset_len(*old(set)) || exists|i: int|
            0 <= i < positions@.len() && bitset_len(*final(set)) == positions@[i] + 1,
{
    set.extend(positions.to_vec());
}

/// `FixedBitSet::ones`, collected: the positions of the set bits from the lowest up.
#[verifier::external_body]
fn bitset_positions(set: &FixedBitSet) -> (positions: Vec<usize>)
    ensures
        strictly_ascending(positions@),
        positions@.to_set() == bitset_ones(*set),
{
    set.ones().collect()
}

/// `FixedBitSet::count_ones` over the whole set: the number of bits that are set. It counts the
/// bits below the length, so the contract is for a set with no bit set at or past its length.
#[verifier::external_body]
fn bitset_count(set: &FixedBitSet) -> (n: usize)
    requires
        forall|p: usize| bitset_ones(*set).contains(p) ==> p < bitset_len(*set),
    ensures
        n == bitset_ones(*set).len(),
{
    set.count_ones(..)
}

/// `==` on `FixedBitSet`, which the crate derives: the same bits set and the same length.
#[verifier::external_body]
fn bitset_eq(a: &FixedBitSet, b: &FixedBitSet) -> (r: bool)
    ensures
        r == (bitset_ones(*a) == bitset_ones(*b) && bitset_len(*a) == bitset_len(*b)),
{
    a == b
}

/// `Clone::clone` of `FixedBitSet`: a set with the same bits and the same length.
#[verifier::external_body]
fn bitset_clone(set: &FixedBitSet) -> (copy: FixedBitSet)
    ensures
        bitset_ones(copy) == bitset_ones(*set),
        bitset_len(copy) == bitset_len(*set),
{
    set.clone()
}

/// Each position is above the one before it.
pub open spec fn strictly_ascending(s: Seq<usize>) -> bool {
    forall|i: int, j: int| 0 <= i < j < s.len() ==> s[i] < s[j]
}

/// The length in bits that a set of word breaks starts with. A set grows past it only to hold a
/// position at or beyond it.
pub const WORD_BREAKS_SIZE: usize = 60;

/// The positions of the word breaks of a phrase: a break at `p` stands between the letters at
/// `p - 1` and `p`.
#[derive(Debug, PartialEq)]
pub struct WordBreaks(FixedBitSet);

impl View for WordBreaks {
    type V = Set<usize>;

    closed spec fn view(&self) -> Set<usize> {
        bitset_ones(self.0)
    }
}

impl Clone for WordBreaks {
    fn clone(&self) -> (r: Self)
        ensures
            r@ == self@,
    {
        proof {
            use_type_invariant(self);
        }
        WordBreaks(bitset_clone(&self.0))
    }
}

impl Default for WordBreaks {
    fn default() -> (r: Self)
        ensures
            r@ == Set::<usize>::empty(),
    {
        WordBreaks(FixedBitSet::with_capacity(WORD_BREAKS_SIZE))
    }
}

impl WordBreaks {
    /// The invariant of the type: finitely many positions, all below the length of the bit set,
    /// which is `WORD_BREAKS_SIZE` unless a position at or beyond that made it grow, and then
    /// one past the highest position. So two sets with the same positions have the same length.
    #[verifier::type_invariant]
    pub closed spec fn wf(&self) -> bool {
        &&& bitset_ones(self.0).finite()
        &&& forall|p: usize| bitset_ones(self.0).contains(p) ==> p < bitset_len(self.0)
        &&& bitset_len(self.0) >= WORD_BREAKS_SIZE
        &&& bitset_len(self.0) > WORD_BREAKS_SIZE ==> bitset_ones(self.0).contains(
            (bitset_len(self.0) - 1) as usize,
        )
    }

    /// The set of the given positions.
    pub fn from_positions(positions: &[usize]) -> (r: WordBreaks)
        requires
            forall|i: int| 0 <= i < positions@.len() ==> positions@[i] < usize::MAX,
        ensures
            r@ == positions@.to_set(),
    {
        let mut bitset = FixedBitSet::with_capacity(WORD_BREAKS_SIZE);
        bitset_extend(&mut bitset, positions);
        proof {
            vstd::seq_lib::seq_to_set_is_finite(positions@);
            assert(bitset_ones(bitset) =~= positions@.to_set());
            assert forall|p: usize| bitset_ones(bitset).contains(p) implies p < bitset_len(
                bitset,
            ) by {
                let i = choose|i: int| 0 <= i < positions@.len() && positions@[i] == p;
                assert(positions@[i] < bitset_len(bitset));
            }
            if bitset_len(bitset) > WORD_BREAKS_SIZE {
                let i = choose|i: int|
                    0 <= i < positions@.len() && bitset_len(bitset) == positions@[i] + 1;
                assert(positions@.contains(positions@[i]));
            }
        }
        WordBreaks(bitset)
    }

    /// The word breaks of a word or phrase.
    pub fn for_word(word: &str) -> (r: WordBreaks)
        ensures
            r@ == word_breaks(word@),
    {
        parse_word(word).1
    }

    /// The positions from the lowest up.
    pub fn positions(&self) -> (v: Vec<usize>)
        ensures
            strictly_ascending(v@),
            v@.to_set() == self@,
    {
        bitset_positions(&self.0)
    }

    /// The positions from the lowest up.
    pub fn to_vec(&self) -> (v: Vec<usize>)
        ensures
            strictly_ascending(v@),
            v@.to_set() == self@,
    {
        self.positions()
    }

    /// Tells whether `pos` is one of the positions.
    pub fn contains(&self, pos: usize) -> (r: bool)
        ensures
            r == self@.contains(pos),
    {
        self.0.contains(pos)
    }

    /// Tells whether every position of `other` is a position of `self`.
    pub fn is_superset(&self, other: &WordBreaks) -> (r: bool)
        ensures
            r == other@.subset_of(self@),
    {
        self.0.is_superset(&other.0)
    }

    /// Tells whether there is no position at all.
    pub fn is_empty(&self) -> (r: bool)
        ensures
            r == (self@ == Set::<usize>::empty()),
    {
        proof {
            use_type_invariant(self);
            if bitset_ones(self.0).len() == 0 {
                bitset_ones(self.0).lemma_len0_is_empty();
                assert(bitset_ones(self.0) =~= Set::<usize>::empty());
            }
        }
        bitset_count(&self.0) == 0
    }

    /// Tells whether the two sets hold the same positions, no more and no fewer.
    pub fn equals(&self, other: &WordBreaks) -> (r: bool)
        ensures
            r == (self@ == other@),
    {
        proof {
            use_type_invariant(self);
            use_type_invariant(other);
            if bitset_ones(self.0) == bitset_ones(other.0) {
                let m = bitset_len(self.0);
                let n = bitset_len(other.0);
                if m < n {
                    assert(bitset_ones(self.0).contains((n - 1) as usize));
                } else if n < m {
                    assert(bitset_ones(other.0).contains((m - 1) as usize));
                }
            }
        }
        bitset_eq(&self.0, &other.0)
    }
}

} // verus!

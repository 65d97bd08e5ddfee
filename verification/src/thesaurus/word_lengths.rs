//! The lengths of the words of a term, packed into a short list of bytes.

use crate::text::{
    ascii_string, ascii_text, comma_joined, decimal, lemma_comma_joined_ascii,
    lemma_decimal_ascii, push_decimal,
};
use smallvec::SmallVec;
use vstd::prelude::*;

verus! {

/// A short list of bytes, held in a `smallvec::SmallVec` that keeps up to eight of them inline.
#[verifier::external_body]
#[derive(Debug, PartialEq, Eq, PartialOrd, Ord)]
pub struct SmallBytes {
    items: SmallVec<[u8; 8]>,
}

/// The bytes that the list holds, in their order.
pub uninterp spec fn small_items(v: SmallBytes) -> Seq<u8>;

/// `SmallVec::new`: a list without items.
#[verifier::external_body]
fn small_new() -> (v: SmallBytes)
    ensures
        small_items(v) == Seq::<u8>::empty(),
{
    SmallBytes { items: SmallVec::new() }
}

/// `SmallVec::push`: the item comes last. A list of `usize::MAX` items is left out: it cannot
/// grow.
#[verifier::external_body]
fn small_push(v: &mut SmallBytes, value: u8)
    requires
        small_items(*old(v)).len() < usize::MAX,
    ensures
        small_items(*final(v)) == small_items(*old(v)).push(value),
{
    v.items.push(value)
}

/// `SmallVec::extend_from_slice`: the items of the slice follow those of the list. Items that
/// would be more than `usize::MAX` together are left out.
#[verifier::external_body]
fn small_extend(v: &mut SmallBytes, slice: &[u8])
    requires
        small_items(*old(v)).len() + slice@.len() <= usize::MAX,
    ensures
        small_items(*final(v)) == small_items(*old(v)) + slice@,
{
    v.items.extend_from_slice(slice)
}

/// `SmallVec::len`: the number of items.
#[verifier::external_body]
fn small_len(v: &SmallBytes) -> (n: usize)
    ensures
        n == small_items(*v).len(),
{
    v.items.len()
}

/// Indexing a `SmallVec`: the item at a place within it.
#[verifier::external_body]
fn small_get(v: &SmallBytes, i: usize) -> (item: u8)
    requires
        i < small_items(*v).len(),
    ensures
        item == small_items(*v)[i as int],
{
    v.items[i]
}

/// The sum of the numbers.
pub open spec fn total(lengths: Seq<u8>) -> nat
    decreases lengths.len(),
{
    if lengths.len() == 0 {
        0
    } else {
        total(lengths.drop_last()) + lengths.last() as nat
    }
}

/// The lengths of a term as they are kept: the number of all its letters, and after it, where
/// the term has more than one word, the length of each word.
pub open spec fn packed_lengths(word_lengths: Seq<u8>) -> Seq<u8> {
    if word_lengths.len() > 1 {
        seq![total(word_lengths) as u8] + word_lengths
    } else {
        seq![total(word_lengths) as u8]
    }
}

/// The numbers as they are written.
pub open spec fn lengths_as_nat(lengths: Seq<u8>) -> Seq<nat> {
    Seq::new(lengths.len(), |i: int| lengths[i] as nat)
}

/// Packed lengths written out: the total, and after it in brackets the lengths of the words,
/// where there is more than one.
pub open spec fn formatted_lengths(packed: Seq<u8>) -> Seq<u8> {
    if packed.len() == 1 {
        decimal(packed[0] as nat)
    } else {
        decimal(packed[0] as nat) + seq![0x20u8, 0x28u8] + comma_joined(
            lengths_as_nat(packed.skip(1)),
        ) + seq![0x29u8]
    }
}

/// The total of a prefix that is one number longer.
proof fn lemma_total_step(lengths: Seq<u8>, k: int)
    requires
        0 <= k < lengths.len(),
    ensures
        total(lengths.take(k + 1)) == total(lengths.take(k)) + lengths[k],
{
    assert(lengths.take(k + 1).drop_last() =~= lengths.take(k));
}

/// The total of a prefix is at most the total.
proof fn lemma_total_prefix(lengths: Seq<u8>, k: int)
    requires
        0 <= k <= lengths.len(),
    ensures
        total(lengths.take(k)) <= total(lengths),
    decreases lengths.len() - k,
{
    if k < lengths.len() {
        lemma_total_step(lengths, k);
        lemma_total_prefix(lengths, k + 1);
    } else {
        assert(lengths.take(k) =~= lengths);
    }
}

/// Represents the lengths of the individual words in a thesaurus term.
/// For example, "bacon" has length "5"; "bacon and eggs" has length
/// "12 (5,3,4)".
#[derive(Debug, PartialEq, Eq, PartialOrd, Ord)]
pub struct WordLengths {
    lengths: SmallBytes,
}

impl View for WordLengths {
    type V = Seq<u8>;

    closed spec fn view(&self) -> Seq<u8> {
        small_items(self.lengths)
    }
}

impl WordLengths {
    /// The invariant of the type: there is a total.
    #[verifier::type_invariant]
    pub closed spec fn wf(&self) -> bool {
        small_items(self.lengths).len() >= 1
    }

    /// Packs the lengths of the words of a term. The total must fit a byte.
    pub fn new(word_lengths: &[u8]) -> (r: Self)
        requires
            total(word_lengths@) <= u8::MAX,
            word_lengths@.len() < usize::MAX,
        ensures
            r@ == packed_lengths(word_lengths@),
    {
        let mut sum: u8 = 0;
        let mut i: usize = 0;
        assert(word_lengths@.take(0) =~= Seq::<u8>::empty());
        while i < word_lengths.len()
            invariant
                i <= word_lengths.len(),
                total(word_lengths@) <= u8::MAX,
                sum == total(word_lengths@.take(i as int)),
            decreases word_lengths.len() - i,
        {
            proof {
                lemma_total_step(word_lengths@, i as int);
                lemma_total_prefix(word_lengths@, i + 1);
            }
            sum = sum + word_lengths[i];
            i += 1;
        }
        assert(word_lengths@.take(i as int) =~= word_lengths@);
        let mut lengths = small_new();
        small_push(&mut lengths, sum);
        if word_lengths.len() > 1 {
            small_extend(&mut lengths, word_lengths);
        }
        assert(small_items(lengths) =~= packed_lengths(word_lengths@));
        WordLengths { lengths }
    }

    /// The packed lengths as a vector: the total first.
    pub fn to_vec(&self) -> (v: Vec<u8>)
        ensures
            v@ == self@,
    {
        let n = small_len(&self.lengths);
        let mut v: Vec<u8> = Vec::new();
        let mut i: usize = 0;
        while i < n
            invariant
                i <= n,
                n == small_items(self.lengths).len(),
                v@ == small_items(self.lengths).take(i as int),
            decreases n - i,
        {
            v.push(small_get(&self.lengths, i));
            assert(small_items(self.lengths).take(i + 1) =~= small_items(self.lengths).take(
                i as int,
            ).push(small_items(self.lengths)[i as int]));
            i += 1;
        }
        assert(small_items(self.lengths).take(n as int) =~= small_items(self.lengths));
        v
    }

    /// Writes the lengths out, as in `5` and `12 (5,3,4)`.
    pub fn format(&self) -> (s: String)
        ensures
            s@ == ascii_text(formatted_lengths(self@)),
    {
        proof {
            use_type_invariant(self);
        }
        let n = small_len(&self.lengths);
        let ghost packed = small_items(self.lengths);
        let mut out: Vec<u8> = Vec::new();
        push_decimal(&mut out, small_get(&self.lengths, 0) as usize);
        proof {
            lemma_decimal_ascii(packed[0] as nat);
            assert(out@ =~= decimal(packed[0] as nat));
        }
        if n > 1 {
            out.push(0x20);
            out.push(0x28);
            let ghost head = out@;
            let ghost parts = lengths_as_nat(packed.skip(1));
            let mut i: usize = 1;
            assert(parts.take(0) =~= Seq::<nat>::empty());
            while i < n
                invariant
                    1 <= i <= n,
                    n == packed.len(),
                    packed == small_items(self.lengths),
                    parts == lengths_as_nat(packed.skip(1)),
                    out@ == head + comma_joined(parts.take(i - 1)),
                decreases n - i,
            {
                if i > 1 {
                    out.push(0x2c);
                }
                push_decimal(&mut out, small_get(&self.lengths, i) as usize);
                proof {
                    let now = parts.take(i as int);
                    assert(now.drop_last() =~= parts.take(i - 1));
                    assert(now.last() == packed[i as int] as nat);
                    if i == 1 {
                        assert(out@ =~= head + decimal(now[0]));
                    } else {
                        assert(out@ =~= head + comma_joined(parts.take(i - 1)).push(0x2c).add(
                            decimal(now.last()),
                        ));
                    }
                }
                i += 1;
            }
            out.push(0x29);
            proof {
                assert(parts.take(n - 1) =~= parts);
                lemma_comma_joined_ascii(parts);
                assert(out@ =~= formatted_lengths(packed));
            }
        }
        ascii_string(out.as_slice())
    }
}

} // verus!

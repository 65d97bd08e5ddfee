//! Letters in alphabetical order, and the test whether one such multiset lies within another.

use crate::text::{ascii_str, ascii_text, is_ascii_bytes};
use vstd::multiset::Multiset;
use vstd::prelude::*;
use vstd::relations::{sorted_by, total_ordering};
use vstd::seq_lib::{lemma_sorted_unique, to_multiset_contains, to_multiset_insert, to_multiset_len};
use vstd::string::StringSliceAdditionalSpecFns;

verus! {

/// The bytes never go down from left to right.
pub open spec fn ascending(s: Seq<u8>) -> bool {
    forall|i: int, j: int| 0 <= i < j < s.len() ==> s[i] <= s[j]
}

/// The order of bytes by value.
pub open spec fn byte_leq() -> spec_fn(u8, u8) -> bool {
    |a: u8, b: u8| a <= b
}

/// The bytes in ascending order, each as often as it occurs among them.
pub open spec fn sorted_bytes(s: Seq<u8>) -> Seq<u8> {
    s.sort_by(byte_leq())
}

/// `sorted_bytes` rearranges the bytes into ascending order.
pub proof fn lemma_sorted_bytes(s: Seq<u8>)
    ensures
        ascending(sorted_bytes(s)),
        sorted_bytes(s).to_multiset() == s.to_multiset(),
        sorted_bytes(s).len() == s.len(),
{
    let leq = byte_leq();
    assert(total_ordering(leq));
    s.lemma_sort_by_ensures(leq);
    let r = sorted_bytes(s);
    assert(ascending(r)) by {
        assert forall|i: int, j: int| 0 <= i < j < r.len() implies r[i] <= r[j] by {
            assert(leq(r[i], r[j]));
        }
    }
    to_multiset_len(r);
    to_multiset_len(s);
}

/// The only ascending rearrangement of the bytes is `sorted_bytes`.
pub proof fn lemma_sorted_bytes_unique(a: Seq<u8>, s: Seq<u8>)
    requires
        ascending(a),
        a.to_multiset() == s.to_multiset(),
    ensures
        a == sorted_bytes(s),
{
    let leq = byte_leq();
    assert(total_ordering(leq));
    s.lemma_sort_by_ensures(leq);
    assert(sorted_by(a, leq));
    lemma_sorted_unique(a, s.sort_by(leq), leq);
}

/// A sequence without items has the multiset without items.
proof fn lemma_empty_multiset(s: Seq<u8>)
    requires
        s.len() == 0,
    ensures
        s.to_multiset() == Multiset::<u8>::empty(),
{
    broadcast use vstd::multiset::group_multiset_axioms;

    assert forall|v: u8| s.to_multiset().count(v) == 0 by {
        to_multiset_contains(s, v);
    }
    assert(s.to_multiset() =~= Multiset::<u8>::empty());
}

/// Dropping the first `i` bytes takes one occurrence of `s[i]` less than dropping `i + 1`.
proof fn lemma_skip_multiset(s: Seq<u8>, i: int)
    requires
        0 <= i < s.len(),
    ensures
        s.skip(i).to_multiset() == s.skip(i + 1).to_multiset().insert(s[i]),
{
    assert(s.skip(i) =~= s.skip(i + 1).insert(0, s[i]));
    to_multiset_insert(s.skip(i + 1), 0, s[i]);
}

/// A value below the head of an ascending run does not occur in the run.
proof fn lemma_absent_below(s: Seq<u8>, i: int, v: u8)
    requires
        ascending(s),
        0 <= i < s.len(),
        v < s[i],
    ensures
        s.skip(i).to_multiset().count(v) == 0,
{
    let tail = s.skip(i);
    if tail.contains(v) {
        let k = choose|k: int| 0 <= k < tail.len() && tail[k] == v;
        assert(s[i + k] == v);
    }
    to_multiset_contains(tail, v);
}

/// Equal heads can be dropped from both sides of an inclusion.
proof fn lemma_drop_both(a: Seq<u8>, b: Seq<u8>, i: int, j: int)
    requires
        0 <= i < a.len(),
        0 <= j < b.len(),
        a[i] == b[j],
    ensures
        a.skip(i).to_multiset().subset_of(b.skip(j).to_multiset()) == a.skip(
            i + 1,
        ).to_multiset().subset_of(b.skip(j + 1).to_multiset()),
{
    broadcast use vstd::multiset::group_multiset_axioms;

    lemma_skip_multiset(a, i);
    lemma_skip_multiset(b, j);
    let v = a[i];
    let x = a.skip(i + 1).to_multiset();
    let y = b.skip(j + 1).to_multiset();
    assert forall|w: u8| (x.insert(v).count(w) <= y.insert(v).count(w)) == (x.count(w)
        <= y.count(w)) by {}
    if x.subset_of(y) {
        assert forall|w: u8| x.insert(v).count(w) <= y.insert(v).count(w) by {
            assert(x.count(w) <= y.count(w));
        }
    }
    if x.insert(v).subset_of(y.insert(v)) {
        assert forall|w: u8| x.count(w) <= y.count(w) by {
            assert(x.insert(v).count(w) <= y.insert(v).count(w));
        }
    }
}

/// A head of the right side that is below everything on the left can be dropped.
proof fn lemma_drop_right(a: Seq<u8>, b: Seq<u8>, i: int, j: int)
    requires
        ascending(a),
        0 <= i < a.len(),
        0 <= j < b.len(),
        b[j] < a[i],
    ensures
        a.skip(i).to_multiset().subset_of(b.skip(j).to_multiset()) == a.skip(
            i,
        ).to_multiset().subset_of(b.skip(j + 1).to_multiset()),
{
    broadcast use vstd::multiset::group_multiset_axioms;

    lemma_skip_multiset(b, j);
    lemma_absent_below(a, i, b[j]);
    let v = b[j];
    let x = a.skip(i).to_multiset();
    let y = b.skip(j + 1).to_multiset();
    if x.subset_of(y) {
        assert forall|w: u8| x.count(w) <= y.insert(v).count(w) by {
            assert(x.count(w) <= y.count(w));
        }
    }
    if x.subset_of(y.insert(v)) {
        assert forall|w: u8| x.count(w) <= y.count(w) by {
            assert(x.count(w) <= y.insert(v).count(w));
        }
    }
}

/// A head of the left side that is below everything on the right has no match.
proof fn lemma_no_match(a: Seq<u8>, b: Seq<u8>, i: int, j: int)
    requires
        ascending(b),
        0 <= i < a.len(),
        0 <= j <= b.len(),
        j < b.len() ==> a[i] < b[j],
    ensures
        !a.skip(i).to_multiset().subset_of(b.skip(j).to_multiset()),
{
    broadcast use vstd::multiset::group_multiset_axioms;

    let v = a[i];
    assert(a.skip(i)[0] == v);
    assert(a.skip(i).contains(v));
    to_multiset_contains(a.skip(i), v);
    if j < b.len() {
        lemma_absent_below(b, j, v);
    } else {
        assert(b.skip(j) =~= Seq::<u8>::empty());
        assert(!b.skip(j).contains(v));
        to_multiset_contains(b.skip(j), v);
    }
}

/// The letters of a word in alphabetical order, repeats included.
#[derive(Debug, PartialEq, Default)]
pub struct SortedAscii(Vec<u8>);

impl View for SortedAscii {
    type V = Seq<u8>;

    closed spec fn view(&self) -> Seq<u8> {
        self.0@
    }
}

impl Clone for SortedAscii {
    fn clone(&self) -> (r: Self)
        ensures
            r@ == self@,
    {
        proof {
            use_type_invariant(self);
        }
        SortedAscii(self.0.clone())
    }
}

impl AsRef<[u8]> for SortedAscii {
    fn as_ref(&self) -> (bytes: &[u8])
        ensures
            bytes@ == self@,
    {
        self.0.as_slice()
    }
}

impl SortedAscii {
    /// The invariant of the type: the bytes are in ascending order.
    #[verifier::type_invariant]
    pub closed spec fn wf(&self) -> bool {
        ascending(self.0@)
    }

    /// Sorts a copy of the bytes: the result is in ascending order and holds each byte value as
    /// often as `bytes` does.
    pub fn from_bytes(bytes: &[u8]) -> (sorted: SortedAscii)
        ensures
            sorted@ == sorted_bytes(bytes@),
            ascending(sorted@),
            sorted@.to_multiset() == bytes@.to_multiset(),
            sorted@.len() == bytes@.len(),
    {
        let mut out: Vec<u8> = Vec::new();
        let mut k: usize = 0;
        proof {
            lemma_empty_multiset(out@);
            lemma_empty_multiset(bytes@.take(0));
        }
        while k < bytes.len()
            invariant
                k <= bytes.len(),
                ascending(out@),
                out@.len() == k,
                out@.to_multiset() == bytes@.take(k as int).to_multiset(),
            decreases bytes.len() - k,
        {
            let b = bytes[k];
            let mut at: usize = 0;
            while at < out.len() && out[at] <= b
                invariant
                    at <= out.len(),
                    forall|m: int| 0 <= m < at ==> out@[m] <= b,
                decreases out.len() - at,
            {
                at += 1;
            }
            proof {
                to_multiset_insert(out@, at as int, b);
                assert(bytes@.take(k + 1) =~= bytes@.take(k as int).push(b));
                vstd::seq_lib::to_multiset_build(bytes@.take(k as int), b);
            }
            out.insert(at, b);
            k += 1;
        }
        proof {
            assert(bytes@.take(k as int) =~= bytes@);
            lemma_sorted_bytes_unique(out@, bytes@);
        }
        SortedAscii(out)
    }

    /// The sorted letters as a string slice.
    pub fn to_str(&self) -> (s: &str)
        requires
            is_ascii_bytes(self@),
        ensures
            s@ == ascii_text(self@),
            s.spec_bytes() == self@,
    {
        ascii_str(self.0.as_slice())
    }

    /// The number of letters.
    pub fn len(&self) -> (n: usize)
        ensures
            n == self@.len(),
    {
        self.0.len()
    }

    /// The sorted letters as a byte slice.
    pub fn as_bytes(&self) -> (bytes: &[u8])
        ensures
            bytes@ == self@,
            ascending(bytes@),
    {
        proof {
            use_type_invariant(self);
        }
        self.0.as_slice()
    }

    /// Tells whether every byte value occurs in `other` at least as often as in `self`: whether
    /// `count(v)` in `self` is at most `count(v)` in `other` for every `v`.
    ///
    /// One pass over both sequences: a byte of `other` below the current byte of `self` is
    /// skipped, an equal one is paired with it, and a greater one shows that the byte of `self`
    /// has no partner left.
    pub fn is_subset(&self, other: &SortedAscii) -> (r: bool)
        ensures
            r == self@.to_multiset().subset_of(other@.to_multiset()),
    {
        proof {
            use_type_invariant(self);
            use_type_invariant(other);
            assert(self.0@.skip(0) =~= self.0@);
            assert(other.0@.skip(0) =~= other.0@);
        }
        let mut i: usize = 0;
        let mut j: usize = 0;
        loop
            invariant
                i <= self.0.len(),
                j <= other.0.len(),
                ascending(self.0@),
                ascending(other.0@),
                self.0@.to_multiset().subset_of(other.0@.to_multiset()) == self.0@.skip(
                    i as int,
                ).to_multiset().subset_of(other.0@.skip(j as int).to_multiset()),
            decreases (self.0.len() - i) + (other.0.len() - j),
        {
            if i == self.0.len() {
                proof {
                    broadcast use vstd::multiset::group_multiset_axioms;

                    lemma_empty_multiset(self.0@.skip(i as int));
                }
                return true;
            }
            if j == other.0.len() {
                proof {
                    lemma_no_match(self.0@, other.0@, i as int, j as int);
                }
                return false;
            }
            let a = self.0[i];
            let b = other.0[j];
            if a == b {
                proof {
                    lemma_drop_both(self.0@, other.0@, i as int, j as int);
                }
                i += 1;
                j += 1;
            } else if a > b {
                proof {
                    lemma_drop_right(self.0@, other.0@, i as int, j as int);
                }
                j += 1;
            } else {
                proof {
                    lemma_no_match(self.0@, other.0@, i as int, j as int);
                }
                return false;
            }
        }
    }
}

} // verus!

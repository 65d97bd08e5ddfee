//! Orders into which sorting brings the places of a list of keys.

use vstd::prelude::*;

verus! {

/// `from` names each of the places `0 .. n` once.
pub open spec fn is_arrangement(from: Seq<int>, n: nat) -> bool {
    &&& from.len() == n
    &&& forall|i: int| 0 <= i < n ==> 0 <= #[trigger] from[i] < n
    &&& forall|i: int, j: int| 0 <= i < j < n ==> from[i] != from[j]
}

/// The item with key `k1` that stood at `p1` comes before the one with `k2` that stood at `p2`:
/// its key is lower, or the keys are the same and it stood first.
pub open spec fn precedes(k1: int, p1: int, k2: int, p2: int) -> bool {
    k1 < k2 || (k1 == k2 && p1 < p2)
}

/// The places as numbers.
pub open spec fn places(order: Seq<usize>) -> Seq<int> {
    Seq::new(order.len(), |i: int| order[i] as int)
}

/// `from` is the order into which a stable sort by key brings the places of `keys`: each place
/// once, keys ascending, and places with the same key in ascending order.
pub open spec fn is_stable_order(keys: Seq<u64>, from: Seq<int>) -> bool {
    &&& is_arrangement(from, keys.len())
    &&& forall|i: int, j: int|
        0 <= i < j < from.len() ==> precedes(
            keys[#[trigger] from[i]] as int,
            from[i],
            keys[#[trigger] from[j]] as int,
            from[j],
        )
}

/// The order into which a stable sort by key brings the places of `keys`.
pub fn stable_order(keys: &Vec<u64>) -> (order: Vec<usize>)
    ensures
        is_stable_order(keys@, places(order@)),
{
    let n = keys.len();
    let mut order: Vec<usize> = Vec::new();
    let mut m: usize = 0;
    while m < n
        invariant
            m <= n,
            order@.len() == m,
            forall|k: int| 0 <= k < m ==> #[trigger] order@[k] == k,
        decreases n - m,
    {
        order.push(m);
        m += 1;
    }
    let mut i: usize = 1;
    while i < n
        invariant
            1 <= i,
            n == keys@.len(),
            is_arrangement(places(order@), n as nat),
            forall|k: int| i <= k < n ==> #[trigger] order@[k] == k,
            forall|k: int| 0 <= k < i && k < n ==> #[trigger] order@[k] < i,
            forall|a: int, b: int|
                0 <= a < b < i && b < n ==> precedes(
                    keys@[#[trigger] order@[a] as int] as int,
                    order@[a] as int,
                    keys@[#[trigger] order@[b] as int] as int,
                    order@[b] as int,
                ),
        decreases n - i,
    {
        let mut j: usize = i;
        while j > 0 && keys[order[j - 1]] > keys[order[j]]
            invariant
                j <= i < n,
                n == keys@.len(),
                is_arrangement(places(order@), n as nat),
                forall|k: int| i < k < n ==> #[trigger] order@[k] == k,
                forall|k: int| 0 <= k <= i ==> #[trigger] order@[k] <= i,
                order@[j as int] == i,
                forall|a: int, b: int|
                    0 <= a < b <= i && a != j && b != j ==> precedes(
                        keys@[#[trigger] order@[a] as int] as int,
                        order@[a] as int,
                        keys@[#[trigger] order@[b] as int] as int,
                        order@[b] as int,
                    ),
                forall|b: int|
                    j < b <= i ==> precedes(
                        keys@[order@[j as int] as int] as int,
                        order@[j as int] as int,
                        keys@[#[trigger] order@[b] as int] as int,
                        order@[b] as int,
                    ),
            decreases j,
        {
            let ghost before = places(order@);
            let low = order[j - 1];
            let high = order[j];
            order.set(j - 1, high);
            order.set(j, low);
            proof {
                let now = places(order@);
                assert(now =~= before.update(j - 1, high as int).update(j as int, low as int));
                assert forall|a: int, b: int| 0 <= a < b < n implies now[a] != now[b] by {
                    let pa = if a == j { j - 1 } else if a == j - 1 { j as int } else { a };
                    let pb = if b == j { j - 1 } else if b == j - 1 { j as int } else { b };
                    assert(now[a] == before[pa]);
                    assert(now[b] == before[pb]);
                    if pa < pb {
                        assert(before[pa] != before[pb]);
                    } else {
                        assert(before[pb] != before[pa]);
                    }
                }
            }
            j -= 1;
        }
        proof {
            let from = places(order@);
            assert forall|a: int, b: int| 0 <= a < b < i + 1 && b < n implies precedes(
                keys@[#[trigger] order@[a] as int] as int,
                order@[a] as int,
                keys@[#[trigger] order@[b] as int] as int,
                order@[b] as int,
            ) by {
                if b == j {
                    assert(order@[a] <= i);
                    assert(from[a] != from[b]);
                    if a < j - 1 {
                        assert(precedes(
                            keys@[order@[a] as int] as int,
                            order@[a] as int,
                            keys@[order@[j - 1] as int] as int,
                            order@[j - 1] as int,
                        ));
                    }
                }
            }
        }
        i += 1;
    }
    proof {
        let from = places(order@);
        assert forall|a: int, b: int| 0 <= a < b < from.len() implies precedes(
            keys@[#[trigger] from[a]] as int,
            from[a],
            keys@[#[trigger] from[b]] as int,
            from[b],
        ) by {
            assert(precedes(
                keys@[order@[a] as int] as int,
                order@[a] as int,
                keys@[order@[b] as int] as int,
                order@[b] as int,
            ));
        }
    }
    order
}

/// The order of a dictionary on runs of bytes: `a` comes before `b` or is `b`. The first byte
/// in which they differ decides, and where there is none, the shorter comes first.
pub open spec fn lex_leq(a: Seq<u8>, b: Seq<u8>) -> bool
    decreases a.len(),
{
    if a.len() == 0 {
        true
    } else if b.len() == 0 {
        false
    } else if a[0] != b[0] {
        a[0] < b[0]
    } else {
        lex_leq(a.drop_first(), b.drop_first())
    }
}

/// Every run of bytes comes before itself or is itself.
pub proof fn lemma_lex_leq_reflexive(a: Seq<u8>)
    ensures
        lex_leq(a, a),
    decreases a.len(),
{
    if a.len() > 0 {
        lemma_lex_leq_reflexive(a.drop_first());
    }
}

/// Of two runs of bytes one comes before the other or is the other.
pub proof fn lemma_lex_leq_total(a: Seq<u8>, b: Seq<u8>)
    ensures
        lex_leq(a, b) || lex_leq(b, a),
    decreases a.len(),
{
    if a.len() > 0 && b.len() > 0 && a[0] == b[0] {
        lemma_lex_leq_total(a.drop_first(), b.drop_first());
    }
}

/// Two runs of bytes each of which comes before the other or is the other are the same.
pub proof fn lemma_lex_leq_antisymmetric(a: Seq<u8>, b: Seq<u8>)
    requires
        lex_leq(a, b),
        lex_leq(b, a),
    ensures
        a == b,
    decreases a.len(),
{
    if a.len() == 0 {
        assert(a =~= b);
    } else {
        lemma_lex_leq_antisymmetric(a.drop_first(), b.drop_first());
        assert(a =~= seq![a[0]] + a.drop_first());
        assert(b =~= seq![b[0]] + b.drop_first());
    }
}

/// What comes before a run of bytes comes before what that run comes before.
pub proof fn lemma_lex_leq_transitive(a: Seq<u8>, b: Seq<u8>, c: Seq<u8>)
    requires
        lex_leq(a, b),
        lex_leq(b, c),
    ensures
        lex_leq(a, c),
    decreases a.len(),
{
    if a.len() > 0 && a[0] == b[0] && b[0] == c[0] {
        lemma_lex_leq_transitive(a.drop_first(), b.drop_first(), c.drop_first());
    }
}

/// Tells whether `a` comes before `b` in the order of a dictionary, or is `b`.
pub fn bytes_leq(a: &[u8], b: &[u8]) -> (r: bool)
    ensures
        r == lex_leq(a@, b@),
{
    let mut i: usize = 0;
    proof {
        assert(a@.skip(0) =~= a@);
        assert(b@.skip(0) =~= b@);
    }
    while i < a.len() && i < b.len()
        invariant
            i <= a.len(),
            i <= b.len(),
            lex_leq(a@, b@) == lex_leq(a@.skip(i as int), b@.skip(i as int)),
        decreases a.len() - i,
    {
        proof {
            assert(a@.skip(i as int)[0] == a@[i as int]);
            assert(b@.skip(i as int)[0] == b@[i as int]);
            assert(a@.skip(i as int).drop_first() =~= a@.skip(i + 1));
            assert(b@.skip(i as int).drop_first() =~= b@.skip(i + 1));
        }
        if a[i] != b[i] {
            return a[i] < b[i];
        }
        i += 1;
    }
    i == a.len()
}

/// The order on pairs of runs of bytes: the first runs decide, and where they are the same,
/// the second.
pub open spec fn pair_leq(a: (Seq<u8>, Seq<u8>), b: (Seq<u8>, Seq<u8>)) -> bool {
    if a.0 == b.0 {
        lex_leq(a.1, b.1)
    } else {
        lex_leq(a.0, b.0)
    }
}

/// Of two pairs one comes before the other or is the other.
pub proof fn lemma_pair_leq_total(a: (Seq<u8>, Seq<u8>), b: (Seq<u8>, Seq<u8>))
    ensures
        pair_leq(a, b) || pair_leq(b, a),
{
    lemma_lex_leq_total(a.0, b.0);
    lemma_lex_leq_total(a.1, b.1);
}

/// What comes before a pair comes before what that pair comes before.
pub proof fn lemma_pair_leq_transitive(
    a: (Seq<u8>, Seq<u8>),
    b: (Seq<u8>, Seq<u8>),
    c: (Seq<u8>, Seq<u8>),
)
    requires
        pair_leq(a, b),
        pair_leq(b, c),
    ensures
        pair_leq(a, c),
{
    if a.0 == b.0 && b.0 == c.0 {
        lemma_lex_leq_transitive(a.1, b.1, c.1);
    } else if a.0 != b.0 && b.0 != c.0 {
        lemma_lex_leq_transitive(a.0, b.0, c.0);
        if a.0 == c.0 {
            lemma_lex_leq_antisymmetric(a.0, b.0);
        }
    }
}

/// The pairs that two lists of byte vectors make, place by place.
pub open spec fn pairs_of(first: Seq<Vec<u8>>, second: Seq<Vec<u8>>) -> Seq<(Seq<u8>, Seq<u8>)> {
    Seq::new(first.len(), |i: int| (first[i]@, second[i]@))
}

/// `from` is an order into which sorting brings the places of `keys`: each place once, and no
/// pair before one that comes before it.
pub open spec fn is_sorted_order(keys: Seq<(Seq<u8>, Seq<u8>)>, from: Seq<int>) -> bool {
    &&& is_arrangement(from, keys.len())
    &&& forall|i: int, j: int|
        0 <= i < j < from.len() ==> pair_leq(keys[#[trigger] from[i]], keys[#[trigger] from[j]])
}

/// Tells whether the pair at one place comes before the pair at another, or is the same.
fn pair_at_leq(first: &Vec<Vec<u8>>, second: &Vec<Vec<u8>>, a: usize, b: usize) -> (r: bool)
    requires
        first@.len() == second@.len(),
        a < first@.len(),
        b < first@.len(),
    ensures
        r == pair_leq(pairs_of(first@, second@)[a as int], pairs_of(first@, second@)[b as int]),
{
    if bytes_leq(first[a].as_slice(), first[b].as_slice()) {
        if bytes_leq(first[b].as_slice(), first[a].as_slice()) {
            proof {
                lemma_lex_leq_antisymmetric(first@[a as int]@, first@[b as int]@);
            }
            bytes_leq(second[a].as_slice(), second[b].as_slice())
        } else {
            proof {
                if first@[a as int]@ == first@[b as int]@ {
                    lemma_lex_leq_reflexive(first@[a as int]@);
                }
            }
            true
        }
    } else {
        proof {
            if first@[a as int]@ == first@[b as int]@ {
                lemma_lex_leq_reflexive(first@[a as int]@);
            }
        }
        false
    }
}

/// An order into which sorting by pairs brings the places of two lists of byte vectors.
pub fn pair_order(first: &Vec<Vec<u8>>, second: &Vec<Vec<u8>>) -> (order: Vec<usize>)
    requires
        first@.len() == second@.len(),
    ensures
        is_sorted_order(pairs_of(first@, second@), places(order@)),
{
    let n = first.len();
    let ghost keys = pairs_of(first@, second@);
    let mut order: Vec<usize> = Vec::new();
    let mut m: usize = 0;
    while m < n
        invariant
            m <= n,
            order@.len() == m,
            forall|k: int| 0 <= k < m ==> #[trigger] order@[k] == k,
        decreases n - m,
    {
        order.push(m);
        m += 1;
    }
    let mut i: usize = 1;
    while i < n
        invariant
            1 <= i,
            n == first@.len(),
            n == second@.len(),
            keys == pairs_of(first@, second@),
            is_arrangement(places(order@), n as nat),
            forall|k: int| 0 <= k < n ==> #[trigger] order@[k] < n,
            forall|a: int, b: int|
                0 <= a < b < i && b < n ==> pair_leq(
                    keys[#[trigger] order@[a] as int],
                    keys[#[trigger] order@[b] as int],
                ),
        decreases n - i,
    {
        let mut j: usize = i;
        while j > 0 && !pair_at_leq(first, second, order[j - 1], order[j])
            invariant
                j <= i < n,
                n == first@.len(),
                n == second@.len(),
                keys == pairs_of(first@, second@),
                is_arrangement(places(order@), n as nat),
                forall|k: int| 0 <= k < n ==> #[trigger] order@[k] < n,
                forall|a: int, b: int|
                    0 <= a < b <= i && a != j && b != j ==> pair_leq(
                        keys[#[trigger] order@[a] as int],
                        keys[#[trigger] order@[b] as int],
                    ),
                forall|b: int|
                    j < b <= i ==> pair_leq(
                        keys[order@[j as int] as int],
                        keys[#[trigger] order@[b] as int],
                    ),
            decreases j,
        {
            let ghost before = places(order@);
            let low = order[j - 1];
            let high = order[j];
            proof {
                assert(0 <= before[j - 1] < n && 0 <= before[j as int] < n);
                lemma_pair_leq_total(keys[low as int], keys[high as int]);
            }
            order.set(j - 1, high);
            order.set(j, low);
            proof {
                let now = places(order@);
                assert(now =~= before.update(j - 1, high as int).update(j as int, low as int));
                assert forall|a: int, b: int| 0 <= a < b < n implies now[a] != now[b] by {
                    let pa = if a == j { j - 1 } else if a == j - 1 { j as int } else { a };
                    let pb = if b == j { j - 1 } else if b == j - 1 { j as int } else { b };
                    assert(now[a] == before[pa]);
                    assert(now[b] == before[pb]);
                    if pa < pb {
                        assert(before[pa] != before[pb]);
                    } else {
                        assert(before[pb] != before[pa]);
                    }
                }
            }
            j -= 1;
        }
        proof {
            assert forall|a: int, b: int| 0 <= a < b < i + 1 && b < n implies pair_leq(
                keys[#[trigger] order@[a] as int],
                keys[#[trigger] order@[b] as int],
            ) by {
                if b == j && a < j - 1 {
                    assert(pair_leq(keys[order@[a] as int], keys[order@[j - 1] as int]));
                    lemma_pair_leq_transitive(
                        keys[order@[a] as int],
                        keys[order@[j - 1] as int],
                        keys[order@[j as int] as int],
                    );
                }
            }
        }
        i += 1;
    }
    proof {
        let from = places(order@);
        assert forall|a: int, b: int| 0 <= a < b < from.len() implies pair_leq(
            keys[#[trigger] from[a]],
            keys[#[trigger] from[b]],
        ) by {
            assert(pair_leq(keys[order@[a] as int], keys[order@[b] as int]));
        }
    }
    order
}

} // verus!

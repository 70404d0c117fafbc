//! Ranking by a numeric key: the order in which a stable sort leaves its items.

use itertools::Itertools;
use vstd::prelude::*;
use vstd::relations::{sorted_by, total_ordering};

verus! {

/// Whether the pair `a` comes before `b` or is `b`: pairs are ordered by their first
/// number, and by the second where the first agree.
pub open spec fn pair_leq(a: (u64, usize), b: (u64, usize)) -> bool {
    a.0 < b.0 || (a.0 == b.0 && a.1 <= b.1)
}

/// The order of pairs, as a relation.
pub open spec fn pair_order() -> spec_fn((u64, usize), (u64, usize)) -> bool {
    |a: (u64, usize), b: (u64, usize)| pair_leq(a, b)
}

/// Each key paired with its place.
pub open spec fn keyed(keys: Seq<u64>) -> Seq<(u64, usize)> {
    Seq::new(keys.len(), |i: int| (keys[i], i as usize))
}

/// The keys with their places, in ascending order of the keys; equal keys keep the
/// order of their places.
pub open spec fn ranked(keys: Seq<u64>) -> Seq<(u64, usize)> {
    keyed(keys).sort_by(pair_order())
}

/// Calls `sorted` of itertools' `Itertools` on pairs of integers, which sorts them in
/// ascending order: the result holds what the argument held, each pair as often, and
/// of two places in it the earlier holds the lesser pair or the same.
#[verifier::external_body]
fn sorted_pairs(pairs: Vec<(u64, usize)>) -> (sorted: Vec<(u64, usize)>)
    ensures
        sorted@.to_multiset() == pairs@.to_multiset(),
        forall|i: int, j: int|
            0 <= i < j < sorted@.len() ==> pair_leq(#[trigger] sorted@[i], #[trigger] sorted@[j]),
{
    pairs.into_iter().sorted().collect()
}

/// The order of pairs is total.
pub proof fn lemma_pair_order_total()
    ensures
        total_ordering(pair_order()),
{
    let r = pair_order();
    assert forall|x: (u64, usize)| #[trigger] r(x, x) by {}
    assert forall|x: (u64, usize), y: (u64, usize)| #[trigger] r(x, y) && #[trigger] r(y, x) implies x
        == y by {}
    assert forall|x: (u64, usize), y: (u64, usize), z: (u64, usize)| #[trigger]
        r(x, y) && #[trigger] r(y, z) implies r(x, z) by {}
    assert forall|x: (u64, usize), y: (u64, usize)| #[trigger] r(x, y) || #[trigger] r(y, x) by {}
}

/// What the ranking of keys is: every key with its place, each once, in ascending order.
pub proof fn lemma_ranked(keys: Seq<u64>)
    requires
        keys.len() <= usize::MAX,
    ensures
        ranked(keys).len() == keys.len(),
        ranked(keys).no_duplicates(),
        forall|j: int|
            0 <= j < keys.len() ==> (#[trigger] ranked(keys)[j]).1 < keys.len() && ranked(keys)[j].0
                == keys[ranked(keys)[j].1 as int],
        forall|i: int, j: int|
            0 <= i < j < keys.len() ==> pair_leq(#[trigger] ranked(keys)[i], #[trigger] ranked(keys)[j]),
        forall|m: int| 0 <= m < keys.len() ==> ranked(keys).contains((#[trigger] keys[m], m as usize)),
{
    broadcast use vstd::seq_lib::to_multiset_contains;
    broadcast use vstd::seq_lib::to_multiset_len;

    let pairs = keyed(keys);
    let r = ranked(keys);
    lemma_pair_order_total();
    pairs.lemma_sort_by_ensures(pair_order());
    assert(r.to_multiset().len() == pairs.to_multiset().len());
    assert forall|i: int, j: int| 0 <= i < j < r.len() implies pair_leq(#[trigger] r[i], #[trigger] r[j]) by {
        assert(pair_order()(r[i], r[j]));
    }
    assert(pairs.no_duplicates());
    pairs.lemma_multiset_has_no_duplicates();
    r.lemma_multiset_has_no_duplicates_conv();
    assert forall|j: int| 0 <= j < keys.len() implies (#[trigger] r[j]).1 < keys.len() && r[j].0
        == keys[r[j].1 as int] by {
        assert(r.contains(r[j]));
        assert(r.to_multiset().count(r[j]) > 0);
        assert(pairs.contains(r[j]));
        let m = choose|m: int| 0 <= m < pairs.len() && pairs[m] == r[j];
        assert(pairs[m] == (keys[m], m as usize));
    }
    assert forall|m: int| 0 <= m < keys.len() implies r.contains((#[trigger] keys[m], m as usize)) by {
        assert(pairs[m] == (keys[m], m as usize));
        assert(pairs.contains(pairs[m]));
        assert(pairs.to_multiset().count(pairs[m]) > 0);
    }
}

/// The keys with their places in ascending order of the keys, equal keys in the order
/// of their places.
pub fn ranking(keys: &Vec<u64>) -> (order: Vec<(u64, usize)>)
    ensures
        order@ == ranked(keys@),
        order@.len() == keys@.len(),
        forall|j: int|
            0 <= j < keys@.len() ==> (#[trigger] order@[j]).1 < keys@.len() && order@[j].0 == keys@[order@[j].1 as int],
        forall|i: int, j: int|
            0 <= i < j < keys@.len() ==> pair_leq(#[trigger] order@[i], #[trigger] order@[j]),
{
    let mut pairs: Vec<(u64, usize)> = Vec::new();
    let mut i: usize = 0;
    while i < keys.len()
        invariant
            i <= keys.len(),
            pairs@ == keyed(keys@.take(i as int)),
        decreases keys.len() - i,
    {
        pairs.push((keys[i], i));
        assert(pairs@ =~= keyed(keys@.take(i + 1)));
        i += 1;
    }
    assert(keys@.take(keys.len() as int) == keys@);
    let order = sorted_pairs(pairs);
    proof {
        lemma_pair_order_total();
        lemma_ranked(keys@);
        keyed(keys@).lemma_sort_by_ensures(pair_order());
        assert(sorted_by(order@, pair_order())) by {
            assert forall|a: int, b: int| 0 <= a < b < order@.len() implies #[trigger] pair_order()(
                order@[a],
                order@[b],
            ) by {
                assert(pair_leq(order@[a], order@[b]));
            }
        }
        vstd::seq_lib::lemma_sorted_unique(order@, ranked(keys@), pair_order());
    }
    order
}

} // verus!

//! Putting items in the order of their keys.

use vstd::prelude::*;
use vstd::relations::{sorted_by, total_ordering};

verus! {

/// The order of pairs: by the first component, then by the second.
pub open spec fn pair_order() -> spec_fn((u32, usize), (u32, usize)) -> bool {
    |a: (u32, usize), b: (u32, usize)| a.0 < b.0 || (a.0 == b.0 && a.1 <= b.1)
}

/// Sorts pairs with the standard library's `sort` on slices: the result holds the same pairs, in
/// ascending order, which for pairs is by the first component and then by the second.
#[verifier::external_body]
fn sort_pairs(v: &mut Vec<(u32, usize)>)
    ensures
        sorted_by(final(v)@, pair_order()),
        final(v)@.to_multiset() == old(v)@.to_multiset(),
{
    v.sort();
}

/// Each key with its position.
pub open spec fn numbered(keys: Seq<u32>) -> Seq<(u32, usize)> {
    Seq::new(keys.len(), |i: int| (keys[i], i as usize))
}

/// The positions of `keys` in ascending order of the keys; equal keys keep their order.
pub open spec fn stable_order(keys: Seq<u32>) -> Seq<usize> {
    let sorted = numbered(keys).sort_by(pair_order());
    Seq::new(sorted.len(), |i: int| sorted[i].1)
}

proof fn lemma_pair_order()
    ensures
        total_ordering(pair_order()),
{
}

/// Compute the positions of `keys` in ascending order of the keys; equal keys keep their order.
pub(crate) fn order_by(keys: &Vec<u32>) -> (r: Vec<usize>)
    ensures
        r@ == stable_order(keys@),
        r@.len() == keys@.len(),
        forall|i: int| 0 <= i < r@.len() ==> #[trigger] r@[i] < keys@.len(),
{
    let mut pairs: Vec<(u32, usize)> = Vec::with_capacity(keys.len());
    let mut i: usize = 0;
    while i < keys.len()
        invariant
            i <= keys.len(),
            pairs@ == numbered(keys@).take(i as int),
        decreases keys.len() - i,
    {
        pairs.push((keys[i], i));
        assert(numbered(keys@).take(i + 1) =~= numbered(keys@).take(i as int).push(
            numbered(keys@)[i as int],
        ));
        i += 1;
    }
    assert(numbered(keys@).take(i as int) =~= numbered(keys@));
    sort_pairs(&mut pairs);
    let ghost sorted = numbered(keys@).sort_by(pair_order());
    proof {
        lemma_pair_order();
        numbered(keys@).lemma_sort_by_ensures(pair_order());
        vstd::seq_lib::lemma_sorted_unique(pairs@, sorted, pair_order());
        pairs@.to_multiset_ensures();
        numbered(keys@).to_multiset_ensures();
        assert forall|i: int| 0 <= i < pairs@.len() implies (#[trigger] pairs@[i]).1
            < keys@.len() by {
            assert(pairs@.contains(pairs@[i]));
            assert(pairs@.to_multiset().count(pairs@[i]) > 0);
            assert(numbered(keys@).contains(pairs@[i]));
        }
    }
    let mut r: Vec<usize> = Vec::with_capacity(pairs.len());
    let mut i: usize = 0;
    while i < pairs.len()
        invariant
            i <= pairs.len(),
            pairs@.len() == keys@.len(),
            r@.len() == i,
            forall|j: int| 0 <= j < i ==> #[trigger] r@[j] == pairs@[j].1,
            forall|j: int| 0 <= j < pairs@.len() ==> (#[trigger] pairs@[j]).1 < keys@.len(),
        decreases pairs.len() - i,
    {
        r.push(pairs[i].1);
        i += 1;
    }
    assert(r@ =~= stable_order(keys@));
    r
}

/// Sequences with the same elements still have the same elements after each is mapped.
pub(crate) proof fn lemma_mapped_multiset<T, U>(a: Seq<T>, b: Seq<T>, f: spec_fn(T) -> U)
    requires
        a.to_multiset() == b.to_multiset(),
    ensures
        a.map_values(f).to_multiset() == b.map_values(f).to_multiset(),
    decreases a.len(),
{
    a.to_multiset_ensures();
    b.to_multiset_ensures();
    if a.len() == 0 {
        assert(a.map_values(f) =~= b.map_values(f));
    } else {
        let x = a.last();
        let last = a.len() - 1;
        assert(a.contains(x));
        assert(a.to_multiset().count(x) > 0);
        assert(b.contains(x));
        let i = choose|i: int| 0 <= i < b.len() && b[i] == x;
        assert(a.remove(last).to_multiset() =~= b.remove(i).to_multiset());
        lemma_mapped_multiset(a.remove(last), b.remove(i), f);
        let fa = a.map_values(f);
        let fb = b.map_values(f);
        assert(a.remove(last).map_values(f) =~= fa.remove(last));
        assert(b.remove(i).map_values(f) =~= fb.remove(i));
        fa.to_multiset_ensures();
        fb.to_multiset_ensures();
        assert(fa.contains(fa[last]) && fb.contains(fb[i]));
        assert(fa.to_multiset().count(f(x)) > 0 && fb.to_multiset().count(f(x)) > 0);
        assert(fa.to_multiset() =~= fa.to_multiset().remove(f(x)).insert(f(x)));
        assert(fb.to_multiset() =~= fb.to_multiset().remove(f(x)).insert(f(x)));
    }
}

/// Items that are put in the order of their keys are the same items.
pub proof fn stable_order_keeps_items<T>(keys: Seq<u32>, items: Seq<T>)
    requires
        keys.len() == items.len(),
        keys.len() <= usize::MAX,
    ensures
        stable_order(keys).len() == keys.len(),
        Seq::new(
            keys.len(),
            |i: int| items[stable_order(keys)[i] as int],
        ).to_multiset() == items.to_multiset(),
{
    let pairs = numbered(keys);
    let sorted = pairs.sort_by(pair_order());
    lemma_pair_order();
    pairs.lemma_sort_by_ensures(pair_order());
    let f = |p: (u32, usize)| items[p.1 as int];
    lemma_mapped_multiset(pairs, sorted, f);
    pairs.to_multiset_ensures();
    sorted.to_multiset_ensures();
    assert(pairs.map_values(f) =~= items);
    assert(sorted.map_values(f) =~= Seq::new(
        keys.len(),
        |i: int| items[stable_order(keys)[i] as int],
    ));
}

/// The positions come in ascending order of their keys, and are positions of keys.
pub proof fn stable_order_is_ascending(keys: Seq<u32>)
    requires
        keys.len() <= usize::MAX,
    ensures
        stable_order(keys).len() == keys.len(),
        forall|i: int| 0 <= i < keys.len() ==> #[trigger] stable_order(keys)[i] < keys.len(),
        forall|i: int, j: int|
            #![trigger stable_order(keys)[i], stable_order(keys)[j]]
            0 <= i < j < keys.len() ==> keys[stable_order(keys)[i] as int] <= keys[stable_order(
                keys,
            )[j] as int],
{
    let pairs = numbered(keys);
    let sorted = pairs.sort_by(pair_order());
    lemma_pair_order();
    pairs.lemma_sort_by_ensures(pair_order());
    pairs.to_multiset_ensures();
    sorted.to_multiset_ensures();
    assert forall|i: int| 0 <= i < sorted.len() implies (#[trigger] sorted[i]).1 < keys.len()
        && sorted[i].0 == keys[sorted[i].1 as int] by {
        assert(sorted.contains(sorted[i]));
        assert(sorted.to_multiset().count(sorted[i]) > 0);
        assert(pairs.contains(sorted[i]));
        let j = choose|j: int| 0 <= j < pairs.len() && pairs[j] == sorted[i];
        assert(pairs[j] == (keys[j], j as usize));
    }
    assert forall|i: int, j: int|
        #![trigger stable_order(keys)[i], stable_order(keys)[j]]
        0 <= i < j < keys.len() implies keys[stable_order(keys)[i] as int] <= keys[stable_order(
        keys,
    )[j] as int] by {
        assert(pair_order()(sorted[i], sorted[j]));
    }
}

/// Every position comes once, and positions with equal keys stay in order.
pub proof fn stable_order_is_stable(keys: Seq<u32>)
    requires
        keys.len() <= usize::MAX,
    ensures
        stable_order(keys).len() == keys.len(),
        stable_order(keys).no_duplicates(),
        forall|n: int| 0 <= n < keys.len() ==> #[trigger] stable_order(keys).contains(n as usize),
        forall|i: int, j: int|
            #![trigger stable_order(keys)[i], stable_order(keys)[j]]
            0 <= i < j < keys.len() && keys[stable_order(keys)[i] as int] == keys[stable_order(
                keys,
            )[j] as int] ==> stable_order(keys)[i] < stable_order(keys)[j],
{
    let order = stable_order(keys);
    let places = Seq::new(keys.len(), |i: int| i as usize);
    stable_order_keeps_items(keys, places);
    stable_order_is_ascending(keys);
    let ordered = Seq::new(keys.len(), |i: int| places[stable_order(keys)[i] as int]);
    assert(ordered =~= order);
    places.lemma_multiset_has_no_duplicates();
    order.lemma_multiset_has_no_duplicates_conv();
    places.to_multiset_ensures();
    order.to_multiset_ensures();
    assert forall|n: int| 0 <= n < keys.len() implies #[trigger] order.contains(n as usize) by {
        assert(places[n] == n as usize);
        assert(places.contains(n as usize));
        assert(places.to_multiset().count(n as usize) > 0);
    }
    let pairs = numbered(keys);
    let sorted = pairs.sort_by(pair_order());
    lemma_pair_order();
    pairs.lemma_sort_by_ensures(pair_order());
    pairs.to_multiset_ensures();
    sorted.to_multiset_ensures();
    assert forall|i: int| 0 <= i < sorted.len() implies (#[trigger] sorted[i]).0
        == keys[sorted[i].1 as int] by {
        assert(sorted.contains(sorted[i]));
        assert(sorted.to_multiset().count(sorted[i]) > 0);
        assert(pairs.contains(sorted[i]));
        let j = choose|j: int| 0 <= j < pairs.len() && pairs[j] == sorted[i];
        assert(pairs[j] == (keys[j], j as usize));
    }
    assert forall|i: int, j: int|
        #![trigger order[i], order[j]]
        0 <= i < j < keys.len() && keys[order[i] as int] == keys[order[j] as int] implies order[i]
        < order[j] by {
        assert(pair_order()(sorted[i], sorted[j]));
        assert(order[i] != order[j]);
    }
}

} // verus!

//! What splitting a recorded trace recovers, and how its parts are replayed.

use crate::axis::{le, lt, Axis};
use crate::laws::orders_values;
use crate::recording::{lane_records, RecordedQuery};
use crate::replay::{
    batches_of, distinct_below, is_sample, nonempty, query_of, scalars_of, seed_of,
    smallest_radius_spec, starts_batch, traces_spec,
};
use crate::workload::{raw_of, Query, RawQuery};
use vstd::prelude::*;

verus! {

// ---------------------------------------------------------------------------------------------
// Queries on their own
// ---------------------------------------------------------------------------------------------

/// The queries of `raw` that were issued on their own.
pub open spec fn single_queries<A>(raw: Seq<RawQuery<A>>) -> Seq<Query<A>> {
    raw.filter(|q: RawQuery<A>| q.lanes == 1).map_values(
        |q: RawQuery<A>| Query { center: q.center, r: q.r },
    )
}

proof fn lemma_single_add<A>(a: Seq<RawQuery<A>>, b: Seq<RawQuery<A>>)
    ensures
        single_queries(a + b) == single_queries(a) + single_queries(b),
{
    let p = |q: RawQuery<A>| q.lanes == 1;
    Seq::filter_distributes_over_add(a, b, p);
    assert(single_queries(a + b) =~= single_queries(a) + single_queries(b));
}

proof fn lemma_single_none<A>(a: Seq<RawQuery<A>>)
    requires
        forall|i: int| 0 <= i < a.len() ==> (#[trigger] a[i]).lanes != 1,
    ensures
        single_queries(a) == Seq::<Query<A>>::empty(),
    decreases a.len(),
{
    reveal(Seq::filter);
    if a.len() > 0 {
        let fewer = a.drop_last();
        assert forall|i: int| 0 <= i < fewer.len() implies (#[trigger] fewer[i]).lanes != 1 by {
            assert(fewer[i] == a[i]);
        }
        lemma_single_none(fewer);
        assert(a[a.len() - 1].lanes != 1);
    }
    assert(single_queries(a) =~= Seq::<Query<A>>::empty());
}

/// Splitting a trace recovers every query that was issued on its own, in order, whatever else the
/// trace holds.
pub proof fn split_keeps_every_single_query<A>(raw: Seq<RawQuery<A>>, l: nat)
    requires
        l > 1,
    ensures
        scalars_of(raw, l) == single_queries(raw),
    decreases raw.len(),
{
    if raw.len() == 0 {
        lemma_single_none(raw);
    } else {
        let n: int = if raw[0].lanes != 1 && starts_batch(raw, l) {
            l as int
        } else {
            1
        };
        let head = raw.take(n);
        let rest = raw.skip(n);
        assert(head + rest =~= raw);
        lemma_single_add(head, rest);
        split_keeps_every_single_query(rest, l);
        if raw[0].lanes == 1 {
            reveal(Seq::filter);
            let none = Seq::<RawQuery<A>>::empty();
            assert(head =~= none.push(raw[0]));
            assert(head.drop_last() =~= none);
            lemma_single_none(none);
            assert(single_queries(head) =~= seq![query_of(raw[0])]);
        } else {
            assert forall|i: int| 0 <= i < head.len() implies (#[trigger] head[i]).lanes != 1 by {
                assert(head[i] == raw[i]);
            }
            lemma_single_none(head);
            assert(scalars_of(raw, l) =~= single_queries(raw));
        }
    }
}

// ---------------------------------------------------------------------------------------------
// Batches
// ---------------------------------------------------------------------------------------------

/// Whether `l` queries in a row, from position `x` on, belong to batches of width `l`.
pub open spec fn whole_batch<A>(raw: Seq<RawQuery<A>>, x: int, l: nat) -> bool {
    &&& 0 <= x
    &&& x + l <= raw.len()
    &&& forall|i: int| x <= i < x + l ==> (#[trigger] raw[i]).lanes == l
}

/// Whether position `x` is in one of the batches of width `l` that start at `starts`.
pub open spec fn is_batched(starts: Seq<int>, x: int, l: nat) -> bool {
    exists|j: int| 0 <= j < starts.len() && (#[trigger] starts[j]) <= x < starts[j] + l
}

/// The `l` queries from position `x` on.
pub open spec fn queries_from<A>(raw: Seq<RawQuery<A>>, x: int, l: nat) -> Seq<Query<A>> {
    Seq::new(l, |i: int| Query { center: raw[x + i].center, r: raw[x + i].r })
}

/// Whether `batches` are cut from `raw` at `starts`: each is made of `l` queries in a row with that
/// lane width, they do not overlap and come in order, and outside of them no place is left where
/// another would fit.
pub open spec fn are_cut<A>(
    raw: Seq<RawQuery<A>>,
    batches: Seq<Seq<Query<A>>>,
    starts: Seq<int>,
    l: nat,
) -> bool {
    &&& starts.len() == batches.len()
    &&& forall|j: int|
        #![trigger starts[j]]
        0 <= j < starts.len() ==> whole_batch(raw, starts[j], l) && batches[j] == queries_from(
            raw,
            starts[j],
            l,
        )
    &&& forall|i: int, j: int|
        #![trigger starts[i], starts[j]]
        0 <= i < j < starts.len() ==> starts[i] + l <= starts[j]
    &&& forall|x: int| #[trigger] whole_batch(raw, x, l) ==> is_batched(starts, x, l)
}

proof fn lemma_moved<A>(raw: Seq<RawQuery<A>>, n: int, x: int, l: nat)
    requires
        0 <= n <= raw.len(),
        0 <= x,
    ensures
        whole_batch(raw.skip(n), x, l) <==> whole_batch(raw, x + n, l),
        whole_batch(raw, x + n, l) ==> queries_from(raw.skip(n), x, l) == queries_from(
            raw,
            x + n,
            l,
        ),
{
    let rest = raw.skip(n);
    if whole_batch(rest, x, l) {
        assert forall|i: int| x + n <= i < x + n + l implies (#[trigger] raw[i]).lanes == l by {
            assert(rest[i - n].lanes == l);
        }
    }
    if whole_batch(raw, x + n, l) {
        assert forall|i: int| x <= i < x + l implies (#[trigger] rest[i]).lanes == l by {
            assert(raw[i + n].lanes == l);
        }
        assert(queries_from(rest, x, l) =~= queries_from(raw, x + n, l));
    }
}

/// What is cut from the rest of `raw` is cut from `raw`, where nothing is cut from its first `n`
/// queries.
proof fn lemma_cut_later<A>(
    raw: Seq<RawQuery<A>>,
    n: int,
    batches: Seq<Seq<Query<A>>>,
    later: Seq<int>,
    l: nat,
) -> (moved: Seq<int>)
    requires
        0 <= n <= raw.len(),
        are_cut(raw.skip(n), batches, later, l),
    ensures
        moved.len() == later.len(),
        moved.len() == batches.len(),
        forall|j: int|
            #![trigger moved[j]]
            0 <= j < moved.len() ==> moved[j] >= n && whole_batch(raw, moved[j], l) && batches[j]
                == queries_from(raw, moved[j], l),
        forall|i: int, j: int|
            #![trigger moved[i], moved[j]]
            0 <= i < j < moved.len() ==> moved[i] + l <= moved[j],
        forall|x: int|
            x >= n && #[trigger] whole_batch(raw, x, l) ==> is_batched(moved, x, l),
{
    let rest = raw.skip(n);
    let moved = later.map_values(|x: int| x + n);
    assert forall|j: int| #![trigger moved[j]] 0 <= j < moved.len() implies moved[j] >= n
        && whole_batch(raw, moved[j], l) && batches[j] == queries_from(raw, moved[j], l) by {
        assert(whole_batch(rest, later[j], l));
        lemma_moved(raw, n, later[j], l);
    }
    assert forall|i: int, j: int|
        #![trigger moved[i], moved[j]]
        0 <= i < j < moved.len() implies moved[i] + l <= moved[j] by {
        assert(later[i] + l <= later[j]);
    }
    assert forall|x: int| x >= n && #[trigger] whole_batch(raw, x, l) implies is_batched(
        moved,
        x,
        l,
    ) by {
        lemma_moved(raw, n, x - n, l);
        assert(is_batched(later, x - n, l));
        let j = choose|j: int|
            0 <= j < later.len() && (#[trigger] later[j]) <= x - n < later[j] + l;
        assert(moved[j] == later[j] + n);
    }
    moved
}

/// The batches of a trace are cut from the front.
#[verifier::rlimit(40)]
pub proof fn batches_are_cut_from_the_front<A>(raw: Seq<RawQuery<A>>, l: nat) -> (starts: Seq<int>)
    requires
        l > 1,
    ensures
        are_cut(raw, batches_of(raw, l), starts, l),
    decreases raw.len(),
{
    let batches = batches_of(raw, l);
    if raw.len() == 0 {
        Seq::empty()
    } else if raw[0].lanes != 1 && starts_batch(raw, l) {
        let n = l as int;
        let rest = raw.skip(n);
        let later = batches_are_cut_from_the_front(rest, l);
        let moved = lemma_cut_later(raw, n, batches_of(rest, l), later, l);
        let starts = seq![0int] + moved;
        assert(whole_batch(raw, 0, l));
        assert(batches[0] =~= queries_from(raw, 0, l));
        assert forall|j: int| #![trigger starts[j]] 0 <= j < starts.len() implies whole_batch(
            raw,
            starts[j],
            l,
        ) && batches[j] == queries_from(raw, starts[j], l) by {
            if j > 0 {
                assert(starts[j] == moved[j - 1]);
                assert(batches[j] == batches_of(rest, l)[j - 1]);
            }
        }
        assert forall|i: int, j: int|
            #![trigger starts[i], starts[j]]
            0 <= i < j < starts.len() implies starts[i] + l <= starts[j] by {
            assert(starts[j] == moved[j - 1]);
            if i > 0 {
                assert(starts[i] == moved[i - 1]);
            }
        }
        assert forall|x: int| #[trigger] whole_batch(raw, x, l) implies is_batched(
            starts,
            x,
            l,
        ) by {
            if x < n {
                assert(starts[0] <= x < starts[0] + l);
            } else {
                assert(is_batched(moved, x, l));
                let j = choose|j: int|
                    0 <= j < moved.len() && (#[trigger] moved[j]) <= x < moved[j] + l;
                assert(starts[j + 1] == moved[j]);
            }
        }
        starts
    } else {
        let rest = raw.skip(1);
        let later = batches_are_cut_from_the_front(rest, l);
        let moved = lemma_cut_later(raw, 1, batches_of(rest, l), later, l);
        assert forall|x: int| #[trigger] whole_batch(raw, x, l) implies is_batched(
            moved,
            x,
            l,
        ) by {
            if x < 1 {
                assert(raw[0].lanes == l);
                assert(starts_batch(raw, l));
            }
        }
        moved
    }
}

/// A batch that was recorded is one batch when it is read back and split, with the same centers and
/// radii in its lanes, and none of its queries counts as issued on its own.
pub proof fn recorded_batch_is_one_batch<A, const L: usize>(
    xs: [A; L],
    ys: [A; L],
    zs: [A; L],
    rs: [A; L],
    collided: [bool; L],
)
    requires
        1 < L <= u8::MAX,
    ensures
        ({
            let raw = lane_records(xs, ys, zs, rs, collided).map_values(
                |q: RecordedQuery<A>| raw_of(q),
            );
            let batches = batches_of(raw, L as nat);
            &&& batches.len() == 1
            &&& batches[0].len() == L
            &&& forall|l: int|
                #![trigger batches[0][l]]
                0 <= l < L ==> {
                    &&& batches[0][l].center@ == seq![xs@[l], ys@[l], zs@[l]]
                    &&& batches[0][l].r == rs@[l]
                }
            &&& scalars_of(raw, L as nat) == Seq::<Query<A>>::empty()
        }),
{
    let l = L as nat;
    let raw = lane_records(xs, ys, zs, rs, collided).map_values(|q: RecordedQuery<A>| raw_of(q));
    assert forall|j: int| 0 <= j < l implies (#[trigger] raw[j]).lanes == l by {}
    assert(raw[0].lanes != 1);
    assert(starts_batch(raw, l));
    let rest = raw.skip(l as int);
    assert(rest =~= Seq::<RawQuery<A>>::empty());
    assert(batches_of(rest, l) == Seq::<Seq<Query<A>>>::empty());
    assert(scalars_of(rest, l) == Seq::<Query<A>>::empty());
    let batches = batches_of(raw, l);
    assert forall|i: int| #![trigger batches[0][i]] 0 <= i < L implies {
        &&& batches[0][i].center@ == seq![xs@[i], ys@[i], zs@[i]]
        &&& batches[0][i].r == rs@[i]
    } by {
        assert(batches[0][i] == query_of(raw[i]));
        assert(batches[0][i].center@ =~= seq![xs@[i], ys@[i], zs@[i]]);
    }
}

// ---------------------------------------------------------------------------------------------
// Radii and traces
// ---------------------------------------------------------------------------------------------

/// Whether one of `queries` has the radius `r`.
pub open spec fn has_radius<A: Axis>(queries: Seq<RawQuery<A>>, r: A) -> bool {
    exists|i: int| 0 <= i < queries.len() && (#[trigger] queries[i]).r == r
}

/// The smallest radius of queries with finite radii is that of one of them, and no larger than any.
pub proof fn smallest_radius_is_reached<A: Axis>(queries: Seq<RawQuery<A>>)
    requires
        orders_values::<A>(),
        queries.len() > 0,
        forall|i: int| 0 <= i < queries.len() ==> (#[trigger] queries[i]).r.is_finite_spec(),
    ensures
        has_radius(queries, smallest_radius_spec(queries)),
        forall|i: int|
            0 <= i < queries.len() ==> le(
                smallest_radius_spec(queries),
                (#[trigger] queries[i]).r,
            ),
    decreases queries.len(),
{
    let fewer = queries.drop_last();
    let last = queries.len() - 1;
    let r = queries[last].r;
    assert(r.is_finite_spec());
    assert(le(r, r));
    assert(queries[last].r == r);
    if fewer.len() == 0 {
        assert(smallest_radius_spec(fewer) == A::INFINITY);
        assert(lt(r, A::INFINITY));
        assert(smallest_radius_spec(queries) == r);
    } else {
        assert forall|i: int| 0 <= i < fewer.len() implies (
        #[trigger] fewer[i]).r.is_finite_spec() by {
            assert(fewer[i] == queries[i]);
        }
        smallest_radius_is_reached(fewer);
        let m = smallest_radius_spec(fewer);
        let j = choose|j: int| 0 <= j < fewer.len() && (#[trigger] fewer[j]).r == m;
        assert(queries[j].r == m);
        assert(m.is_finite_spec());
        assert(le(m, m));
        assert forall|i: int| 0 <= i < queries.len() implies le(
            smallest_radius_spec(queries),
            (#[trigger] queries[i]).r,
        ) by {
            if i < last {
                assert(fewer[i] == queries[i]);
                assert(le(m, fewer[i].r));
            }
        }
    }
}

/// A structure is timed on all items, on those that collide and on those that do not, in this order,
/// as far as there are any.
pub proof fn traces_cover_the_items(n: nat, matching: Seq<usize>, not_matching: Seq<usize>)
    requires
        n <= usize::MAX,
    ensures
        ({
            let all = Seq::new(n, |i: int| i as usize);
            let traces = traces_spec(n, matching, not_matching);
            &&& n > 0 ==> traces.contains(("all"@, all))
            &&& matching.len() > 0 ==> traces.contains(("colliding"@, matching))
            &&& not_matching.len() > 0 ==> traces.contains(("non_colliding"@, not_matching))
            &&& forall|t: int|
                #![trigger traces[t]]
                0 <= t < traces.len() ==> traces[t].1.len() > 0 && (traces[t] == ("all"@, all)
                    || traces[t] == ("colliding"@, matching) || traces[t] == (
                    "non_colliding"@,
                    not_matching,
                ))
            &&& traces.len() == (if n > 0 {
                1int
            } else {
                0
            }) + (if matching.len() > 0 {
                1int
            } else {
                0
            }) + (if not_matching.len() > 0 {
                1int
            } else {
                0
            })
            &&& n > 0 ==> traces[0] == ("all"@, all)
            &&& not_matching.len() > 0 ==> traces.last() == ("non_colliding"@, not_matching)
        }),
{
    let all = Seq::new(n, |i: int| i as usize);
    let traces = traces_spec(n, matching, not_matching);
    let a = nonempty("all"@, all);
    let b = nonempty("colliding"@, matching);
    let c = nonempty("non_colliding"@, not_matching);
    assert(traces == a + b + c);
    if n > 0 {
        assert(traces[0] == ("all"@, all));
    }
    if matching.len() > 0 {
        assert(traces[a.len() as int] == ("colliding"@, matching));
    }
    if not_matching.len() > 0 {
        assert(traces[(a + b).len() as int] == ("non_colliding"@, not_matching));
    }
}

proof fn lemma_drawn<T>(items: Seq<T>, indices: Seq<usize>)
    requires
        distinct_below(indices, items.len()),
    ensures
        indices.map_values(|i: usize| items[i as int]).to_multiset().subset_of(
            items.to_multiset(),
        ),
    decreases items.len(),
{
    let drawn = indices.map_values(|i: usize| items[i as int]);
    drawn.to_multiset_ensures();
    items.to_multiset_ensures();
    if items.len() == 0 {
        if indices.len() > 0 {
            assert(indices[0] < 0);
        }
        assert(drawn =~= items);
    } else {
        let last = items.len() - 1;
        let fewer = items.drop_last();
        assert(fewer.push(items[last]) =~= items);
        fewer.to_multiset_ensures();
        if exists|j: int| 0 <= j < indices.len() && indices[j] == last {
            let j = choose|j: int| 0 <= j < indices.len() && indices[j] == last;
            let rest = indices.remove(j);
            assert forall|i: int| 0 <= i < rest.len() implies #[trigger] rest[i] < fewer.len() by {
                if i < j {
                    assert(rest[i] == indices[i]);
                } else {
                    assert(rest[i] == indices[i + 1]);
                }
            }
            assert(rest.no_duplicates());
            lemma_drawn(fewer, rest);
            let some = rest.map_values(|i: usize| fewer[i as int]);
            assert(some =~= drawn.remove(j));
            assert(drawn[j] == items[last]);
            assert(drawn.contains(items[last]));
            some.to_multiset_ensures();
        } else {
            assert forall|i: int| 0 <= i < indices.len() implies #[trigger] indices[i]
                < fewer.len() by {}
            lemma_drawn(fewer, indices);
            assert(indices.map_values(|i: usize| fewer[i as int]) =~= drawn);
        }
    }
}

/// A sample has `size` of the items, each no more often than it occurs among them, or all of them in
/// order where there are no more.
pub proof fn sample_is_a_part<T>(items: Seq<T>, size: nat, r: Seq<T>)
    requires
        is_sample(items, size, r),
    ensures
        items.len() <= size ==> r == items,
        items.len() > size ==> r.len() == size,
        r.to_multiset().subset_of(items.to_multiset()),
{
    if items.len() > size {
        let indices = choose|indices: Seq<usize>|
            indices.len() == size && #[trigger] distinct_below(indices, items.len()) && r
                == Seq::new(size, |i: int| items[indices[i] as int]);
        lemma_drawn(items, indices);
        assert(r =~= indices.map_values(|i: usize| items[i as int]));
    }
}

/// The number that bytes stand for as digits to base 31, the most significant first.
pub open spec fn to_base_31(bytes: Seq<u8>) -> int
    decreases bytes.len(),
{
    if bytes.len() == 0 {
        0
    } else {
        to_base_31(bytes.drop_last()) * 31 + bytes.last()
    }
}

/// A seed is the number that the bytes of the name stand for to base 31, as far as 64 bits reach.
pub proof fn seed_is_made_of_all_bytes(bytes: Seq<u8>)
    ensures
        seed_of(bytes) == to_base_31(bytes) % 0x1_0000_0000_0000_0000,
    decreases bytes.len(),
{
    if bytes.len() > 0 {
        seed_is_made_of_all_bytes(bytes.drop_last());
        let h = to_base_31(bytes.drop_last());
        let m = 0x1_0000_0000_0000_0000int;
        let b = bytes.last() as int;
        vstd::arithmetic::div_mod::lemma_mul_mod_noop_left(h, 31, m);
        vstd::arithmetic::div_mod::lemma_add_mod_noop(h * 31, b, m);
        vstd::arithmetic::div_mod::lemma_add_mod_noop((h % m) * 31, b, m);
    }
}

} // verus!

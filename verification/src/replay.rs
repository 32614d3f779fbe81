//! Preparing recorded queries for replay.

use crate::axis::{min, min_spec, Axis};
use crate::workload::{Query, RawQuery};
use rand::rngs::SmallRng;
use rand::SeedableRng;
use vstd::prelude::*;
use vstd::string::*;

verus! {

/// Maximum number of queries to try against the scalar/sequential trace for a single workload
/// (to prevent trace replay from taking too long).
pub const MAX_QUERIES: usize = 10_000;

/// SIMD lane width that is benchmarked. This must match the lane width that raked motion-segment
/// validity checks are recorded with (see [`RawQuery::lanes`]).
pub const SIMD_L: usize = 8;

/// Maximum number of SIMD batches to try against the parallel trace for a single workload.
/// Chosen so the total number of underlying scalar-equivalent queries replayed
/// (`MAX_SIMD_BATCHES * SIMD_L`) stays the same order of magnitude as [`MAX_QUERIES`].
pub const MAX_SIMD_BATCHES: usize = MAX_QUERIES / SIMD_L;

// ---------------------------------------------------------------------------------------------
// Recovering the batches
// ---------------------------------------------------------------------------------------------

/// A raw query without its tag.
pub open spec fn query_of<A>(q: RawQuery<A>) -> Query<A> {
    Query { center: q.center, r: q.r }
}

/// Whether `raw` starts with a whole batch of width `l`.
pub open spec fn starts_batch<A>(raw: Seq<RawQuery<A>>, l: nat) -> bool {
    &&& l <= raw.len()
    &&& forall|j: int| 0 <= j < l ==> (#[trigger] raw[j]).lanes == l
}

/// The individually-issued queries of a trace. A query that belongs to no whole batch of width
/// `l`, and was not issued on its own, is dropped.
pub open spec fn scalars_of<A>(raw: Seq<RawQuery<A>>, l: nat) -> Seq<Query<A>>
    decreases raw.len(),
{
    if raw.len() == 0 || l == 0 {
        Seq::empty()
    } else if raw[0].lanes == 1 {
        seq![query_of(raw[0])] + scalars_of(raw.skip(1), l)
    } else if starts_batch(raw, l) {
        scalars_of(raw.skip(l as int), l)
    } else {
        scalars_of(raw.skip(1), l)
    }
}

/// The batches of width `l` of a trace.
pub open spec fn batches_of<A>(raw: Seq<RawQuery<A>>, l: nat) -> Seq<Seq<Query<A>>>
    decreases raw.len(),
{
    if raw.len() == 0 || l == 0 {
        Seq::empty()
    } else if raw[0].lanes == 1 {
        batches_of(raw.skip(1), l)
    } else if starts_batch(raw, l) {
        seq![Seq::new(l, |j: int| query_of(raw[j]))] + batches_of(raw.skip(l as int), l)
    } else {
        batches_of(raw.skip(1), l)
    }
}

/// The lanes of each batch.
pub open spec fn lanes_of<A, const L: usize>(batches: Seq<[Query<A>; L]>) -> Seq<Seq<Query<A>>> {
    Seq::new(batches.len(), |i: int| batches[i]@)
}

/// Determine whether a whole batch of width `L` starts at `i`.
fn batch_at<A: Copy, const L: usize>(raw: &[RawQuery<A>], i: usize) -> (r: bool)
    requires
        i <= raw@.len(),
    ensures
        r == starts_batch(raw@.skip(i as int), L as nat),
{
    let ghost rest = raw@.skip(i as int);
    if raw.len() - i < L {
        return false;
    }
    let mut j: usize = 0;
    while j < L
        invariant
            j <= L,
            i + L <= raw@.len() <= usize::MAX,
            rest == raw@.skip(i as int),
            forall|k: int| 0 <= k < j ==> (#[trigger] rest[k]).lanes == L,
        decreases L - j,
    {
        assert(rest[j as int] == raw@[i + j]);
        if raw[i + j].lanes as usize != L {
            return false;
        }
        j += 1;
    }
    true
}

/// Split a raw query trace (in original planner-issue order) back into the two kinds of queries
/// the planner actually issues: individually-issued single-configuration checks (`lanes == 1`)
/// and `L`-wide SIMD batches issued together for raked motion-segment validity checks
/// (`lanes == L`).
///
/// A lane width that is neither (or a truncated trailing batch) is dropped rather than risk
/// misgrouping it with unrelated neighbors.
pub fn split_batches<A: Copy, const L: usize>(raw: &[RawQuery<A>]) -> (r: (
    Vec<Query<A>>,
    Vec<[Query<A>; L]>,
))
    requires
        L > 0,
    ensures
        r.0@ == scalars_of(raw@, L as nat),
        lanes_of(r.1@) == batches_of(raw@, L as nat),
{
    let mut scalar: Vec<Query<A>> = Vec::new();
    let mut batches: Vec<[Query<A>; L]> = Vec::new();
    let mut i: usize = 0;
    assert(raw@.skip(0) =~= raw@);
    assert(scalar@ + scalars_of(raw@, L as nat) =~= scalars_of(raw@, L as nat));
    assert(lanes_of(batches@) + batches_of(raw@, L as nat) =~= batches_of(raw@, L as nat));
    while i < raw.len()
        invariant
            i <= raw.len(),
            L > 0,
            scalar@ + scalars_of(raw@.skip(i as int), L as nat) == scalars_of(raw@, L as nat),
            lanes_of(batches@) + batches_of(raw@.skip(i as int), L as nat) == batches_of(
                raw@,
                L as nat,
            ),
        decreases raw.len() - i,
    {
        let ghost rest = raw@.skip(i as int);
        let ghost scalar_before = scalar@;
        let ghost batches_before = batches@;
        assert(rest[0] == raw@[i as int]);
        if raw[i].lanes == 1 {
            scalar.push(Query { center: raw[i].center, r: raw[i].r });
            proof {
                assert(rest.skip(1) =~= raw@.skip(i + 1));
                assert(scalar@ + scalars_of(rest.skip(1), L as nat) =~= scalar_before + scalars_of(
                    rest,
                    L as nat,
                ));
            }
            i += 1;
        } else if batch_at::<A, L>(raw, i) {
            let first: Query<A> = Query { center: raw[i].center, r: raw[i].r };
            let mut batch: [Query<A>; L] = [first; L];
            let mut j: usize = 0;
            while j < L
                invariant
                    j <= L,
                    i + L <= raw@.len() <= usize::MAX,
                    rest == raw@.skip(i as int),
                    forall|k: int| 0 <= k < j ==> #[trigger] batch@[k] == query_of(rest[k]),
                decreases L - j,
            {
                assert(rest[j as int] == raw@[i + j]);
                batch[j] = Query { center: raw[i + j].center, r: raw[i + j].r };
                j += 1;
            }
            batches.push(batch);
            proof {
                let lanes = Seq::new(L as nat, |j: int| query_of(rest[j]));
                assert(batch@ =~= lanes);
                assert(rest.skip(L as int) =~= raw@.skip(i + L));
                assert(lanes_of(batches@) =~= lanes_of(batches_before).push(lanes));
                assert(lanes_of(batches@) + batches_of(rest.skip(L as int), L as nat)
                    =~= lanes_of(batches_before) + batches_of(rest, L as nat));
            }
            i += L;
        } else {
            assert(rest.skip(1) =~= raw@.skip(i + 1));
            i += 1;
        }
    }
    proof {
        assert(scalar@ + scalars_of(raw@.skip(i as int), L as nat) =~= scalar@);
        assert(lanes_of(batches@) + batches_of(raw@.skip(i as int), L as nat) =~= lanes_of(
            batches@,
        ));
    }
    (scalar, batches)
}

/// What a planner asks: a query on its own, or a batch of queries.
pub enum Asked<A> {
    One(Query<A>),
    Batch(Seq<Query<A>>),
}

/// The raw trace of what a planner asks, in order.
pub open spec fn trace_of<A>(asked: Seq<Asked<A>>) -> Seq<RawQuery<A>>
    decreases asked.len(),
{
    if asked.len() == 0 {
        Seq::empty()
    } else {
        let rest = trace_of(asked.skip(1));
        match asked[0] {
            Asked::One(q) => seq![RawQuery { center: q.center, r: q.r, lanes: 1 }] + rest,
            Asked::Batch(qs) => Seq::new(
                qs.len(),
                |j: int|
                    RawQuery { center: qs[j].center, r: qs[j].r, lanes: qs.len() as u8 },
            ) + rest,
        }
    }
}

/// The queries that a planner asks on their own, in order.
pub open spec fn ones<A>(asked: Seq<Asked<A>>) -> Seq<Query<A>>
    decreases asked.len(),
{
    if asked.len() == 0 {
        Seq::empty()
    } else {
        match asked[0] {
            Asked::One(q) => seq![q] + ones(asked.skip(1)),
            Asked::Batch(qs) => ones(asked.skip(1)),
        }
    }
}

/// The batches that a planner asks, in order.
pub open spec fn whole_batches<A>(asked: Seq<Asked<A>>) -> Seq<Seq<Query<A>>>
    decreases asked.len(),
{
    if asked.len() == 0 {
        Seq::empty()
    } else {
        match asked[0] {
            Asked::One(q) => whole_batches(asked.skip(1)),
            Asked::Batch(qs) => seq![qs] + whole_batches(asked.skip(1)),
        }
    }
}

/// Splitting a trace recovers exactly what the planner asked, where all of its batches have the
/// width that is split by.
pub proof fn split_recovers_what_was_asked<A>(asked: Seq<Asked<A>>, l: nat)
    requires
        1 < l <= u8::MAX,
        forall|i: int|
            #![trigger asked[i]]
            0 <= i < asked.len() ==> (asked[i] matches Asked::Batch(qs) ==> qs.len() == l),
    ensures
        scalars_of(trace_of(asked), l) == ones(asked),
        batches_of(trace_of(asked), l) == whole_batches(asked),
    decreases asked.len(),
{
    if asked.len() > 0 {
        let rest = asked.skip(1);
        assert forall|i: int|
            #![trigger rest[i]]
            0 <= i < rest.len() implies (rest[i] matches Asked::Batch(qs) ==> qs.len() == l) by {
            assert(rest[i] == asked[i + 1]);
        }
        split_recovers_what_was_asked(rest, l);
        let raw = trace_of(asked);
        match asked[0] {
            Asked::One(q) => {
                assert(raw[0].lanes == 1);
                assert(raw.skip(1) =~= trace_of(rest));
                assert(query_of(raw[0]) == q);
            },
            Asked::Batch(qs) => {
                assert(qs.len() == l);
                assert forall|j: int| 0 <= j < l implies (#[trigger] raw[j]).lanes == l by {}
                assert(starts_batch(raw, l));
                assert(raw.skip(l as int) =~= trace_of(rest));
                assert(Seq::new(l, |j: int| query_of(raw[j])) =~= qs);
                assert(raw[0].lanes != 1);
            },
        }
    }
}

// ---------------------------------------------------------------------------------------------
// Subsampling
// ---------------------------------------------------------------------------------------------

/// Whether `indices` are distinct and below `len`.
pub open spec fn distinct_below(indices: Seq<usize>, len: nat) -> bool {
    &&& indices.no_duplicates()
    &&& forall|i: int| 0 <= i < indices.len() ==> #[trigger] indices[i] < len
}

/// Chooses `amount` distinct indices below `length` at random with `rand::seq::index::sample`,
/// from a `SmallRng` that is seeded with `seed`. The generator behind `SmallRng` differs between
/// platforms and versions, so which indices come out is left open. The choice of all indices is
/// left out: for lengths beyond 32 bits, a debug assertion of the sampler rules it out.
#[verifier::external_body]
fn sample_indices(length: usize, amount: usize, seed: u64) -> (r: Vec<usize>)
    requires
        amount < length,
    ensures
        r@.len() == amount,
        distinct_below(r@, length as nat),
{
    let mut rng = SmallRng::seed_from_u64(seed);
    rand::seq::index::sample(&mut rng, length, amount).into_vec()
}

/// Pick the items at `indices`, in that order.
pub fn pick<T: Copy>(items: &[T], indices: &[usize]) -> (r: Vec<T>)
    requires
        forall|i: int| 0 <= i < indices@.len() ==> #[trigger] indices@[i] < items@.len(),
    ensures
        r@ == Seq::new(indices@.len(), |i: int| items@[indices@[i] as int]),
{
    let mut r: Vec<T> = Vec::with_capacity(indices.len());
    let mut i: usize = 0;
    while i < indices.len()
        invariant
            i <= indices.len(),
            forall|i: int| 0 <= i < indices@.len() ==> #[trigger] indices@[i] < items@.len(),
            r@.len() == i,
            forall|j: int| 0 <= j < i ==> #[trigger] r@[j] == items@[indices@[j] as int],
        decreases indices.len() - i,
    {
        r.push(items[indices[i]]);
        i += 1;
    }
    assert(r@ =~= Seq::new(indices@.len(), |i: int| items@[indices@[i] as int]));
    r
}

/// Whether `r` is `items`, or, where there are more than `size`, that many of them, each at most
/// once.
pub open spec fn is_sample<T>(items: Seq<T>, size: nat, r: Seq<T>) -> bool {
    if items.len() <= size {
        r == items
    } else {
        exists|indices: Seq<usize>|
            indices.len() == size && #[trigger] distinct_below(indices, items.len()) && r
                == Seq::new(size, |i: int| items[indices[i] as int])
    }
}

/// Subsample `items` down to `size` (or return them unchanged if already at most `size`), seeded
/// by `seed` so runs are reproducible.
pub fn subsample<T: Copy>(items: Vec<T>, size: usize, seed: u64) -> (r: Vec<T>)
    ensures
        is_sample(items@, size as nat, r@),
{
    if items.len() <= size {
        return items;
    }
    let indices: Vec<usize> = sample_indices(items.len(), size, seed);
    assert(distinct_below(indices@, items@.len()));
    pick(&items, &indices)
}

/// A seed from the bytes of a name.
pub open spec fn seed_of(bytes: Seq<u8>) -> u64
    decreases bytes.len(),
{
    if bytes.len() == 0 {
        0
    } else {
        ((seed_of(bytes.drop_last()) * 31 + bytes.last()) % 0x1_0000_0000_0000_0000) as u64
    }
}

/// Compute a seed from the bytes of a name.
pub fn seed_from(name: &str) -> (seed: u64)
    ensures
        seed == seed_of(name.spec_bytes()),
{
    let bytes: &[u8] = name.as_bytes();
    let mut h: u64 = 0;
    let mut i: usize = 0;
    assert(bytes@.take(0) =~= Seq::<u8>::empty());
    while i < bytes.len()
        invariant
            i <= bytes.len(),
            h == seed_of(bytes@.take(i as int)),
        decreases bytes.len() - i,
    {
        proof {
            let taken = bytes@.take(i + 1);
            assert(taken.drop_last() =~= bytes@.take(i as int));
            assert(taken.last() == bytes@[i as int]);
        }
        h = h.wrapping_mul(31).wrapping_add(bytes[i] as u64);
        i += 1;
    }
    assert(bytes@.take(i as int) =~= bytes@);
    h
}

// ---------------------------------------------------------------------------------------------
// Traces
// ---------------------------------------------------------------------------------------------

/// Determine whether a batch collides, given whether each of its lanes does.
pub fn batch_collides(lanes: &[bool]) -> (r: bool)
    ensures
        r == exists|l: int| 0 <= l < lanes@.len() && #[trigger] lanes@[l],
{
    let mut l: usize = 0;
    while l < lanes.len()
        invariant
            l <= lanes.len(),
            forall|i: int| 0 <= i < l ==> !#[trigger] lanes@[i],
        decreases lanes.len() - l,
    {
        if lanes[l] {
            return true;
        }
        l += 1;
    }
    false
}

/// The positions at which `flags` is `wanted`, in ascending order.
pub open spec fn positions_of(flags: Seq<bool>, wanted: bool) -> Seq<usize>
    decreases flags.len(),
{
    if flags.len() == 0 {
        Seq::empty()
    } else {
        let sofar = positions_of(flags.drop_last(), wanted);
        if flags.last() == wanted {
            sofar.push((flags.len() - 1) as usize)
        } else {
            sofar
        }
    }
}

/// Partition indices by `flags`, returning `(matching, not_matching)`.
pub fn partition_indices(flags: &[bool]) -> (r: (Vec<usize>, Vec<usize>))
    ensures
        r.0@ == positions_of(flags@, true),
        r.1@ == positions_of(flags@, false),
{
    let mut yes: Vec<usize> = Vec::new();
    let mut no: Vec<usize> = Vec::new();
    let mut i: usize = 0;
    assert(flags@.take(0) =~= Seq::<bool>::empty());
    while i < flags.len()
        invariant
            i <= flags.len(),
            yes@ == positions_of(flags@.take(i as int), true),
            no@ == positions_of(flags@.take(i as int), false),
        decreases flags.len() - i,
    {
        proof {
            let taken = flags@.take(i + 1);
            assert(taken.drop_last() =~= flags@.take(i as int));
            assert(taken.last() == flags@[i as int]);
        }
        if flags[i] {
            yes.push(i);
        } else {
            no.push(i);
        }
        i += 1;
    }
    assert(flags@.take(i as int) =~= flags@);
    (yes, no)
}

/// Every position is in exactly one part: in the first where the flag is set, in the second where
/// it is not.
pub proof fn partition_is_complete(flags: Seq<bool>)
    requires
        flags.len() <= usize::MAX,
    ensures
        positions_of(flags, true).len() + positions_of(flags, false).len() == flags.len(),
        forall|i: usize| #[trigger]
            positions_of(flags, true).contains(i) <==> i < flags.len() && flags[i as int],
        forall|i: usize| #[trigger]
            positions_of(flags, false).contains(i) <==> i < flags.len() && !flags[i as int],
    decreases flags.len(),
{
    lemma_positions(flags, true);
    lemma_positions(flags, false);
    if flags.len() > 0 {
        partition_is_complete(flags.drop_last());
    }
}

/// Each part has its positions in ascending order.
pub proof fn positions_are_ascending(flags: Seq<bool>, wanted: bool)
    requires
        flags.len() <= usize::MAX,
    ensures
        forall|i: int|
            0 <= i < positions_of(flags, wanted).len() ==> #[trigger] positions_of(flags, wanted)[i]
                < flags.len(),
        forall|i: int, j: int|
            #![trigger positions_of(flags, wanted)[i], positions_of(flags, wanted)[j]]
            0 <= i < j < positions_of(flags, wanted).len() ==> positions_of(flags, wanted)[i]
                < positions_of(flags, wanted)[j],
    decreases flags.len(),
{
    if flags.len() > 0 {
        positions_are_ascending(flags.drop_last(), wanted);
        let sofar = positions_of(flags.drop_last(), wanted);
        let all = positions_of(flags, wanted);
        assert forall|i: int| 0 <= i < sofar.len() implies #[trigger] all[i] == sofar[i] by {}
    }
}

proof fn lemma_positions(flags: Seq<bool>, wanted: bool)
    requires
        flags.len() <= usize::MAX,
    ensures
        forall|i: usize| #[trigger]
            positions_of(flags, wanted).contains(i) <==> i < flags.len() && flags[i as int]
                == wanted,
    decreases flags.len(),
{
    if flags.len() > 0 {
        let fewer = flags.drop_last();
        lemma_positions(fewer, wanted);
        let sofar = positions_of(fewer, wanted);
        let all = positions_of(flags, wanted);
        let last = (flags.len() - 1) as usize;
        assert forall|i: usize| #[trigger] all.contains(i) <==> i < flags.len()
            && flags[i as int] == wanted by {
            if sofar.contains(i) {
                let j = choose|j: int| 0 <= j < sofar.len() && sofar[j] == i;
                assert(all[j] == i);
            }
            if i == last && flags.last() == wanted {
                assert(all[all.len() - 1] == i);
            }
            if all.contains(i) {
                let j = choose|j: int| 0 <= j < all.len() && all[j] == i;
                if j < sofar.len() {
                    assert(sofar[j] == i);
                }
            }
        }
    }
}

/// The names of the traces that a structure is timed on, with the indices of the items in each:
/// all items, those that collide and those that do not. A trace without items is left out.
pub open spec fn traces_spec(n: nat, matching: Seq<usize>, not_matching: Seq<usize>) -> Seq<
    (Seq<char>, Seq<usize>),
> {
    let all = Seq::new(n, |i: int| i as usize);
    nonempty("all"@, all) + nonempty("colliding"@, matching) + nonempty(
        "non_colliding"@,
        not_matching,
    )
}

/// A trace, unless it has no items.
pub open spec fn nonempty(name: Seq<char>, items: Seq<usize>) -> Seq<(Seq<char>, Seq<usize>)> {
    if items.len() == 0 {
        Seq::empty()
    } else {
        seq![(name, items)]
    }
}

/// The names and items of traces.
pub open spec fn named(traces: Seq<(&'static str, Vec<usize>)>) -> Seq<(Seq<char>, Seq<usize>)> {
    Seq::new(traces.len(), |i: int| (traces[i].0@, traces[i].1@))
}

/// Split `n` items into `(all, matching, not_matching)` traces, using the precomputed
/// `matching`/`not_matching` index sets, and skip empty traces.
pub fn traces(n: usize, matching: Vec<usize>, not_matching: Vec<usize>) -> (r: Vec<
    (&'static str, Vec<usize>),
>)
    ensures
        named(r@) == traces_spec(n as nat, matching@, not_matching@),
{
    let mut all: Vec<usize> = Vec::with_capacity(n);
    let mut i: usize = 0;
    while i < n
        invariant
            i <= n,
            all@ == Seq::new(i as nat, |i: int| i as usize),
        decreases n - i,
    {
        all.push(i);
        assert(all@ =~= Seq::new((i + 1) as nat, |i: int| i as usize));
        i += 1;
    }
    let ghost whole = all@;
    let mut r: Vec<(&'static str, Vec<usize>)> = Vec::new();
    if all.len() > 0 {
        r.push(("all", all));
    }
    assert(named(r@) =~= nonempty("all"@, whole));
    if matching.len() > 0 {
        r.push(("colliding", matching));
    }
    assert(named(r@) =~= nonempty("all"@, whole) + nonempty("colliding"@, matching@));
    if not_matching.len() > 0 {
        r.push(("non_colliding", not_matching));
    }
    assert(named(r@) =~= traces_spec(n as nat, matching@, not_matching@));
    r
}

/// Convert one batch (`L` queries issued together during planning) into the input format of
/// batched queries: the coordinates axis by axis, and the radii.
pub fn batch_to_simd<A: Copy, const L: usize>(batch: &[Query<A>; L]) -> (r: ([[A; L]; 3], [A; L]))
    requires
        L > 0,
    ensures
        forall|k: int, l: int|
            #![trigger r.0@[k]@[l]]
            0 <= k < 3 && 0 <= l < L ==> r.0@[k]@[l] == batch@[l].center@[k],
        forall|l: int| 0 <= l < L ==> #[trigger] r.1@[l] == batch@[l].r,
{
    let mut xs: [A; L] = [batch[0].center[0]; L];
    let mut ys: [A; L] = [batch[0].center[1]; L];
    let mut zs: [A; L] = [batch[0].center[2]; L];
    let mut radii: [A; L] = [batch[0].r; L];
    let mut l: usize = 0;
    while l < L
        invariant
            l <= L,
            forall|i: int|
                #![trigger batch@[i]]
                0 <= i < l ==> {
                    &&& xs@[i] == batch@[i].center@[0]
                    &&& ys@[i] == batch@[i].center@[1]
                    &&& zs@[i] == batch@[i].center@[2]
                    &&& radii@[i] == batch@[i].r
                },
        decreases L - l,
    {
        let q: Query<A> = batch[l];
        xs[l] = q.center[0];
        ys[l] = q.center[1];
        zs[l] = q.center[2];
        radii[l] = q.r;
        l += 1;
    }
    let r = ([xs, ys, zs], radii);
    proof {
        assert forall|k: int, l: int|
            #![trigger r.0@[k]@[l]]
            0 <= k < 3 && 0 <= l < L implies r.0@[k]@[l] == batch@[l].center@[k] by {
            assert(batch@[l] == batch@[l]);
        }
        assert forall|l: int| 0 <= l < L implies #[trigger] r.1@[l] == batch@[l].r by {
            assert(batch@[l] == batch@[l]);
        }
    }
    r
}

/// Group `queries` into batches of `L`. Any remainder that doesn't fill a full batch of `L` is
/// dropped.
pub fn to_batches<A: Copy, const L: usize>(queries: &[Query<A>]) -> (r: Vec<[Query<A>; L]>)
    requires
        L > 0,
    ensures
        r@.len() == queries@.len() / L as nat,
        forall|i: int, l: int|
            #![trigger r@[i]@[l]]
            0 <= i < r@.len() && 0 <= l < L ==> r@[i]@[l] == queries@[i * L + l],
{
    let mut r: Vec<[Query<A>; L]> = Vec::new();
    let mut at: usize = 0;
    proof {
        assert(queries@.len() == queries.len());
        assert(0 * L == 0) by (nonlinear_arith);
    }
    while queries.len() - at >= L
        invariant
            L > 0,
            at <= queries@.len() <= usize::MAX,
            at == r@.len() * L,
            forall|i: int, l: int|
                #![trigger r@[i]@[l]]
                0 <= i < r@.len() && 0 <= l < L ==> r@[i]@[l] == queries@[i * L + l],
        decreases queries.len() - at,
    {
        let mut batch: [Query<A>; L] = [queries[at]; L];
        let mut l: usize = 0;
        while l < L
            invariant
                l <= L,
                at + L <= queries@.len() <= usize::MAX,
                forall|j: int| 0 <= j < l ==> #[trigger] batch@[j] == queries@[at + j],
            decreases L - l,
        {
            batch[l] = queries[at + l];
            l += 1;
        }
        let ghost n = r@.len();
        r.push(batch);
        proof {
            assert((n + 1) * L == n * L + L) by (nonlinear_arith);
        }
        at = at + L;
    }
    proof {
        let n = r@.len();
        let len = queries@.len();
        assert(len / L as nat == n) by (nonlinear_arith)
            requires
                n * L <= len,
                len < n * L + L,
                L > 0,
        ;
    }
    r
}

// ---------------------------------------------------------------------------------------------
// Loading
// ---------------------------------------------------------------------------------------------

/// The smallest radius of `queries`.
pub open spec fn smallest_radius_spec<A: Axis>(queries: Seq<RawQuery<A>>) -> A
    decreases queries.len(),
{
    if queries.len() == 0 {
        A::INFINITY
    } else {
        min_spec(smallest_radius_spec(queries.drop_last()), queries.last().r)
    }
}

/// Compute the smallest radius of `queries`.
pub fn smallest_radius<A: Axis>(queries: &[RawQuery<A>]) -> (r: A)
    ensures
        r == smallest_radius_spec(queries@),
{
    let mut r = A::INFINITY;
    let mut i: usize = 0;
    assert(queries@.take(0) =~= Seq::<RawQuery<A>>::empty());
    while i < queries.len()
        invariant
            i <= queries.len(),
            r == smallest_radius_spec(queries@.take(i as int)),
        decreases queries.len() - i,
    {
        proof {
            let taken = queries@.take(i + 1);
            assert(taken.drop_last() =~= queries@.take(i as int));
            assert(taken.last() == queries@[i as int]);
        }
        r = min(r, queries[i].r);
        i += 1;
    }
    assert(queries@.take(i as int) =~= queries@);
    r
}

/// The queries of a workload, ready for replay.
#[derive(Clone, Debug)]
pub struct Replay<A> {
    /// The smallest radius that is queried.
    pub r_min: A,
    /// The queries that were issued on their own, at most [`MAX_QUERIES`] of them.
    pub scalar_queries: Vec<Query<A>>,
    /// The batches of queries, at most [`MAX_SIMD_BATCHES`] of them.
    pub simd_batches: Vec<[Query<A>; SIMD_L]>,
}

/// Prepare the raw trace of the workload called `name` for replay: split it into queries and
/// batches, and subsample each with a seed from the name, so that every run replays the same
/// queries for a given workload.
pub fn prepare<A: Axis>(name: &str, raw: &[RawQuery<A>]) -> (r: Replay<A>)
    ensures
        r.r_min == smallest_radius_spec(raw@),
        is_sample(scalars_of(raw@, SIMD_L as nat), MAX_QUERIES as nat, r.scalar_queries@),
        is_sample(
            batches_of(raw@, SIMD_L as nat),
            MAX_SIMD_BATCHES as nat,
            lanes_of(r.simd_batches@),
        ),
{
    let (all_scalar, all_batches) = split_batches::<A, SIMD_L>(raw);
    let seed: u64 = seed_from(name);
    let scalar_queries: Vec<Query<A>> = subsample(all_scalar, MAX_QUERIES, seed);
    let simd_batches: Vec<[Query<A>; SIMD_L]> = subsample(
        all_batches,
        MAX_SIMD_BATCHES,
        seed.wrapping_add(1),
    );
    proof {
        if all_batches@.len() > MAX_SIMD_BATCHES {
            let indices = choose|indices: Seq<usize>|
                indices.len() == MAX_SIMD_BATCHES && #[trigger] distinct_below(
                    indices,
                    all_batches@.len(),
                ) && simd_batches@ == Seq::new(
                    MAX_SIMD_BATCHES as nat,
                    |i: int| all_batches@[indices[i] as int],
                );
            assert(distinct_below(indices, lanes_of(all_batches@).len()));
            assert(lanes_of(simd_batches@) =~= Seq::new(
                MAX_SIMD_BATCHES as nat,
                |i: int| lanes_of(all_batches@)[indices[i] as int],
            ));
        }
    }
    Replay { r_min: smallest_radius(raw), scalar_queries, simd_batches }
}

} // verus!

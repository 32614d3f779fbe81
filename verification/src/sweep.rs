//! Choosing a voxel width by trying candidates.

use crate::axis::{lt, max, max_spec, minus, over, plus, times, Axis};
use crate::filter::{centervox_filter, kept_points, lowest, morton_filter, morton_filtered};
use crate::replay::SIMD_L;
use crate::text::same_text;
use vstd::prelude::*;

verus! {

/// Number of linearly-spaced voxel-width candidates tried per robot.
pub const N_SWEEP_CANDIDATES: usize = 47;

/// Number of SIMD batches per workload used to evaluate each sweep candidate.
pub const SWEEP_BATCHES_PER_WORKLOAD: usize = 2_000 / SIMD_L;

/// The candidate with number `i`: linearly spaced from 4 to 50 hundredths.
pub open spec fn candidate_spec<A: Axis>(i: usize) -> A {
    let hundred = A::from_usize_spec(100);
    let lo = over(A::from_usize_spec(4), hundred);
    let hi = over(A::from_usize_spec(50), hundred);
    let t = over(A::from_usize_spec(i), A::from_usize_spec(46));
    plus(lo, times(minus(hi, lo), t))
}

/// Compute the schedule of voxel widths to try: the linearly spaced candidates, and the robot's
/// own maximum radius as an extra, separately-marked one.
pub fn candidates<A: Axis>(r_max: A) -> (r: Vec<(A, bool)>)
    ensures
        r@.len() == N_SWEEP_CANDIDATES + 1,
        forall|i: int|
            0 <= i < N_SWEEP_CANDIDATES ==> #[trigger] r@[i] == (
                candidate_spec::<A>(i as usize),
                false,
            ),
        r@[N_SWEEP_CANDIDATES as int] == (r_max, true),
{
    let mut r: Vec<(A, bool)> = Vec::with_capacity(N_SWEEP_CANDIDATES + 1);
    let mut i: usize = 0;
    while i < N_SWEEP_CANDIDATES
        invariant
            i <= N_SWEEP_CANDIDATES,
            r@.len() == i,
            forall|j: int|
                0 <= j < i ==> #[trigger] r@[j] == (candidate_spec::<A>(j as usize), false),
        decreases N_SWEEP_CANDIDATES - i,
    {
        proof {
            A::total_operators();
        }
        let hundred = A::from_usize(100);
        let lo = A::from_usize(4) / hundred;
        let hi = A::from_usize(50) / hundred;
        let t = A::from_usize(i) / A::from_usize(N_SWEEP_CANDIDATES - 1);
        r.push((lo + (hi - lo) * t, false));
        i += 1;
    }
    r.push((r_max, true));
    r
}

/// The largest of `radii`, and no less than zero.
pub open spec fn largest_spec<A: Axis>(radii: Seq<A>) -> A
    decreases radii.len(),
{
    if radii.len() == 0 {
        A::ZERO
    } else {
        max_spec(largest_spec(radii.drop_last()), radii.last())
    }
}

/// Compute the largest of `radii`, and no less than zero.
pub fn largest<A: Axis>(radii: &[A]) -> (r: A)
    ensures
        r == largest_spec(radii@),
{
    let mut r = A::ZERO;
    let mut i: usize = 0;
    assert(radii@.take(0) =~= Seq::<A>::empty());
    while i < radii.len()
        invariant
            i <= radii.len(),
            r == largest_spec(radii@.take(i as int)),
        decreases radii.len() - i,
    {
        proof {
            let taken = radii@.take(i + 1);
            assert(taken.drop_last() =~= radii@.take(i as int));
            assert(taken.last() == radii@[i as int]);
        }
        r = max(r, radii[i]);
        i += 1;
    }
    assert(radii@.take(i as int) =~= radii@);
    r
}

/// How many batches of a workload to time a candidate on, given how many points are left after
/// filtering and how many batches there are; `None` if the workload is left out.
pub fn sample_len(n_points: usize, n_batches: usize) -> (r: Option<usize>)
    ensures
        r == if n_points == 0 || n_batches == 0 {
            None
        } else if n_batches <= SWEEP_BATCHES_PER_WORKLOAD {
            Some(n_batches)
        } else {
            Some(SWEEP_BATCHES_PER_WORKLOAD)
        },
{
    if n_points == 0 || n_batches == 0 {
        None
    } else if n_batches <= SWEEP_BATCHES_PER_WORKLOAD {
        Some(n_batches)
    } else {
        Some(SWEEP_BATCHES_PER_WORKLOAD)
    }
}

/// The time that a candidate has taken so far, and on how many queries.
#[derive(Clone, Copy, Debug)]
pub struct Tally<T> {
    pub total_ns: T,
    pub total_queries: usize,
}

impl<T: Axis> Tally<T> {
    /// Start with nothing.
    pub fn new() -> (r: Self)
        ensures
            r == (Tally { total_ns: T::ZERO, total_queries: 0 }),
    {
        Tally { total_ns: T::ZERO, total_queries: 0 }
    }

    /// Add the time that `batches` batches of [`SIMD_L`] queries took.
    pub fn record(&mut self, batches: usize, ns: T)
        requires
            old(self).total_queries + batches * SIMD_L <= usize::MAX,
        ensures
            final(self).total_ns == plus(old(self).total_ns, ns),
            final(self).total_queries == old(self).total_queries + batches * SIMD_L,
    {
        proof {
            T::total_operators();
        }
        self.total_ns = self.total_ns + ns;
        self.total_queries = self.total_queries + batches * SIMD_L;
    }

    /// Compute the mean time per query; `None` if there were no queries.
    pub fn mean(&self) -> (r: Option<T>)
        ensures
            r == if self.total_queries == 0 {
                None
            } else {
                Some(over(self.total_ns, T::from_usize_spec(self.total_queries)))
            },
    {
        proof {
            T::total_operators();
        }
        if self.total_queries == 0 {
            None
        } else {
            Some(self.total_ns / T::from_usize(self.total_queries))
        }
    }
}

/// The best width and its time after `results`: a width replaces the best one only if it is
/// strictly faster; a width without a time was not tried.
pub open spec fn best_spec<A: Axis, T: Axis>(default: A, results: Seq<(A, Option<T>)>) -> (A, T)
    decreases results.len(),
{
    if results.len() == 0 {
        (default, T::INFINITY)
    } else {
        let sofar = best_spec(default, results.drop_last());
        match results.last().1 {
            Some(mean) => if lt(mean, sofar.1) {
                (results.last().0, mean)
            } else {
                sofar
            },
            None => sofar,
        }
    }
}

/// Select the voxel width with the smallest mean time, or `default` where none was timed.
pub fn best<A: Axis, T: Axis>(default: A, results: &[(A, Option<T>)]) -> (r: (A, T))
    ensures
        r == best_spec(default, results@),
{
    let mut width = default;
    let mut time = T::INFINITY;
    let mut i: usize = 0;
    assert(results@.take(0) =~= Seq::<(A, Option<T>)>::empty());
    while i < results.len()
        invariant
            i <= results.len(),
            (width, time) == best_spec(default, results@.take(i as int)),
        decreases results.len() - i,
    {
        proof {
            T::total_operators();
            let taken = results@.take(i + 1);
            assert(taken.drop_last() =~= results@.take(i as int));
            assert(taken.last() == results@[i as int]);
        }
        if let Some(mean) = results[i].1 {
            if mean < time {
                width = results[i].0;
                time = mean;
            }
        }
        i += 1;
    }
    assert(results@.take(i as int) =~= results@);
    (width, time)
}

/// Where the times compare, none of them is smaller than the one that was selected.
pub proof fn best_is_smallest<A: Axis, T: Axis>(default: A, results: Seq<(A, Option<T>)>, i: int)
    requires
        crate::laws::orders_values::<T>(),
        0 <= i < results.len(),
        results[i].1 is Some,
        forall|j: int|
            0 <= j < results.len() && (#[trigger] results[j]).1 is Some
                ==> results[j].1->0.is_finite_spec(),
    ensures
        crate::axis::le(best_spec(default, results).1, results[i].1->0),
        best_spec(default, results).1.is_finite_spec(),
    decreases results.len(),
{
    let fewer = results.drop_last();
    assert forall|j: int|
        0 <= j < fewer.len() && (#[trigger] fewer[j]).1 is Some implies fewer[j].1->0.is_finite_spec() by {
        assert(fewer[j] == results[j]);
    }
    let sofar = best_spec(default, fewer).1;
    lemma_best_bound(default, fewer);
    assert(results[results.len() - 1] == results.last());
    if i < fewer.len() {
        assert(fewer[i] == results[i]);
        best_is_smallest(default, fewer, i);
        if let Some(mean) = results.last().1 {
            assert(crate::axis::ordered(mean) && crate::axis::ordered(sofar));
            if lt(mean, sofar) {
                assert(crate::axis::le(mean, sofar));
            }
        }
    } else {
        let mean = results.last().1->0;
        assert(mean.is_finite_spec());
        assert(crate::axis::ordered(mean) && crate::axis::ordered(sofar));
        if !lt(mean, sofar) {
            assert(crate::axis::le(sofar, mean));
            assert(sofar != T::INFINITY);
        }
    }
}

proof fn lemma_best_bound<A: Axis, T: Axis>(default: A, results: Seq<(A, Option<T>)>)
    requires
        crate::laws::orders_values::<T>(),
        forall|j: int|
            0 <= j < results.len() && (#[trigger] results[j]).1 is Some
                ==> results[j].1->0.is_finite_spec(),
    ensures
        best_spec(default, results).1.is_finite_spec() || best_spec(default, results).1
            == T::INFINITY,
    decreases results.len(),
{
    if results.len() > 0 {
        let fewer = results.drop_last();
        assert forall|j: int|
            0 <= j < fewer.len()
                && (#[trigger] fewer[j]).1 is Some implies fewer[j].1->0.is_finite_spec() by {
            assert(fewer[j] == results[j]);
        }
        lemma_best_bound(default, fewer);
        assert(results[results.len() - 1] == results.last());
    }
}

/// Whether there is a filter called `name`.
pub open spec fn is_filter(name: Seq<char>) -> bool {
    name == "centervox"@ || name == "morton"@
}

/// Downsample `points` with the named filter at the given `resolution` (voxel size / minimum
/// separation).
pub fn apply_filter<A: Axis>(name: &str, points: &Vec<[A; 3]>, resolution: A) -> (r: Vec<[A; 3]>)
    requires
        is_filter(name@),
    ensures
        name@ == "centervox"@ ==> r@ == kept_points(points@, lowest(points@), resolution),
        name@ == "morton"@ ==> r@ == morton_filtered(points@, resolution),
{
    proof {
        reveal_strlit("centervox");
        reveal_strlit("morton");
        assert("centervox"@.len() != "morton"@.len());
    }
    if same_text(name, "centervox") {
        centervox_filter(points.as_slice(), resolution)
    } else {
        let mut filtered: Vec<[A; 3]> = crate::filter::copy_of(points.as_slice());
        morton_filter(&mut filtered, resolution);
        filtered
    }
}

} // verus!

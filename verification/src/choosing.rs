//! What the sweep over voxel widths chooses, and which problems are attempted.

use crate::axis::{gt, le, lt, minus, over, times, Axis};
use crate::exact::{
    compares_numbers, exact_count, exact_minus, exact_over, exact_plus, exact_times,
};
use crate::laws::orders_values;
use crate::planning::{checked, Check, SolveError};
use crate::sweep::{best_spec, candidate_spec, largest_spec, N_SWEEP_CANDIDATES};
use vstd::prelude::*;

verus! {

// ---------------------------------------------------------------------------------------------
// Candidates
// ---------------------------------------------------------------------------------------------

/// Nothing rounds in computing candidate `i`.
pub open spec fn exact_candidate<A: Axis>(value: spec_fn(A) -> real, i: usize) -> bool {
    let hundred = A::from_usize_spec(100);
    let lo = over(A::from_usize_spec(4), hundred);
    let hi = over(A::from_usize_spec(50), hundred);
    let t = over(A::from_usize_spec(i), A::from_usize_spec(46));
    &&& exact_count(value, 4)
    &&& exact_count(value, 50)
    &&& exact_count(value, 100)
    &&& exact_count(value, 46)
    &&& exact_count(value, i)
    &&& exact_over(value, A::from_usize_spec(4), hundred)
    &&& exact_over(value, A::from_usize_spec(50), hundred)
    &&& exact_over(value, A::from_usize_spec(i), A::from_usize_spec(46))
    &&& exact_minus(value, hi, lo)
    &&& exact_times(value, minus(hi, lo), t)
    &&& exact_plus(value, lo, times(minus(hi, lo), t))
}

/// The candidates are four, five, and so on up to fifty hundredths.
pub proof fn candidates_are_hundredths<A: Axis>(value: spec_fn(A) -> real, i: usize)
    requires
        exact_candidate(value, i),
        i < N_SWEEP_CANDIDATES,
    ensures
        value(candidate_spec::<A>(i)) * (100 as real) == (4 + i) as real,
        value(candidate_spec::<A>(i)) * (100 as real) <= 50 as real,
{
    let hundred = A::from_usize_spec(100);
    let lo = value(over(A::from_usize_spec(4), hundred));
    let hi = value(over(A::from_usize_spec(50), hundred));
    let t = value(over(A::from_usize_spec(i), A::from_usize_spec(46)));
    let x = value(candidate_spec::<A>(i));
    let n = i as real;
    assert(x == lo + (hi - lo) * t);
    assert((4 + i) as real == 4 as real + n);
    assert(x * (100 as real) == 4 as real + n) by (nonlinear_arith)
        requires
            x == lo + (hi - lo) * t,
            lo * (100 as real) == 4 as real,
            hi * (100 as real) == 50 as real,
            t * (46 as real) == n,
    ;
}

/// The largest of finite radii is one of them or zero, and no smaller than any of these.
pub proof fn largest_is_reached<A: Axis>(radii: Seq<A>)
    requires
        orders_values::<A>(),
        A::ZERO.is_finite_spec(),
        forall|i: int| 0 <= i < radii.len() ==> (#[trigger] radii[i]).is_finite_spec(),
    ensures
        largest_spec(radii) == A::ZERO || radii.contains(largest_spec(radii)),
        le(A::ZERO, largest_spec(radii)),
        forall|i: int| 0 <= i < radii.len() ==> le(#[trigger] radii[i], largest_spec(radii)),
    decreases radii.len(),
{
    if radii.len() == 0 {
        assert(le(A::ZERO, A::ZERO));
    } else {
        let fewer = radii.drop_last();
        let last = radii.len() - 1;
        assert forall|i: int| 0 <= i < fewer.len() implies (
        #[trigger] fewer[i]).is_finite_spec() by {
            assert(fewer[i] == radii[i]);
        }
        largest_is_reached(fewer);
        let m = largest_spec(fewer);
        let r = radii[last];
        assert(radii.contains(r));
        if fewer.contains(m) {
            let j = choose|j: int| 0 <= j < fewer.len() && fewer[j] == m;
            assert(fewer[j].is_finite_spec());
            assert(radii[j] == m);
            assert(radii.contains(m));
        }
        assert(m.is_finite_spec() && r.is_finite_spec());
        assert(le(m, m) && le(r, r));
        assert(gt(r, m) <==> lt(m, r));
        assert forall|i: int| 0 <= i < radii.len() implies le(
            #[trigger] radii[i],
            largest_spec(radii),
        ) by {
            if i < last {
                assert(fewer[i] == radii[i]);
                assert(le(fewer[i], m));
            }
        }
    }
}

/// Whether the width at position `i` of `results` was timed.
pub open spec fn is_timed<A: Axis, T: Axis>(results: Seq<(A, Option<T>)>, i: int) -> bool {
    0 <= i < results.len() && results[i].1 is Some
}

/// The width that is chosen is the first of those with the smallest time, with that time; where
/// none was timed, it is the default.
pub proof fn best_is_the_first_smallest<A: Axis, T: Axis>(
    value: spec_fn(T) -> real,
    default: A,
    results: Seq<(A, Option<T>)>,
) -> (n: Option<int>)
    requires
        compares_numbers(value),
        forall|i: int| #[trigger]
            is_timed(results, i) ==> results[i].1->0.is_finite_spec() && lt(
                results[i].1->0,
                T::INFINITY,
            ),
    ensures
        n is None <==> forall|i: int| !is_timed(results, i),
        n is None ==> best_spec(default, results) == (default, T::INFINITY),
        n matches Some(m) ==> {
            &&& is_timed(results, m)
            &&& best_spec(default, results) == (results[m].0, results[m].1->0)
            &&& forall|i: int| #[trigger]
                is_timed(results, i) ==> value(results[m].1->0) <= value(results[i].1->0)
            &&& forall|i: int| #[trigger]
                is_timed(results, i) && i < m ==> value(results[m].1->0) < value(results[i].1->0)
        },
    decreases results.len(),
{
    if results.len() == 0 {
        assert forall|i: int| !is_timed(results, i) by {}
        None
    } else {
        let fewer = results.drop_last();
        let last = results.len() - 1;
        assert forall|i: int| #[trigger] is_timed(fewer, i) implies fewer[i].1->0.is_finite_spec()
            && lt(fewer[i].1->0, T::INFINITY) by {
            assert(is_timed(results, i));
        }
        let before = best_is_the_first_smallest(value, default, fewer);
        assert forall|i: int| #[trigger] is_timed(results, i) && i < last implies is_timed(
            fewer,
            i,
        ) by {}
        assert forall|i: int| is_timed(fewer, i) implies #[trigger] is_timed(results, i) by {}
        match before {
            None => {
                if is_timed(results, last) {
                    Some(last)
                } else {
                    assert forall|i: int| !is_timed(results, i) by {
                        if is_timed(results, i) && i < last {
                            assert(is_timed(fewer, i));
                        }
                    }
                    None
                }
            },
            Some(m) => {
                assert(is_timed(fewer, m));
                assert(is_timed(results, m));
                if is_timed(results, last) && value(results[last].1->0) < value(
                    results[m].1->0,
                ) {
                    Some(last)
                } else {
                    Some(m)
                }
            },
        }
    }
}

// ---------------------------------------------------------------------------------------------
// Problems
// ---------------------------------------------------------------------------------------------

/// A problem is turned down for a start out of bounds before a goal out of bounds, for these before
/// a start in collision, and for all of them before a goal in collision; it is attempted where none
/// of these holds.
pub proof fn problem_is_turned_down_in_order(passes: spec_fn(Check) -> bool)
    ensures
        ({
            let r = checked(Check::StartInBounds, passes);
            let start_in = passes(Check::StartInBounds);
            let goal_in = passes(Check::GoalInBounds);
            let start_free = passes(Check::StartValid);
            let goal_free = passes(Check::GoalValid);
            &&& r == Err::<(), SolveError>(SolveError::StartOutOfBounds) <==> !start_in
            &&& r == Err::<(), SolveError>(SolveError::GoalOutOfBounds) <==> start_in && !goal_in
            &&& r == Err::<(), SolveError>(SolveError::InvalidStart) <==> start_in && goal_in
                && !start_free
            &&& r == Err::<(), SolveError>(SolveError::InvalidGoal) <==> start_in && goal_in
                && start_free && !goal_free
            &&& r == Ok::<(), SolveError>(()) <==> start_in && goal_in && start_free && goal_free
        }),
{
    reveal_with_fuel(checked, 5);
}

} // verus!

//! The cubic workspace around a cloud.
//!
//! Where nothing rounds, it is a cube around the middle of the cloud that holds every point with room
//! for the largest sphere.

use crate::axis::{gt, le, lt, max_spec, minus, over, plus, times, Axis};
use crate::exact::{
    compares_numbers, exact_count, exact_minus, exact_over, exact_plus, exact_times,
};
use crate::mvt_cpp::{extremes, half_side, longest, middle};
use vstd::prelude::*;

verus! {

/// Whether one of `points` has the coordinate `x` on axis `k`.
pub open spec fn has_coordinate<A: Axis>(points: Seq<[A; 3]>, k: int, x: A) -> bool {
    exists|i: int| 0 <= i < points.len() && #[trigger] points[i][k] == x
}

/// The extremes of finite points bound them on each axis, and each is the coordinate of some point.
pub proof fn extremes_bound_the_points<A: Axis>(
    value: spec_fn(A) -> real,
    points: Seq<[A; 3]>,
    k: int,
)
    requires
        compares_numbers(value),
        points.len() > 0,
        0 <= k < 3,
        forall|i: int| 0 <= i < points.len() ==> (#[trigger] points[i][k]).is_finite_spec(),
    ensures
        extremes(points).0.len() == 3,
        extremes(points).1.len() == 3,
        has_coordinate(points, k, extremes(points).0[k]),
        has_coordinate(points, k, extremes(points).1[k]),
        extremes(points).0[k].is_finite_spec(),
        extremes(points).1[k].is_finite_spec(),
        forall|i: int|
            0 <= i < points.len() ==> value(extremes(points).0[k]) <= value(
                #[trigger] points[i][k],
            ) && value(points[i][k]) <= value(extremes(points).1[k]),
    decreases points.len(),
{
    let last = points.len() - 1;
    let x = points[last][k];
    assert(x.is_finite_spec());
    if points.len() == 1 {
        assert(points[0][k] == x);
    } else {
        let fewer = points.drop_last();
        assert forall|i: int| 0 <= i < fewer.len() implies (
        #[trigger] fewer[i][k]).is_finite_spec() by {
            assert(fewer[i] == points[i]);
            assert(points[i][k].is_finite_spec());
        }
        extremes_bound_the_points(value, fewer, k);
        let (lo, hi) = extremes(fewer);
        let a = choose|a: int| 0 <= a < fewer.len() && #[trigger] fewer[a][k] == lo[k];
        let b = choose|b: int| 0 <= b < fewer.len() && #[trigger] fewer[b][k] == hi[k];
        assert(points[a][k] == lo[k] && points[b][k] == hi[k]);
        assert(points.last() == points[last]);
        assert(le(lo[k], lo[k]) && le(hi[k], hi[k]));
        assert(lt(x, lo[k]) <==> value(x) < value(lo[k]));
        assert(gt(x, hi[k]) <==> value(x) > value(hi[k]));
        assert forall|i: int| 0 <= i < points.len() implies value(extremes(points).0[k]) <= value(
            #[trigger] points[i][k],
        ) && value(points[i][k]) <= value(extremes(points).1[k]) by {
            if i < last {
                assert(fewer[i][k] == points[i][k]);
                assert(value(lo[k]) <= value(fewer[i][k]));
            }
        }
    }
}

/// The larger of two numbers.
pub open spec fn larger(a: real, b: real) -> real {
    if a < b {
        b
    } else {
        a
    }
}

proof fn lemma_max<A: Axis>(value: spec_fn(A) -> real, a: A, b: A)
    requires
        compares_numbers(value),
        a.is_finite_spec(),
        b.is_finite_spec(),
    ensures
        max_spec(a, b).is_finite_spec(),
        value(max_spec(a, b)) == larger(value(a), value(b)),
{
    assert(le(a, a));
    assert(gt(b, a) <==> value(b) > value(a));
}

/// Nothing rounds in computing the workspace around a cloud from `lo` to `hi`.
pub open spec fn exact_workspace<A: Axis>(
    value: spec_fn(A) -> real,
    lo: Seq<A>,
    hi: Seq<A>,
    max_radius: A,
) -> bool {
    let two = A::from_usize_spec(2);
    let room = times(A::from_usize_spec(4), max_radius);
    let side = max_spec(longest(lo, hi, 3), room);
    let half = half_side(lo, hi, max_radius);
    &&& exact_count(value, 2)
    &&& exact_count(value, 4)
    &&& exact_times(value, A::from_usize_spec(4), max_radius)
    &&& exact_over(value, side, two)
    &&& exact_plus(value, over(side, two), max_radius)
    &&& forall|k: int|
        #![trigger lo[k]]
        0 <= k < 3 ==> {
            &&& exact_minus(value, hi[k], lo[k])
            &&& exact_plus(value, lo[k], hi[k])
            &&& exact_over(value, plus(lo[k], hi[k]), two)
            &&& exact_minus(value, middle(lo[k], hi[k]), half)
            &&& exact_plus(value, middle(lo[k], hi[k]), half)
        }
}

/// The workspace around a cloud is a cube around its middle. Its side is the longest side of the
/// cloud, or four times the maximum radius if that is more, with the maximum radius added at both
/// ends; so every point lies at least that radius away from each face.
pub proof fn workspace_is_a_cube_around_the_cloud<A: Axis>(
    value: spec_fn(A) -> real,
    points: Seq<[A; 3]>,
    max_radius: A,
)
    requires
        compares_numbers(value),
        points.len() > 0,
        forall|i: int, k: int|
            0 <= i < points.len() && 0 <= k < 3 ==> (#[trigger] points[i][k]).is_finite_spec(),
        exact_workspace(value, extremes(points).0, extremes(points).1, max_radius),
    ensures
        ({
            let (lo, hi) = extremes(points);
            let half = half_side(lo, hi, max_radius);
            let from = |k: int| value(minus(middle(lo[k], hi[k]), half));
            let to = |k: int| value(plus(middle(lo[k], hi[k]), half));
            let r = value(max_radius);
            let extent = |k: int| value(hi[k]) - value(lo[k]);
            let longest_extent = larger(larger(extent(0), extent(1)), extent(2));
            let side = larger(longest_extent, (4 as real) * r) + r + r;
            &&& forall|k: int|
                #![trigger lo[k]]
                0 <= k < 3 ==> to(k) - from(k) == side && from(k) + to(k) == value(lo[k]) + value(
                    hi[k],
                )
            &&& forall|i: int, k: int|
                0 <= i < points.len() && 0 <= k < 3 ==> from(k) + r <= value(
                    #[trigger] points[i][k],
                ) && value(points[i][k]) + r <= to(k)
        }),
{
    let (lo, hi) = extremes(points);
    let half = half_side(lo, hi, max_radius);
    let two = A::from_usize_spec(2);
    let r = value(max_radius);
    assert forall|k: int| 0 <= k < 3 implies (#[trigger] lo[k]).is_finite_spec()
        && hi[k].is_finite_spec() && value(lo[k]) <= value(hi[k]) by {
        assert forall|i: int| 0 <= i < points.len() implies (
        #[trigger] points[i][k]).is_finite_spec() by {}
        extremes_bound_the_points(value, points, k);
        assert(value(lo[k]) <= value(points[0][k]));
    }
    let e0 = minus(hi[0], lo[0]);
    let e1 = minus(hi[1], lo[1]);
    let e2 = minus(hi[2], lo[2]);
    reveal_with_fuel(longest, 4);
    lemma_max(value, A::ZERO, e0);
    lemma_max(value, max_spec(A::ZERO, e0), e1);
    lemma_max(value, max_spec(max_spec(A::ZERO, e0), e1), e2);
    let room = times(A::from_usize_spec(4), max_radius);
    lemma_max(value, longest(lo, hi, 3), room);
    let side = max_spec(longest(lo, hi, 3), room);
    let h = value(half);
    let s = value(side);
    assert(h == value(over(side, two)) + r);
    assert(value(over(side, two)) * (2 as real) == s);
    assert forall|k: int| #![trigger lo[k]] 0 <= k < 3 implies value(middle(lo[k], hi[k])) * (
    2 as real) == value(lo[k]) + value(hi[k]) && value(hi[k]) - value(lo[k]) <= s by {
        assert(k == 0 || k == 1 || k == 2);
    }
    assert forall|i: int, k: int|
        0 <= i < points.len() && 0 <= k < 3 implies value(minus(middle(lo[k], hi[k]), half)) + r
        <= value(#[trigger] points[i][k]) && value(points[i][k]) + r <= value(
        plus(middle(lo[k], hi[k]), half),
    ) by {
        assert forall|j: int| 0 <= j < points.len() implies (
        #[trigger] points[j][k]).is_finite_spec() by {}
        extremes_bound_the_points(value, points, k);
        assert(lo[k].is_finite_spec());
    }
}

} // verus!

//! Queries in exact arithmetic.
//!
//! Where none of the operations of a query rounds, its answer is the mathematical one: whether a
//! stored point lies within the given distance of the center.

use crate::aabb::finite;
use crate::axis::{gt, le, lt, minus, over, plus, times, Axis};
use crate::laws::{
    brute_force, cell_between_the_ends_is_in_the_window, covered, hit_is_brute_force,
    indexes_monotonically, lemma_flatten_contains, lemma_flatten_member, rounds_monotonically,
    scales_upward, window_holds, window_reaches,
};
use crate::scan::{distsq, distsq_upto};
use crate::voxel_grid::VoxelGrid;
use vstd::prelude::*;

verus! {

/// `value` gives the number that each finite value stands for, in the order of the values.
pub open spec fn stands_for<A: Axis>(value: spec_fn(A) -> real) -> bool {
    &&& A::ZERO.is_finite_spec()
    &&& value(A::ZERO) == 0 as real
    &&& forall|a: A, b: A|
        a.is_finite_spec() && b.is_finite_spec() ==> (#[trigger] le(a, b) <==> value(a) <= value(
            b,
        ))
}

/// The comparisons of finite values are those of the numbers that they stand for.
pub open spec fn compares_numbers<A: Axis>(value: spec_fn(A) -> real) -> bool {
    &&& stands_for(value)
    &&& forall|a: A, b: A|
        a.is_finite_spec() && b.is_finite_spec() ==> (#[trigger] lt(a, b) <==> value(a) < value(b))
    &&& forall|a: A, b: A|
        a.is_finite_spec() && b.is_finite_spec() ==> (#[trigger] gt(a, b) <==> value(a) > value(b))
}

/// Conversion to an index drops the fractional part of a number that is not negative, as far as
/// indices reach.
pub open spec fn truncates<A: Axis>(value: spec_fn(A) -> real) -> bool {
    forall|a: A|
        a.is_finite_spec() && 0 as real <= value(a) && value(a) <= usize::MAX as real ==> {
            &&& #[trigger] a.to_index_spec() as real <= value(a)
            &&& value(a) < (a.to_index_spec() + 1) as real
        }
}

/// The count `n` has a value that stands for it.
pub open spec fn exact_count<A: Axis>(value: spec_fn(A) -> real, n: usize) -> bool {
    A::from_usize_spec(n).is_finite_spec() && value(A::from_usize_spec(n)) == n as real
}

/// `a / b` does not round.
pub open spec fn exact_over<A: Axis>(value: spec_fn(A) -> real, a: A, b: A) -> bool {
    over(a, b).is_finite_spec() && value(over(a, b)) * value(b) == value(a)
}

/// `a + b` does not round.
pub open spec fn exact_plus<A: Axis>(value: spec_fn(A) -> real, a: A, b: A) -> bool {
    plus(a, b).is_finite_spec() && value(plus(a, b)) == value(a) + value(b)
}

/// `a - b` does not round.
pub open spec fn exact_minus<A: Axis>(value: spec_fn(A) -> real, a: A, b: A) -> bool {
    minus(a, b).is_finite_spec() && value(minus(a, b)) == value(a) - value(b)
}

/// `a * b` does not round.
pub open spec fn exact_times<A: Axis>(value: spec_fn(A) -> real, a: A, b: A) -> bool {
    times(a, b).is_finite_spec() && value(times(a, b)) == value(a) * value(b)
}

/// The square of `a` does not round.
pub open spec fn exact_square<A: Axis>(value: spec_fn(A) -> real, a: A) -> bool {
    a.square_spec().is_finite_spec() && value(a.square_spec()) == value(a) * value(a)
}

/// The squared distance between the points that `p` and `c` stand for, over the first `n` axes.
pub open spec fn true_distsq<A: Axis>(
    value: spec_fn(A) -> real,
    p: Seq<A>,
    c: Seq<A>,
    n: nat,
) -> real
    decreases n,
{
    if n == 0 {
        0 as real
    } else {
        let d = value(p[n - 1]) - value(c[n - 1]);
        true_distsq(value, p, c, (n - 1) as nat) + d * d
    }
}

/// Nothing rounds in computing the squared distance between `p` and `c`.
pub open spec fn exact_distance<A: Axis>(
    value: spec_fn(A) -> real,
    p: Seq<A>,
    c: Seq<A>,
) -> bool {
    forall|k: int|
        #![trigger p[k]]
        0 <= k < c.len() ==> {
            let d = minus(p[k], c[k]);
            &&& exact_minus(value, p[k], c[k])
            &&& exact_square(value, d)
            &&& exact_plus(value, distsq_upto(p, c, k as nat), d.square_spec())
        }
}

/// Nothing rounds in placing `p` and the ends of the window around `c` in the grid.
pub open spec fn exact_window<A: Axis>(
    value: spec_fn(A) -> real,
    grid: VoxelGrid<A>,
    p: Seq<A>,
    c: Seq<A>,
    r: A,
) -> bool {
    forall|k: int|
        #![trigger p[k]]
        0 <= k < grid.dim() ==> {
            let lo = grid.lo[k];
            let s = grid.scale[k];
            let v = times(minus(c[k], lo), s);
            let rg = times(r, s);
            &&& exact_minus(value, c[k], lo)
            &&& exact_times(value, minus(c[k], lo), s)
            &&& exact_times(value, r, s)
            &&& exact_minus(value, v, rg)
            &&& exact_plus(value, v, rg)
            &&& exact_minus(value, p[k], lo)
            &&& exact_times(value, minus(p[k], lo), s)
        }
}

pub(crate) proof fn lemma_true_distsq<A: Axis>(value: spec_fn(A) -> real, p: Seq<A>, c: Seq<A>, n: nat)
    requires
        stands_for(value),
        exact_distance(value, p, c),
        p.len() == c.len(),
        n <= c.len(),
    ensures
        distsq_upto(p, c, n).is_finite_spec(),
        value(distsq_upto(p, c, n)) == true_distsq(value, p, c, n),
        true_distsq(value, p, c, n) >= 0 as real,
        forall|k: int|
            #![trigger p[k]]
            0 <= k < n ==> (value(p[k]) - value(c[k])) * (value(p[k]) - value(c[k]))
                <= true_distsq(value, p, c, n),
    decreases n,
{
    if n > 0 {
        lemma_true_distsq(value, p, c, (n - 1) as nat);
        assert(p[n - 1] == p[n - 1]);
        let d = value(p[n - 1]) - value(c[n - 1]);
        assert(d * d >= 0 as real) by (nonlinear_arith);
    }
}

/// Where a point lies within `r` of a center, on each axis it lies within the window.
proof fn lemma_within_window(p: real, c: real, lo: real, s: real, r: real)
    requires
        (p - c) * (p - c) <= r * r,
        r >= 0 as real,
        s >= 0 as real,
    ensures
        (c - lo) * s - r * s <= (p - lo) * s,
        (p - lo) * s <= (c - lo) * s + r * s,
{
    let d = p - c;
    assert(d <= r && -r <= d) by (nonlinear_arith)
        requires
            d * d <= r * r,
            r >= 0 as real,
    ;
    assert(d * s <= r * s && -(r * s) <= d * s) by (nonlinear_arith)
        requires
            d <= r,
            -r <= d,
            s >= 0 as real,
    ;
    assert((p - lo) * s == (c - lo) * s + d * s) by (nonlinear_arith)
        requires
            d == p - c,
    ;
}

/// A query with a radius that is not negative, in whose computations nothing rounds, reports a
/// collision exactly if some stored point lies within the radius of the center, with the radius
/// of the points added.
pub proof fn exact_hit_is_true_collision<A: Axis>(
    value: spec_fn(A) -> real,
    grid: VoxelGrid<A>,
    c: Seq<A>,
    radius: A,
)
    requires
        rounds_monotonically::<A>(),
        indexes_monotonically::<A>(),
        stands_for(value),
        grid.wf(),
        covered(grid),
        c.len() == grid.dim(),
        finite(grid.scale),
        scales_upward(grid),
        value(radius) + value(grid.r_point) >= 0 as real,
        exact_plus(value, radius, grid.r_point),
        exact_square(value, plus(radius, grid.r_point)),
        forall|v: int, i: int|
            #![trigger grid.voxels[v][i]]
            0 <= v < grid.voxels.len() && 0 <= i < grid.voxels[v].len() ==> exact_distance(
                value,
                grid.voxels[v][i],
                c,
            ) && exact_window(value, grid, grid.voxels[v][i], c, plus(radius, grid.r_point)),
    ensures
        ({
            let r = value(radius) + value(grid.r_point);
            let collides = exists|v: int, i: int|
                #![trigger grid.voxels[v][i]]
                0 <= v < grid.voxels.len() && 0 <= i < grid.voxels[v].len() && true_distsq(
                    value,
                    grid.voxels[v][i],
                    c,
                    grid.dim(),
                ) <= r * r;
            &&& grid.hit(c, radius) == collides
            &&& grid.lane_hit(c, radius) == collides
        }),
{
    let r = plus(radius, grid.r_point);
    let rsq = r.square_spec();
    let points = grid.points();
    assert forall|v: int, i: int|
        #![trigger grid.voxels[v][i]]
        0 <= v < grid.voxels.len() && 0 <= i < grid.voxels[v].len() implies (le(
        distsq(grid.voxels[v][i], c),
        rsq,
    ) <==> true_distsq(value, grid.voxels[v][i], c, grid.dim()) <= value(r) * value(r)) by {
        let p = grid.voxels[v][i];
        assert(p.len() == grid.dim());
        lemma_true_distsq(value, p, c, grid.dim());
    }
    assert forall|p: Seq<A>| #[trigger]
        points.contains(p) && le(distsq(p, c), rsq) implies window_holds(grid, p, c, r) by {
        let (v, i) = lemma_flatten_member(grid.voxels, p);
        assert(grid.voxels[v][i] == p && p.len() == grid.dim());
        lemma_true_distsq(value, p, c, grid.dim());
        assert forall|k: int|
            #![trigger p[k]]
            0 <= k < grid.dim() implies {
            let at_c = times(minus(c[k], grid.lo[k]), grid.scale[k]);
            let rg = times(r, grid.scale[k]);
            let at = times(minus(p[k], grid.lo[k]), grid.scale[k]);
            &&& le(minus(at_c, rg), at)
            &&& le(at, plus(at_c, rg))
        } by {
            assert(le(A::ZERO, grid.scale[k]));
            assert(grid.scale[k].is_finite_spec());
            lemma_within_window(
                value(p[k]),
                value(c[k]),
                value(grid.lo[k]),
                value(grid.scale[k]),
                value(r),
            );
        }
    }
    assert(window_reaches(grid, points, c, r)) by {
        if brute_force(points, c, r) {
            let j = choose|j: int|
                0 <= j < points.len() && le(distsq(#[trigger] points[j], c), rsq);
            assert(points.contains(points[j]));
            let (v, i) = lemma_flatten_member(grid.voxels, points[j]);
            assert(grid.voxels[v][i].len() == grid.dim());
            cell_between_the_ends_is_in_the_window(grid, points[j], c, r);
        }
    }
    hit_is_brute_force(grid, c, radius);
    if brute_force(points, c, r) {
        let j = choose|j: int| 0 <= j < points.len() && le(distsq(#[trigger] points[j], c), rsq);
        assert(points.contains(points[j]));
        let (v, i) = lemma_flatten_member(grid.voxels, points[j]);
        assert(grid.voxels[v][i] == points[j]);
    }
    assert forall|v: int, i: int|
        #![trigger grid.voxels[v][i]]
        0 <= v < grid.voxels.len() && 0 <= i < grid.voxels[v].len() && true_distsq(
            value,
            grid.voxels[v][i],
            c,
            grid.dim(),
        ) <= value(r) * value(r) implies brute_force(points, c, r) by {
        lemma_flatten_contains(grid.voxels, v, i);
        let j = choose|j: int| 0 <= j < points.len() && points[j] == grid.voxels[v][i];
        assert(le(distsq(points[j], c), rsq));
    }
}

} // verus!

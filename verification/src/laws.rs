//! What a query answers, compared with checking every point.
//!
//! A table answers a query from a few voxels: it skips a cloud whose bounding box is too far away,
//! cells outside of a window around the sphere, and voxels whose bounding box is too far away. The
//! laws here say that nothing is made up by this, and when nothing is missed.

use crate::aabb::{all_finite, box_over, finite, Bounds};
use crate::axis::{gt, le, lt, minus, ordered, over, plus, times, Axis};
use crate::grid::scales_of;
use crate::immutable::grid_over;
use crate::index::Index;
use crate::mutable::{cloud_error, NewMutableMvtError};
use crate::scan::{any_within, distsq, distsq_upto};
use crate::voxel_grid::VoxelGrid;
use vstd::prelude::*;

verus! {

/// What checking every point answers: whether one of `points` lies within a distance of `r` from
/// `c`, as the squared distance is computed.
pub open spec fn brute_force<A: Axis>(points: Seq<Seq<A>>, c: Seq<A>, r: A) -> bool {
    any_within(points, c, r.square_spec())
}

// ---------------------------------------------------------------------------------------------
// Arithmetic that rounds
// ---------------------------------------------------------------------------------------------

/// The order of the values: a value that compares with anything compares with itself, such values
/// are totally ordered, and finite values lie strictly between the infinities.
pub open spec fn orders_values<A: Axis>() -> bool {
    &&& forall|a: A, b: A| #[trigger] le(a, b) ==> ordered(a) && ordered(b)
    &&& forall|a: A, b: A, c: A| #[trigger] le(a, b) && #[trigger] le(b, c) ==> le(a, c)
    &&& forall|a: A, b: A| ordered(a) && ordered(b) && !#[trigger] lt(a, b) ==> le(b, a)
    &&& forall|a: A, b: A| #[trigger] gt(a, b) <==> lt(b, a)
    &&& forall|a: A, b: A| #[trigger] lt(a, b) ==> le(a, b)
    &&& forall|a: A|
        #[trigger] a.is_finite_spec() ==> ordered(a) && lt(a, A::INFINITY) && lt(
            A::NEG_INFINITY,
            a,
        )
    &&& forall|a: A, b: A, c: A|
        a.is_finite_spec() && c.is_finite_spec() && #[trigger] le(a, b) && #[trigger] le(b, c)
            ==> b.is_finite_spec()
}

/// Arithmetic that rounds, but never across another result: a sum or square of values that are no
/// smaller is no smaller, and an operation with an operand that compares with nothing gives such a
/// value. Floating-point arithmetic is like this.
pub open spec fn rounds_monotonically<A: Axis>() -> bool {
    &&& orders_values::<A>()
    &&& ordered(A::ZERO)
    // A value that compares with nothing spreads.
    &&& forall|a: A, b: A| #[trigger] ordered(plus(a, b)) ==> ordered(a) && ordered(b)
    &&& forall|a: A, b: A| #[trigger] ordered(minus(a, b)) ==> ordered(a) && ordered(b)
    &&& forall|a: A| #[trigger] ordered(a.square_spec()) ==> ordered(a) && le(
        A::ZERO,
        a.square_spec(),
    )
    // Sums are monotone.
    &&& forall|a: A, b: A, u: A, v: A|
        le(A::ZERO, a) && le(A::ZERO, u) && le(a, b) && le(u, v) ==> le(
            #[trigger] plus(a, u),
            #[trigger] plus(b, v),
        ) && le(A::ZERO, plus(a, u))
    // The square of the distance to the end of an interval is no larger than that to a value on
    // the other side of that end.
    &&& forall|x: A, e: A, p: A|
        lt(x, e) && #[trigger] le(e, p) ==> le(
            #[trigger] minus(x, e).square_spec(),
            minus(p, x).square_spec(),
        )
    &&& forall|x: A, e: A, p: A|
        gt(x, e) && #[trigger] le(p, e) ==> le(
            #[trigger] minus(x, e).square_spec(),
            minus(p, x).square_spec(),
        )
    &&& forall|x: A, p: A|
        x.is_finite_spec() && p.is_finite_spec() ==> le(
            minus(x, x).square_spec(),
            #[trigger] minus(p, x).square_spec(),
        )
}

/// `b` contains `p`.
pub open spec fn contains<A: Axis>(b: Bounds<A>, p: Seq<A>) -> bool {
    forall|k: int|
        #![trigger p[k]]
        0 <= k < p.len() ==> le(b.lo[k], p[k]) && le(p[k], b.hi[k])
}

/// `b` contains each of `points`.
pub open spec fn contains_all<A: Axis>(b: Bounds<A>, points: Seq<Seq<A>>) -> bool {
    forall|i: int| 0 <= i < points.len() ==> contains(b, #[trigger] points[i])
}

/// Growing a box by a finite point keeps what it contains and adds the point. The corners are
/// the infinities of the box without points, or finite.
proof fn lemma_extend<A: Axis>(b: Bounds<A>, p: Seq<A>, inside: Seq<Seq<A>>)
    requires
        orders_values::<A>(),
        finite(p),
        b.lo.len() == p.len(),
        b.hi.len() == p.len(),
        contains_all(b, inside),
        forall|i: int| 0 <= i < inside.len() ==> (#[trigger] inside[i]).len() == p.len(),
        corners(b),
    ensures
        contains_all(b.extend(p), inside.push(p)),
        corners(b.extend(p)),
        finite(b.extend(p).lo),
        finite(b.extend(p).hi),
{
    let e = b.extend(p);
    assert forall|k: int| 0 <= k < p.len() implies {
        &&& (#[trigger] e.lo[k]).is_finite_spec()
        &&& e.hi[k].is_finite_spec()
        &&& le(e.lo[k], p[k])
        &&& le(p[k], e.hi[k])
        &&& le(e.lo[k], b.lo[k])
        &&& le(b.hi[k], e.hi[k])
    } by {
        assert(p[k].is_finite_spec());
        assert(b.lo[k] == b.lo[k]);
        assert(lt(p[k], A::INFINITY));
        assert(lt(A::NEG_INFINITY, p[k]));
        assert(gt(p[k], A::NEG_INFINITY));
        assert(ordered(b.lo[k])) by {
            if b.lo[k] == A::INFINITY {
                assert(le(p[k], A::INFINITY));
            }
        }
        assert(ordered(b.hi[k])) by {
            if b.hi[k] == A::NEG_INFINITY {
                assert(le(A::NEG_INFINITY, p[k]));
            }
        }
        assert(gt(p[k], b.hi[k]) <==> lt(b.hi[k], p[k]));
        assert(!lt(p[k], b.lo[k]) ==> le(b.lo[k], p[k]));
        assert(!lt(b.hi[k], p[k]) ==> le(p[k], b.hi[k]));
    }
    let all = inside.push(p);
    assert forall|i: int| 0 <= i < all.len() implies contains(e, #[trigger] all[i]) by {
        assert forall|k: int|
            #![trigger all[i][k]]
            0 <= k < all[i].len() implies le(e.lo[k], all[i][k]) && le(all[i][k], e.hi[k]) by {
            assert(e.lo[k] == e.lo[k]);
            if i < inside.len() {
                assert(all[i] == inside[i]);
                assert(contains(b, inside[i]));
                assert(le(b.lo[k], inside[i][k]) && le(inside[i][k], b.hi[k]));
            }
        }
    }
}

/// Every corner coordinate of `b` is finite, or the infinity of the box without points.
pub open spec fn corners<A: Axis>(b: Bounds<A>) -> bool {
    &&& forall|k: int|
        0 <= k < b.lo.len() ==> (#[trigger] b.lo[k]).is_finite_spec() || b.lo[k] == A::INFINITY
    &&& forall|k: int|
        0 <= k < b.hi.len() ==> (#[trigger] b.hi[k]).is_finite_spec() || b.hi[k]
            == A::NEG_INFINITY
}

proof fn lemma_extend_all<A: Axis>(
    b: Bounds<A>,
    points: Seq<Seq<A>>,
    inside: Seq<Seq<A>>,
    dim: nat,
)
    requires
        orders_values::<A>(),
        all_finite(points),
        b.lo.len() == dim,
        b.hi.len() == dim,
        forall|i: int| 0 <= i < points.len() ==> (#[trigger] points[i]).len() == dim,
        forall|i: int| 0 <= i < inside.len() ==> (#[trigger] inside[i]).len() == dim,
        contains_all(b, inside),
        corners(b),
    ensures
        b.extend_all(points).lo.len() == dim,
        b.extend_all(points).hi.len() == dim,
        contains_all(b.extend_all(points), inside + points),
        corners(b.extend_all(points)),
        points.len() > 0 ==> finite(b.extend_all(points).lo) && finite(b.extend_all(points).hi),
    decreases points.len(),
{
    if points.len() == 0 {
        assert(inside + points =~= inside);
    } else {
        let fewer = points.drop_last();
        assert forall|i: int| 0 <= i < fewer.len() implies finite(#[trigger] fewer[i])
            && fewer[i].len() == dim by {
            assert(fewer[i] == points[i]);
        }
        lemma_extend_all(b, fewer, inside, dim);
        let last = points[points.len() - 1];
        assert(finite(last) && last.len() == dim);
        let sofar = inside + fewer;
        assert forall|i: int| 0 <= i < sofar.len() implies (#[trigger] sofar[i]).len() == dim by {
            if i < inside.len() {
                assert(sofar[i] == inside[i]);
            } else {
                assert(sofar[i] == fewer[i - inside.len()]);
            }
        }
        lemma_extend(b.extend_all(fewer), last, sofar);
        assert((inside + fewer).push(last) =~= inside + points);
    }
}

/// Growing the box without points by a finite point gives the box that contains exactly that point.
pub proof fn empty_box_grows_to_the_point<A: Axis>(p: Seq<A>)
    requires
        orders_values::<A>(),
        finite(p),
    ensures
        Bounds::<A>::empty(p.len()).extend(p) == Bounds::at(p),
{
    let grown = Bounds::<A>::empty(p.len()).extend(p);
    assert forall|k: int| 0 <= k < p.len() implies #[trigger] grown.lo[k] == p[k] && grown.hi[k]
        == p[k] by {
        assert(p[k].is_finite_spec());
        assert(lt(p[k], A::INFINITY));
        assert(gt(p[k], A::NEG_INFINITY));
    }
    assert(grown.lo =~= p);
    assert(grown.hi =~= p);
}

/// The box over a cloud of finite points is finite and contains every one of them.
pub proof fn box_contains_its_points<A: Axis>(points: Seq<Seq<A>>, dim: nat)
    requires
        orders_values::<A>(),
        points.len() > 0,
        all_finite(points),
        forall|i: int| 0 <= i < points.len() ==> (#[trigger] points[i]).len() == dim,
    ensures
        finite(box_over(points).lo),
        finite(box_over(points).hi),
        contains_all(box_over(points), points),
{
    let first = points[0];
    let rest = points.drop_first();
    let b = Bounds::at(first);
    assert(finite(first));
    let inside = seq![first];
    assert(contains(b, first)) by {
        assert forall|k: int|
            #![trigger first[k]]
            0 <= k < first.len() implies le(b.lo[k], first[k]) && le(first[k], b.hi[k]) by {
            assert(first[k].is_finite_spec());
        }
    }
    assert forall|i: int| 0 <= i < rest.len() implies finite(#[trigger] rest[i]) && rest[i].len()
        == dim by {
        assert(rest[i] == points[i + 1]);
    }
    assert forall|k: int| 0 <= k < b.lo.len() implies (#[trigger] b.lo[k]).is_finite_spec() by {
        assert(first[k].is_finite_spec());
    }
    lemma_extend_all(b, rest, inside, dim);
    assert(inside + rest =~= points);
    if rest.len() == 0 {
        assert(b.extend_all(rest) == b);
    }
}

/// The box of a voxel of finite points is finite and contains every one of them.
pub proof fn voxel_box_contains_its_points<A: Axis>(points: Seq<Seq<A>>, dim: nat)
    requires
        orders_values::<A>(),
        points.len() > 0,
        all_finite(points),
        forall|i: int| 0 <= i < points.len() ==> (#[trigger] points[i]).len() == dim,
    ensures
        finite(Bounds::<A>::empty(dim).extend_all(points).lo),
        finite(Bounds::<A>::empty(dim).extend_all(points).hi),
        contains_all(Bounds::<A>::empty(dim).extend_all(points), points),
{
    lemma_extend_all(Bounds::<A>::empty(dim), points, Seq::empty(), dim);
    assert(Seq::<Seq<A>>::empty() + points =~= points);
}

/// The squared distance to the closest point of a box is no larger than that to any point in it,
/// as both are computed.
pub proof fn box_is_no_farther_than_its_points<A: Axis>(b: Bounds<A>, p: Seq<A>, c: Seq<A>, n: nat)
    requires
        rounds_monotonically::<A>(),
        n <= p.len(),
        p.len() == c.len(),
        p.len() == b.lo.len(),
        p.len() == b.hi.len(),
        finite(p),
        finite(b.lo),
        finite(b.hi),
        contains(b, p),
        ordered(distsq_upto(p, c, n)),
    ensures
        le(A::ZERO, b.closest_distsq(c, n)),
        le(b.closest_distsq(c, n), distsq_upto(p, c, n)),
    decreases n,
{
    if n > 0 {
        let k = n - 1;
        let m = (n - 1) as nat;
        let x = c[k];
        let far = minus(p[k], x).square_spec();
        let near = minus(x, b.clamp(k, x)).square_spec();
        assert(distsq_upto(p, c, n) == plus(distsq_upto(p, c, m), far));
        assert(ordered(distsq_upto(p, c, m)) && ordered(far));
        box_is_no_farther_than_its_points(b, p, c, m);
        assert(ordered(minus(p[k], x)));
        assert(ordered(p[k]) && ordered(x));
        assert(p[k].is_finite_spec() && b.lo[k].is_finite_spec() && b.hi[k].is_finite_spec());
        assert(le(b.lo[k], p[k]) && le(p[k], b.hi[k]));
        assert(le(near, far)) by {
            if lt(x, b.lo[k]) {
            } else if gt(x, b.hi[k]) {
            } else {
                assert(le(b.lo[k], x));
                assert(!lt(b.hi[k], x));
                assert(le(x, b.hi[k]));
                assert(x.is_finite_spec());
            }
        }
        assert(le(A::ZERO, near)) by {
            assert(ordered(near));
        }
    }
}

/// Every stored point is finite and lies in the bounding box.
pub open spec fn covered<A: Axis>(grid: VoxelGrid<A>) -> bool {
    &&& forall|v: int, i: int|
        #![trigger grid.voxels[v][i]]
        0 <= v < grid.voxels.len() && 0 <= i < grid.voxels[v].len() ==> finite(grid.voxels[v][i])
            && contains(grid.bounds, grid.voxels[v][i])
    &&& grid.voxels.len() > 0 ==> finite(grid.bounds.lo) && finite(grid.bounds.hi)
}

/// Skipping by bounding boxes loses nothing: a query finds exactly what is found by checking every
/// point in the cells of the window. Scalar and batched queries agree on it.
pub proof fn boxes_lose_nothing<A: Axis>(grid: VoxelGrid<A>, c: Seq<A>, radius: A)
    requires
        rounds_monotonically::<A>(),
        grid.wf(),
        covered(grid),
        c.len() == grid.dim(),
    ensures
        ({
            let r = plus(radius, grid.r_point);
            let found = exists|v: int, i: int|
                #![trigger grid.voxels[v][i]]
                0 <= v < grid.voxels.len() && 0 <= i < grid.voxels[v].len() && grid.in_window(
                    grid.cell_of(grid.voxels[v][i]),
                    c,
                    r,
                ) && le(distsq(grid.voxels[v][i], c), r.square_spec());
            &&& grid.hit(c, radius) == found
            &&& grid.lane_hit(c, radius) == found
        }),
{
    let r = plus(radius, grid.r_point);
    let rsq = r.square_spec();
    let dim = grid.dim();
    assert forall|v: int, i: int|
        #![trigger grid.voxels[v][i]]
        0 <= v < grid.voxels.len() && 0 <= i < grid.voxels[v].len() && grid.in_window(
            grid.cell_of(grid.voxels[v][i]),
            c,
            r,
        ) && le(distsq(grid.voxels[v][i], c), rsq) implies grid.hit(c, radius) && grid.lane_hit(
        c,
        radius,
    ) by {
        let p = grid.voxels[v][i];
        assert(p.len() == dim);
        assert(ordered(distsq(p, c)));
        box_is_no_farther_than_its_points(grid.bounds, p, c, dim);
        assert(le(grid.bounds.closest_distsq(c, dim), rsq));
        let points = grid.voxels[v];
        assert forall|j: int| 0 <= j < points.len() implies finite(#[trigger] points[j])
            && points[j].len() == dim by {
            assert(grid.voxels[v][j] == points[j]);
        }
        voxel_box_contains_its_points(points, dim);
        assert(contains(grid.voxel_bounds(v), points[i]));
        lemma_extend_all_len(Bounds::<A>::empty(dim), points);
        box_is_no_farther_than_its_points(grid.voxel_bounds(v), p, c, dim);
        assert(le(grid.voxel_bounds(v).closest_distsq(c, dim), rsq));
        assert(grid.finds_in(v, c, r));
    }
    if grid.finds(c, r) {
        let v = choose|v: int| 0 <= v < grid.voxels.len() && #[trigger] grid.finds_in(v, c, r);
        let i = choose|i: int|
            0 <= i < grid.voxels[v].len() && le(distsq(#[trigger] grid.voxels[v][i], c), rsq);
        assert(grid.cell_of(grid.voxels[v][i]) == grid.cells()[v]);
    }
}

proof fn lemma_extend_all_len<A: Axis>(b: Bounds<A>, points: Seq<Seq<A>>)
    ensures
        b.extend_all(points).lo.len() == b.lo.len(),
        b.extend_all(points).hi.len() == b.hi.len(),
    decreases points.len(),
{
    if points.len() > 0 {
        lemma_extend_all_len(b, points.drop_last());
    }
}

// ---------------------------------------------------------------------------------------------
// Tables keep their points covered
// ---------------------------------------------------------------------------------------------

/// A grid without points, over any box, is covered.
pub proof fn sized_is_covered<A: Axis>(b: Bounds<A>, voxel_width: A, r_point: A)
    ensures
        covered(VoxelGrid::sized(b, voxel_width, r_point)),
{
}

/// Inserting a finite point, inside or outside of the box that the grid was sized for, keeps the
/// grid covered.
pub proof fn insert_keeps_covered<A: Axis>(grid: VoxelGrid<A>, p: Seq<A>)
    requires
        orders_values::<A>(),
        grid.wf(),
        covered(grid),
        corners(grid.bounds),
        finite(p),
        p.len() == grid.dim(),
    ensures
        covered(grid.insert(p)),
        corners(grid.insert(p).bounds),
{
    let after = grid.insert(p);
    lemma_extend(grid.bounds, p, Seq::empty());
    assert(contains(after.bounds, Seq::<Seq<A>>::empty().push(p)[0]));
    assert forall|v: int, i: int|
        #![trigger after.voxels[v][i]]
        0 <= v < after.voxels.len() && 0 <= i < after.voxels[v].len() implies finite(
        after.voxels[v][i],
    ) && contains(after.bounds, after.voxels[v][i]) by {
        let q = after.voxels[v][i];
        if v < grid.voxels.len() && i < grid.voxels[v].len() {
            assert(q == grid.voxels[v][i]);
            assert(q.len() == grid.dim());
            let inside = seq![q];
            assert(contains_all(grid.bounds, inside));
            lemma_extend(grid.bounds, p, inside);
            assert(contains(after.bounds, inside.push(p)[0]));
        } else {
            assert(q == p);
        }
    }
}

/// Inserting finite points keeps the grid covered.
pub proof fn insert_all_keeps_covered<A: Axis>(grid: VoxelGrid<A>, points: Seq<Seq<A>>)
    requires
        orders_values::<A>(),
        grid.wf(),
        covered(grid),
        corners(grid.bounds),
        all_finite(points),
        forall|i: int| 0 <= i < points.len() ==> (#[trigger] points[i]).len() == grid.dim(),
    ensures
        covered(grid.insert_all(points)),
        corners(grid.insert_all(points).bounds),
    decreases points.len(),
{
    if points.len() > 0 {
        let fewer = points.drop_last();
        assert forall|i: int| 0 <= i < fewer.len() implies finite(#[trigger] fewer[i])
            && fewer[i].len() == grid.dim() by {
            assert(fewer[i] == points[i]);
        }
        insert_all_keeps_covered(grid, fewer);
        grid.insert_all_preserves_wf(fewer);
        let last = points[points.len() - 1];
        assert(finite(last) && last.len() == grid.dim());
        insert_keeps_covered(grid.insert_all(fewer), last);
    }
}

/// The points of a grid that was filled from nothing are the points that went in.
proof fn lemma_stored_points<A: Axis>(start: VoxelGrid<A>, points: Seq<Seq<A>>)
    requires
        start.voxels.len() == 0,
    ensures
        start.insert_all(points).points().to_multiset() == points.to_multiset(),
        forall|p: Seq<A>| #[trigger]
            start.insert_all(points).points().contains(p) <==> points.contains(p),
{
    start.insert_all_adds_all_points(points);
    assert(start.points() =~= Seq::<Seq<A>>::empty());
    start.points().to_multiset_ensures();
    assert(start.points().to_multiset() =~= vstd::multiset::Multiset::empty());
    let stored = start.insert_all(points).points();
    assert(stored.to_multiset() =~= points.to_multiset());
    stored.to_multiset_ensures();
    points.to_multiset_ensures();
    assert forall|p: Seq<A>| #[trigger] stored.contains(p) <==> points.contains(p) by {
        assert(stored.to_multiset().count(p) == points.to_multiset().count(p));
    }
}

/// A table holds exactly the points that it was built from.
pub proof fn built_grid_holds_its_points<A: Axis>(
    points: Seq<Seq<A>>,
    voxel_width: A,
    r_point: A,
    k: nat,
)
    ensures
        grid_over(points, voxel_width, r_point, k).points().to_multiset() == points.to_multiset(),
        forall|p: Seq<A>| #[trigger]
            grid_over(points, voxel_width, r_point, k).points().contains(p) <==> points.contains(
                p,
            ),
{
    if points.len() == 0 {
        let grid = grid_over(points, voxel_width, r_point, k);
        assert(grid.points() =~= points);
    } else {
        lemma_stored_points(VoxelGrid::sized(box_over(points), voxel_width, r_point), points);
    }
}

proof fn lemma_widths<A: Axis>(b: Bounds<A>, voxel_width: A, r_point: A)
    requires
        b.lo.len() > 0,
        b.hi.len() == b.lo.len(),
    ensures
        VoxelGrid::sized(b, voxel_width, r_point).wf(),
{
}

/// A table that was built from finite points is covered.
pub proof fn built_grid_is_covered<A: Axis>(
    points: Seq<Seq<A>>,
    voxel_width: A,
    r_point: A,
    k: nat,
)
    requires
        orders_values::<A>(),
        k > 0,
        all_finite(points),
        forall|i: int| 0 <= i < points.len() ==> (#[trigger] points[i]).len() == k,
    ensures
        covered(grid_over(points, voxel_width, r_point, k)),
        points.len() > 0 ==> grid_over(points, voxel_width, r_point, k).wf(),
{
    if points.len() > 0 {
        let grid = grid_over(points, voxel_width, r_point, k);
        let b = box_over(points);
        box_contains_its_points(points, k);
        lemma_extend_all_len(Bounds::at(points[0]), points.drop_first());
        assert(points[0].len() == k);
        let start = VoxelGrid::sized(b, voxel_width, r_point);
        lemma_widths(b, voxel_width, r_point);
        start.insert_all_preserves_wf(points);
        let built = start.insert_all(points);
        lemma_stored_points(start, points);
        assert(grid.voxels == built.voxels);
        assert(grid.cells() =~= built.cells());
        assert forall|v: int, i: int|
            #![trigger grid.voxels[v][i]]
            0 <= v < grid.voxels.len() && 0 <= i < grid.voxels[v].len() implies {
            &&& finite(grid.voxels[v][i])
            &&& contains(grid.bounds, grid.voxels[v][i])
            &&& grid.voxels[v][i].len() == grid.dim()
            &&& grid.cell_of(grid.voxels[v][i]) == grid.cells()[v]
        } by {
            assert(built.voxels[v][i].len() == built.dim());
            let p = grid.voxels[v][i];
            lemma_flatten_contains(grid.voxels, v, i);
            let j = choose|j: int| 0 <= j < points.len() && points[j] == p;
            assert(finite(points[j]) && contains(b, points[j]));
        }
        assert forall|u: int, v: int|
            #![trigger grid.cells()[u], grid.cells()[v]]
            0 <= u < grid.voxels.len() && 0 <= v < grid.voxels.len() && grid.cells()[u]
                == grid.cells()[v] implies u == v by {
            assert(built.cells()[u] == built.cells()[v]);
        }
    }
}

pub(crate) proof fn lemma_flatten_contains<T>(seqs: Seq<Seq<T>>, v: int, i: int)
    requires
        0 <= v < seqs.len(),
        0 <= i < seqs[v].len(),
    ensures
        seqs.flatten().contains(seqs[v][i]),
    decreases seqs.len(),
{
    seqs.lemma_flatten_and_flatten_alt_are_equivalent();
    seqs.drop_last().lemma_flatten_and_flatten_alt_are_equivalent();
    let front = seqs.drop_last().flatten();
    let all = seqs.flatten();
    assert(all == front + seqs.last());
    if v == seqs.len() - 1 {
        assert(all[front.len() + i] == seqs[v][i]);
    } else {
        lemma_flatten_contains(seqs.drop_last(), v, i);
        let j = choose|j: int| 0 <= j < front.len() && front[j] == seqs[v][i];
        assert(all[j] == seqs[v][i]);
    }
}

pub(crate) proof fn lemma_flatten_member<T>(seqs: Seq<Seq<T>>, x: T) -> (r: (int, int))
    requires
        seqs.flatten().contains(x),
    ensures
        0 <= r.0 < seqs.len(),
        0 <= r.1 < seqs[r.0].len(),
        seqs[r.0][r.1] == x,
    decreases seqs.len(),
{
    if seqs.len() == 0 {
        assert(seqs.flatten() =~= Seq::empty());
        (0, 0)
    } else {
        seqs.lemma_flatten_and_flatten_alt_are_equivalent();
        seqs.drop_last().lemma_flatten_and_flatten_alt_are_equivalent();
        let front = seqs.drop_last().flatten();
        let all = seqs.flatten();
        assert(all == front + seqs.last());
        let j = choose|j: int| 0 <= j < all.len() && all[j] == x;
        if j < front.len() {
            assert(front[j] == x);
            lemma_flatten_member(seqs.drop_last(), x)
        } else {
            (seqs.len() - 1, j - front.len())
        }
    }
}

// ---------------------------------------------------------------------------------------------
// What a query answers
// ---------------------------------------------------------------------------------------------

/// A query never makes up a collision, whatever the arithmetic does: if it reports one, then some
/// stored point lies within the radius, as the squared distance is computed.
pub proof fn hit_implies_brute_force<A: Axis>(grid: VoxelGrid<A>, c: Seq<A>, radius: A)
    ensures
        grid.hit(c, radius) ==> brute_force(grid.points(), c, plus(radius, grid.r_point)),
        grid.lane_hit(c, radius) ==> brute_force(grid.points(), c, plus(radius, grid.r_point)),
{
    let r = plus(radius, grid.r_point);
    if grid.finds(c, r) {
        let v = choose|v: int| 0 <= v < grid.voxels.len() && #[trigger] grid.finds_in(v, c, r);
        let i = choose|i: int|
            0 <= i < grid.voxels[v].len() && le(
                distsq(#[trigger] grid.voxels[v][i], c),
                r.square_spec(),
            );
        lemma_flatten_contains(grid.voxels, v, i);
        let points = grid.points();
        let j = choose|j: int| 0 <= j < points.len() && points[j] == grid.voxels[v][i];
        assert(le(distsq(points[j], c), r.square_spec()));
    }
}

/// A table without points never reports a collision.
pub proof fn empty_never_collides<A: Axis>(grid: VoxelGrid<A>, c: Seq<A>, radius: A)
    requires
        grid.voxels.len() == 0,
    ensures
        !grid.hit(c, radius),
        !grid.lane_hit(c, radius),
{
}

/// Conversion to an index never goes down where the value goes up.
pub open spec fn indexes_monotonically<A: Axis>() -> bool {
    forall|a: A, b: A|
        #![trigger a.to_index_spec(), b.to_index_spec()]
        le(a, b) ==> a.to_index_spec() <= b.to_index_spec()
}

/// No axis of the grid is scaled by a negative number.
pub open spec fn scales_upward<A: Axis>(grid: VoxelGrid<A>) -> bool {
    forall|k: int| 0 <= k < grid.scale.len() ==> le(A::ZERO, #[trigger] grid.scale[k])
}

/// A number of voxels is a finite value that is not negative, and dividing such a value by one
/// above zero gives a value that is not negative.
pub open spec fn divides_upward<A: Axis>() -> bool {
    &&& forall|x: usize| #![trigger A::from_usize_spec(x)]
        A::from_usize_spec(x).is_finite_spec() && le(A::ZERO, A::from_usize_spec(x))
    &&& forall|a: A, b: A|
        a.is_finite_spec() && le(A::ZERO, a) && gt(b, A::ZERO) ==> le(
            A::ZERO,
            #[trigger] over(a, b),
        )
}

/// A grid that was sized with a positive voxel width scales upward, and inserting points does not
/// change that.
pub proof fn sized_grid_scales_upward<A: Axis>(
    b: Bounds<A>,
    voxel_width: A,
    r_point: A,
    points: Seq<Seq<A>>,
)
    requires
        divides_upward::<A>(),
        gt(voxel_width, A::ZERO),
    ensures
        scales_upward(VoxelGrid::sized(b, voxel_width, r_point).insert_all(points)),
    decreases points.len(),
{
    if points.len() > 0 {
        sized_grid_scales_upward(b, voxel_width, r_point, points.drop_last());
    }
}

/// On every axis, the position of `p` in the grid lies between the ends of the window around `c`,
/// as all three are computed.
pub open spec fn window_holds<A: Axis>(grid: VoxelGrid<A>, p: Seq<A>, c: Seq<A>, r: A) -> bool {
    forall|k: int|
        #![trigger p[k]]
        0 <= k < grid.dim() ==> {
            let v = times(minus(c[k], grid.lo[k]), grid.scale[k]);
            let rg = times(r, grid.scale[k]);
            let at = times(minus(p[k], grid.lo[k]), grid.scale[k]);
            &&& le(minus(v, rg), at)
            &&& le(at, plus(v, rg))
        }
}

/// A point whose position lies between the ends of the window has its cell in the window. This
/// holds for points anywhere, inside or outside of the box that the grid was sized for.
pub proof fn cell_between_the_ends_is_in_the_window<A: Axis>(
    grid: VoxelGrid<A>,
    p: Seq<A>,
    c: Seq<A>,
    r: A,
)
    requires
        indexes_monotonically::<A>(),
        grid.wf(),
        p.len() == grid.dim(),
        window_holds(grid, p, c, r),
    ensures
        grid.in_window(grid.cell_of(p), c, r),
{
    let cell = grid.cell_of(p);
    let first = grid.window_first(c, r);
    let last = grid.window_last(c, r);
    assert forall|k: int| 0 <= k < first.len() implies first[k] <= #[trigger] cell[k] <= last[k] by {
        assert(p[k] == p[k]);
        assert(grid.widths[k] >= 1);
        let v = times(minus(c[k], grid.lo[k]), grid.scale[k]);
        let rg = times(r, grid.scale[k]);
        let at = times(minus(p[k], grid.lo[k]), grid.scale[k]);
        assert(minus(v, rg).to_index_spec() <= at.to_index_spec());
        assert(at.to_index_spec() <= plus(v, rg).to_index_spec());
    }
}

/// If any of `points` is close enough, then one that is close enough has its cell in the window.
/// Only rounding of the ends of the window, or a negative radius, can make this fail.
pub open spec fn window_reaches<A: Axis>(
    grid: VoxelGrid<A>,
    points: Seq<Seq<A>>,
    c: Seq<A>,
    r: A,
) -> bool {
    brute_force(points, c, r) ==> exists|i: int|
        #![trigger points[i]]
        0 <= i < points.len() && le(distsq(points[i], c), r.square_spec()) && grid.in_window(
            grid.cell_of(points[i]),
            c,
            r,
        )
}

/// A query answers what checking every point answers, exactly if the window reaches a point that is
/// close enough wherever there is one. Scalar and batched queries agree on it.
pub proof fn hit_is_brute_force<A: Axis>(grid: VoxelGrid<A>, c: Seq<A>, radius: A)
    requires
        rounds_monotonically::<A>(),
        grid.wf(),
        covered(grid),
        c.len() == grid.dim(),
    ensures
        ({
            let r = plus(radius, grid.r_point);
            let points = grid.points();
            &&& grid.hit(c, radius) == brute_force(points, c, r) <==> window_reaches(
                grid,
                points,
                c,
                r,
            )
            &&& grid.lane_hit(c, radius) == grid.hit(c, radius)
        }),
{
    let r = plus(radius, grid.r_point);
    hit_implies_brute_force(grid, c, radius);
    boxes_lose_nothing(grid, c, radius);
    let points = grid.points();
    if grid.hit(c, radius) {
        let (v, i) = choose|v: int, i: int|
            #![trigger grid.voxels[v][i]]
            0 <= v < grid.voxels.len() && 0 <= i < grid.voxels[v].len() && grid.in_window(
                grid.cell_of(grid.voxels[v][i]),
                c,
                r,
            ) && le(distsq(grid.voxels[v][i], c), r.square_spec());
        lemma_flatten_contains(grid.voxels, v, i);
        let j = choose|j: int| 0 <= j < points.len() && points[j] == grid.voxels[v][i];
        assert(grid.in_window(grid.cell_of(points[j]), c, r));
    }
    if brute_force(points, c, r) && window_reaches(grid, points, c, r) {
        let j = choose|j: int|
            #![trigger points[j]]
            0 <= j < points.len() && le(distsq(points[j], c), r.square_spec()) && grid.in_window(
                grid.cell_of(points[j]),
                c,
                r,
            );
        assert(points.contains(points[j]));
        let (v, i) = lemma_flatten_member(grid.voxels, points[j]);
        assert(grid.in_window(grid.cell_of(grid.voxels[v][i]), c, r));
    }
}

/// Whether a point is found among points does not depend on their order or number.
proof fn lemma_same_members<A: Axis>(
    grid: VoxelGrid<A>,
    a: Seq<Seq<A>>,
    b: Seq<Seq<A>>,
    c: Seq<A>,
    r: A,
)
    requires
        forall|p: Seq<A>| #[trigger] a.contains(p) <==> b.contains(p),
    ensures
        brute_force(a, c, r) == brute_force(b, c, r),
        window_reaches(grid, a, c, r) == window_reaches(grid, b, c, r),
{
    lemma_members_carry_over(grid, a, b, c, r);
    lemma_members_carry_over(grid, b, a, c, r);
}

proof fn lemma_members_carry_over<A: Axis>(
    grid: VoxelGrid<A>,
    a: Seq<Seq<A>>,
    b: Seq<Seq<A>>,
    c: Seq<A>,
    r: A,
)
    requires
        forall|p: Seq<A>|
            #![trigger a.contains(p)]
            #![trigger b.contains(p)]
            a.contains(p) <==> b.contains(p),
    ensures
        brute_force(a, c, r) ==> brute_force(b, c, r),
        window_reaches(grid, a, c, r) ==> window_reaches(grid, b, c, r),
{
    let rsq = r.square_spec();
    if brute_force(a, c, r) {
        let i = choose|i: int| 0 <= i < a.len() && le(distsq(#[trigger] a[i], c), rsq);
        assert(a.contains(a[i]));
        let j = choose|j: int| 0 <= j < b.len() && b[j] == a[i];
        assert(le(distsq(b[j], c), rsq));
    }
    if window_reaches(grid, a, c, r) && brute_force(b, c, r) {
        let i = choose|i: int| 0 <= i < b.len() && le(distsq(#[trigger] b[i], c), rsq);
        assert(b.contains(b[i]));
        let j = choose|j: int| 0 <= j < a.len() && a[j] == b[i];
        assert(le(distsq(a[j], c), rsq));
        let i = choose|i: int|
            #![trigger a[i]]
            0 <= i < a.len() && le(distsq(a[i], c), rsq) && grid.in_window(
                grid.cell_of(a[i]),
                c,
                r,
            );
        assert(a.contains(a[i]));
        let j = choose|j: int| 0 <= j < b.len() && b[j] == a[i];
        assert(le(distsq(b[j], c), rsq) && grid.in_window(grid.cell_of(b[j]), c, r));
    }
}

/// An immutable table built from a cloud of finite points answers what checking every point of the
/// cloud answers, exactly if the window reaches a point that is close enough wherever there is one.
pub proof fn table_over_a_cloud_is_brute_force<A: Axis>(
    points: Seq<Seq<A>>,
    voxel_width: A,
    r_point: A,
    k: nat,
    c: Seq<A>,
    radius: A,
)
    requires
        rounds_monotonically::<A>(),
        k > 0,
        all_finite(points),
        forall|i: int| 0 <= i < points.len() ==> (#[trigger] points[i]).len() == k,
        c.len() == k,
    ensures
        ({
            let grid = grid_over(points, voxel_width, r_point, k);
            let r = plus(radius, r_point);
            &&& grid.hit(c, radius) == brute_force(points, c, r) <==> window_reaches(
                grid,
                points,
                c,
                r,
            )
            &&& grid.lane_hit(c, radius) == grid.hit(c, radius)
        }),
{
    let grid = grid_over(points, voxel_width, r_point, k);
    let r = plus(radius, r_point);
    built_grid_holds_its_points(points, voxel_width, r_point, k);
    lemma_same_members(grid, grid.points(), points, c, r);
    if points.len() > 0 {
        built_grid_is_covered(points, voxel_width, r_point, k);
        assert(points[0].len() == k);
        lemma_extend_all_len(Bounds::at(points[0]), points.drop_first());
        lemma_widths(box_over(points), voxel_width, r_point);
        VoxelGrid::sized(box_over(points), voxel_width, r_point).insert_all_preserves_wf(points);
        hit_is_brute_force(grid, c, radius);
    }
}

/// A mutable table over any workspace box, after finite points were inserted, inside or outside of
/// the box, answers what checking every one of them answers, exactly if the window reaches a point
/// that is close enough wherever there is one.
pub proof fn table_after_inserts_is_brute_force<A: Axis>(
    b: Bounds<A>,
    voxel_width: A,
    r_point: A,
    points: Seq<Seq<A>>,
    c: Seq<A>,
    radius: A,
)
    requires
        rounds_monotonically::<A>(),
        b.lo.len() > 0,
        b.hi.len() == b.lo.len(),
        all_finite(points),
        forall|i: int| 0 <= i < points.len() ==> (#[trigger] points[i]).len() == b.lo.len(),
        c.len() == b.lo.len(),
    ensures
        ({
            let grid = VoxelGrid::sized(b, voxel_width, r_point).insert_all(points);
            let r = plus(radius, r_point);
            &&& grid.hit(c, radius) == brute_force(points, c, r) <==> window_reaches(
                grid,
                points,
                c,
                r,
            )
            &&& grid.lane_hit(c, radius) == grid.hit(c, radius)
        }),
{
    let start = VoxelGrid::sized(b, voxel_width, r_point);
    let grid = start.insert_all(points);
    let r = plus(radius, r_point);
    lemma_stored_points(start, points);
    lemma_same_members(grid, grid.points(), points, c, r);
    lemma_widths(b, voxel_width, r_point);
    start.insert_all_preserves_wf(points);
    insert_all_keeps_covered(start, points);
    hit_is_brute_force(grid, c, radius);
}

/// An immutable and a mutable table over the same points answer every query alike.
pub proof fn immutable_and_mutable_agree<A: Axis>(
    points: Seq<Seq<A>>,
    voxel_width: A,
    r_point: A,
    k: nat,
    c: Seq<A>,
    radius: A,
)
    requires
        rounds_monotonically::<A>(),
        k > 0,
        points.len() > 0,
        all_finite(points),
        forall|i: int| 0 <= i < points.len() ==> (#[trigger] points[i]).len() == k,
        c.len() == k,
    ensures
        ({
            let immutable = grid_over(points, voxel_width, r_point, k);
            let mutable = VoxelGrid::sized(box_over(points), voxel_width, r_point).insert_all(
                points,
            );
            &&& immutable.hit(c, radius) == mutable.hit(c, radius)
            &&& immutable.lane_hit(c, radius) == mutable.lane_hit(c, radius)
        }),
{
    let immutable = grid_over(points, voxel_width, r_point, k);
    let start = VoxelGrid::sized(box_over(points), voxel_width, r_point);
    let mutable = start.insert_all(points);
    built_grid_is_covered(points, voxel_width, r_point, k);
    assert(points[0].len() == k);
    lemma_extend_all_len(Bounds::at(points[0]), points.drop_first());
    lemma_widths(box_over(points), voxel_width, r_point);
    insert_all_keeps_covered(start, points);
    start.insert_all_preserves_wf(points);
    boxes_lose_nothing(immutable, c, radius);
    boxes_lose_nothing(mutable, c, radius);
    assert(immutable.voxels == mutable.voxels);
    let r = plus(radius, r_point);
    assert forall|cell: Seq<usize>|
        immutable.in_window(cell, c, r) == #[trigger] mutable.in_window(cell, c, r) by {}
    assert forall|p: Seq<A>| immutable.cell_of(p) == #[trigger] mutable.cell_of(p) by {}
}

/// Inserting a finite point loses no collision: every query that collided before does so after.
pub proof fn insert_keeps_collisions<A: Axis>(grid: VoxelGrid<A>, p: Seq<A>, c: Seq<A>, radius: A)
    requires
        rounds_monotonically::<A>(),
        grid.wf(),
        covered(grid),
        corners(grid.bounds),
        finite(p),
        p.len() == grid.dim(),
        c.len() == grid.dim(),
    ensures
        grid.hit(c, radius) ==> grid.insert(p).hit(c, radius),
        grid.lane_hit(c, radius) ==> grid.insert(p).lane_hit(c, radius),
{
    let after = grid.insert(p);
    let r = plus(radius, grid.r_point);
    grid.insert_preserves_wf(p);
    insert_keeps_covered(grid, p);
    boxes_lose_nothing(grid, c, radius);
    boxes_lose_nothing(after, c, radius);
    assert forall|v: int, i: int|
        #![trigger grid.voxels[v][i]]
        0 <= v < grid.voxels.len() && 0 <= i < grid.voxels[v].len() && grid.in_window(
            grid.cell_of(grid.voxels[v][i]),
            c,
            r,
        ) && le(distsq(grid.voxels[v][i], c), r.square_spec()) implies after.hit(c, radius)
        && after.lane_hit(c, radius) by {
        let q = grid.voxels[v][i];
        assert(after.voxels[v][i] == q);
        assert(after.cell_of(q) == grid.cell_of(q));
        assert(after.window_first(c, r) == grid.window_first(c, r));
        assert(after.window_last(c, r) == grid.window_last(c, r));
        assert(after.in_window(after.cell_of(after.voxels[v][i]), c, r));
    }
}

/// Inserting finite points loses no collision.
pub proof fn insert_all_keeps_collisions<A: Axis>(
    grid: VoxelGrid<A>,
    points: Seq<Seq<A>>,
    c: Seq<A>,
    radius: A,
)
    requires
        rounds_monotonically::<A>(),
        grid.wf(),
        covered(grid),
        corners(grid.bounds),
        all_finite(points),
        forall|i: int| 0 <= i < points.len() ==> (#[trigger] points[i]).len() == grid.dim(),
        c.len() == grid.dim(),
    ensures
        grid.hit(c, radius) ==> grid.insert_all(points).hit(c, radius),
        grid.lane_hit(c, radius) ==> grid.insert_all(points).lane_hit(c, radius),
    decreases points.len(),
{
    if points.len() > 0 {
        let fewer = points.drop_last();
        assert forall|i: int| 0 <= i < fewer.len() implies finite(#[trigger] fewer[i])
            && fewer[i].len() == grid.dim() by {
            assert(fewer[i] == points[i]);
        }
        insert_all_keeps_collisions(grid, fewer, c, radius);
        insert_all_keeps_covered(grid, fewer);
        grid.insert_all_preserves_wf(fewer);
        let last = points[points.len() - 1];
        assert(finite(last) && last.len() == grid.dim());
        insert_keeps_collisions(grid.insert_all(fewer), last, c, radius);
    }
}

/// Arithmetic in which a value is at no distance from itself, and a step of a size that is not
/// negative leads away from a value in the direction of the step.
pub open spec fn steps_outward<A: Axis>() -> bool {
    &&& plus(A::ZERO, A::ZERO) == A::ZERO
    &&& forall|x: A|
        x.is_finite_spec() && le(A::ZERO, x) ==> (#[trigger] plus(A::ZERO, x)).is_finite_spec()
            && le(A::ZERO, plus(A::ZERO, x))
    &&& forall|x: A| x.is_finite_spec() ==> #[trigger] minus(x, x).square_spec() == A::ZERO
    &&& forall|x: A| ordered(x) ==> #[trigger] ordered(x.square_spec())
    &&& forall|a: A, b: A|
        a.is_finite_spec() && b.is_finite_spec() && le(A::ZERO, a) && le(A::ZERO, b) ==> le(
            A::ZERO,
            #[trigger] times(a, b),
        )
    &&& forall|v: A, step: A|
        le(A::ZERO, step) ==> #[trigger] minus(v, step).to_index_spec() <= v.to_index_spec()
    &&& forall|v: A, step: A|
        le(A::ZERO, step) ==> v.to_index_spec() <= #[trigger] plus(v, step).to_index_spec()
}

proof fn lemma_no_distance_from_itself<A: Axis>(p: Seq<A>, n: nat)
    requires
        steps_outward::<A>(),
        finite(p),
        n <= p.len(),
    ensures
        distsq_upto(p, p, n) == A::ZERO,
    decreases n,
{
    if n > 0 {
        lemma_no_distance_from_itself(p, (n - 1) as nat);
        assert(p[n - 1].is_finite_spec());
    }
}

/// A query at a stored point collides, for every radius with which the reach of the query is not
/// negative; so for a radius of zero, where the radius of the points is not negative.
pub proof fn stored_points_collide<A: Axis>(grid: VoxelGrid<A>, v: int, i: int, radius: A)
    requires
        rounds_monotonically::<A>(),
        steps_outward::<A>(),
        grid.wf(),
        covered(grid),
        scales_upward(grid),
        finite(grid.scale),
        0 <= v < grid.voxels.len(),
        0 <= i < grid.voxels[v].len(),
        plus(radius, grid.r_point).is_finite_spec(),
        le(A::ZERO, plus(radius, grid.r_point)),
    ensures
        grid.hit(grid.voxels[v][i], radius),
        grid.lane_hit(grid.voxels[v][i], radius),
{
    let p = grid.voxels[v][i];
    let r = plus(radius, grid.r_point);
    assert(finite(p) && p.len() == grid.dim());
    lemma_no_distance_from_itself(p, p.len());
    assert(ordered(r.square_spec()));
    assert(le(distsq(p, p), r.square_spec()));
    let cell = grid.cell_of(p);
    let first = grid.window_first(p, r);
    let last = grid.window_last(p, r);
    assert forall|k: int| 0 <= k < first.len() implies first[k] <= #[trigger] cell[k] <= last[k] by {
        assert(grid.widths[k] >= 1);
        assert(grid.scale[k].is_finite_spec() && le(A::ZERO, grid.scale[k]));
        let at = times(minus(p[k], grid.lo[k]), grid.scale[k]);
        let step = times(r, grid.scale[k]);
        assert(minus(at, step).to_index_spec() <= at.to_index_spec());
        assert(at.to_index_spec() <= plus(at, step).to_index_spec());
    }
    assert(grid.in_window(cell, p, r));
    boxes_lose_nothing(grid, p, radius);
}

/// A point that was inserted is found: a query at it collides, as for every stored point.
pub proof fn inserted_point_collides<A: Axis>(grid: VoxelGrid<A>, p: Seq<A>, radius: A)
    requires
        rounds_monotonically::<A>(),
        steps_outward::<A>(),
        grid.wf(),
        covered(grid),
        corners(grid.bounds),
        scales_upward(grid),
        finite(grid.scale),
        finite(p),
        p.len() == grid.dim(),
        plus(radius, grid.r_point).is_finite_spec(),
        le(A::ZERO, plus(radius, grid.r_point)),
    ensures
        grid.insert(p).hit(p, radius),
        grid.insert(p).lane_hit(p, radius),
{
    let after = grid.insert(p);
    let v = grid.slot(p);
    grid.insert_preserves_wf(p);
    insert_keeps_covered(grid, p);
    if v < grid.voxels.len() {
        stored_points_collide(after, v, grid.voxels[v].len() as int, radius);
    } else {
        stored_points_collide(after, v, 0, radius);
    }
}

/// Inserting a finite point, inside or outside of the workspace, into a table after any other
/// points: exactly that point is added to the stored ones, every query that collided before does
/// so after, and a query of radius zero at the point collides.
pub proof fn insert_into_a_table<A: Axis>(
    b: Bounds<A>,
    voxel_width: A,
    r_point: A,
    points: Seq<Seq<A>>,
    p: Seq<A>,
)
    requires
        rounds_monotonically::<A>(),
        steps_outward::<A>(),
        divides_upward::<A>(),
        b.lo.len() > 0,
        b.hi.len() == b.lo.len(),
        gt(voxel_width, A::ZERO),
        finite(scales_of(b, voxel_width)),
        r_point.is_finite_spec(),
        le(A::ZERO, r_point),
        all_finite(points),
        forall|i: int| 0 <= i < points.len() ==> (#[trigger] points[i]).len() == b.lo.len(),
        finite(p),
        p.len() == b.lo.len(),
    ensures
        ({
            let before = VoxelGrid::sized(b, voxel_width, r_point).insert_all(points);
            let after = before.insert(p);
            &&& after.points().to_multiset() == before.points().to_multiset().insert(p)
            &&& after.hit(p, A::ZERO) && after.lane_hit(p, A::ZERO)
            &&& forall|c: Seq<A>, radius: A|
                c.len() == b.lo.len() && #[trigger] before.hit(c, radius) ==> after.hit(c, radius)
            &&& forall|c: Seq<A>, radius: A|
                c.len() == b.lo.len() && #[trigger] before.lane_hit(c, radius) ==> after.lane_hit(
                    c,
                    radius,
                )
        }),
{
    let start = VoxelGrid::sized(b, voxel_width, r_point);
    let before = start.insert_all(points);
    let after = before.insert(p);
    lemma_widths(b, voxel_width, r_point);
    start.insert_all_preserves_wf(points);
    insert_all_keeps_covered(start, points);
    sized_grid_scales_upward(b, voxel_width, r_point, points);
    before.insert_adds_one_point(p);
    inserted_point_collides(before, p, A::ZERO);
    assert forall|c: Seq<A>, radius: A|
        c.len() == b.lo.len() && #[trigger] before.hit(c, radius) implies after.hit(c, radius) by {
        insert_keeps_collisions(before, p, c, radius);
    }
    assert forall|c: Seq<A>, radius: A|
        c.len() == b.lo.len() && #[trigger] before.lane_hit(c, radius) implies after.lane_hit(
        c,
        radius,
    ) by {
        insert_keeps_collisions(before, p, c, radius);
    }
}

/// The box over a cloud of finite points is never inverted, so a mutable table over a cloud is
/// never refused for its workspace.
pub proof fn cloud_has_a_valid_workspace<A: Axis, I: Index>(
    points: Seq<Seq<A>>,
    voxel_width: A,
    r_point: A,
    k: nat,
)
    requires
        orders_values::<A>(),
        forall|i: int| 0 <= i < points.len() ==> (#[trigger] points[i]).len() == k,
    ensures
        points.len() > 0 && all_finite(points) ==> {
            let b = box_over(points);
            forall|j: int| 0 <= j < k ==> !gt(#[trigger] b.lo[j], b.hi[j])
        },
        cloud_error::<A, I>(points, voxel_width, r_point) != Some(
            NewMutableMvtError::InvalidWorkspace,
        ),
{
    if points.len() > 0 && all_finite(points) {
        let b = box_over(points);
        box_contains_its_points(points, k);
        assert(contains(b, points[0]));
        assert(points[0].len() == k);
        lemma_extend_all_len(Bounds::at(points[0]), points.drop_first());
        assert forall|j: int| 0 <= j < k implies !gt(#[trigger] b.lo[j], b.hi[j]) by {
            assert(le(b.lo[j], points[0][j]) && le(points[0][j], b.hi[j]));
            assert(le(b.lo[j], b.hi[j]));
        }
    }
}

/// Whatever the arithmetic does, a lane of a batched query answers what a query for its sphere
/// alone does, except that a distance to the bounding box that compares with nothing rules it out.
pub proof fn lane_is_a_query<A: Axis>(grid: VoxelGrid<A>, c: Seq<A>, radius: A)
    ensures
        grid.lane_hit(c, radius) == (grid.hit(c, radius) && grid.compares(c, radius)),
{
}

/// Whatever the arithmetic does, a batched query never makes up a collision that no query for one
/// of its spheres alone reports, and it misses none where the distances to the bounding box
/// compare.
pub proof fn batched_query_is_some_comparing_query<A: Axis>(
    grid: VoxelGrid<A>,
    centers: Seq<Seq<A>>,
    radii: Seq<A>,
)
    ensures
        ({
            let batched = exists|l: int|
                0 <= l < centers.len() && grid.lane_hit(#[trigger] centers[l], radii[l]);
            let some = exists|l: int|
                0 <= l < centers.len() && grid.hit(#[trigger] centers[l], radii[l]);
            &&& batched ==> some
            &&& (forall|l: int|
                0 <= l < centers.len() ==> grid.compares(#[trigger] centers[l], radii[l]))
                ==> batched == some
        }),
{
    if exists|l: int| 0 <= l < centers.len() && grid.lane_hit(#[trigger] centers[l], radii[l]) {
        let l = choose|l: int|
            0 <= l < centers.len() && grid.lane_hit(#[trigger] centers[l], radii[l]);
        assert(grid.hit(centers[l], radii[l]));
    }
}

/// Arithmetic in which distances between finite values, and their sums and squares, compare with
/// every value that compares with itself.
pub open spec fn compares_distances<A: Axis>() -> bool {
    &&& orders_values::<A>()
    &&& ordered(A::ZERO)
    &&& forall|x: A, e: A|
        x.is_finite_spec() && e.is_finite_spec() ==> le(
            A::ZERO,
            #[trigger] minus(x, e).square_spec(),
        )
    &&& forall|a: A, b: A|
        le(A::ZERO, a) && le(A::ZERO, b) ==> le(A::ZERO, #[trigger] plus(a, b))
    &&& forall|a: A| ordered(a) ==> #[trigger] ordered(a.square_spec())
}

proof fn lemma_box_distance_compares<A: Axis>(b: Bounds<A>, c: Seq<A>, n: nat)
    requires
        compares_distances::<A>(),
        finite(b.lo),
        finite(b.hi),
        finite(c),
        n <= c.len(),
        c.len() == b.lo.len(),
        c.len() == b.hi.len(),
    ensures
        le(A::ZERO, b.closest_distsq(c, n)),
    decreases n,
{
    if n > 0 {
        let k = n - 1;
        lemma_box_distance_compares(b, c, (n - 1) as nat);
        assert(c[k].is_finite_spec() && b.lo[k].is_finite_spec() && b.hi[k].is_finite_spec());
        assert(b.clamp(k, c[k]).is_finite_spec());
    }
}

/// A batched query for finite spheres collides exactly where a query for one of its spheres alone
/// does. This holds however the arithmetic rounds.
pub proof fn batched_query_is_some_query<A: Axis>(
    grid: VoxelGrid<A>,
    centers: Seq<Seq<A>>,
    radii: Seq<A>,
)
    requires
        compares_distances::<A>(),
        grid.wf(),
        covered(grid),
        centers.len() == radii.len(),
        forall|l: int|
            #![trigger centers[l]]
            0 <= l < centers.len() ==> centers[l].len() == grid.dim() && finite(centers[l])
                && ordered(plus(radii[l], grid.r_point)),
    ensures
        (exists|l: int| 0 <= l < centers.len() && grid.lane_hit(#[trigger] centers[l], radii[l]))
            == (exists|l: int| 0 <= l < centers.len() && grid.hit(#[trigger] centers[l], radii[l])),
{
    assert forall|l: int| 0 <= l < centers.len() implies grid.lane_hit(
        #[trigger] centers[l],
        radii[l],
    ) == grid.hit(centers[l], radii[l]) by {
        if grid.voxels.len() > 0 {
            lemma_box_distance_compares(grid.bounds, centers[l], grid.dim());
            let d = grid.bounds.closest_distsq(centers[l], grid.dim());
            let rsq = plus(radii[l], grid.r_point).square_spec();
            assert(ordered(d) && ordered(rsq));
            assert(!lt(rsq, d) ==> le(d, rsq));
            assert(gt(d, rsq) <==> lt(rsq, d));
            lane_is_a_query(grid, centers[l], radii[l]);
        }
    }
}

/// Inserting points in two batches is inserting them all at once.
pub proof fn insert_all_in_batches<A: Axis>(
    grid: VoxelGrid<A>,
    first: Seq<Seq<A>>,
    second: Seq<Seq<A>>,
)
    ensures
        grid.insert_all(first + second) == grid.insert_all(first).insert_all(second),
    decreases second.len(),
{
    if second.len() == 0 {
        assert(first + second =~= first);
    } else {
        insert_all_in_batches(grid, first, second.drop_last());
        assert((first + second).drop_last() =~= first + second.drop_last());
    }
}

} // verus!

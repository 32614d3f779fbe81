//! How batches, clouds, names and counts are put together.

use crate::aabb::cloud;
use crate::axis::Axis;
use crate::index::Index;
use crate::manifest::three_names;
use crate::memory::{saturated, sum_of, sum_of_lists};
use crate::mutable::{footprint, MutableMvt, MutableVoxel};
use crate::planning::ball_center;
use crate::recording::lane_records;
use crate::report::{sphere_line_spec, SphereText};
use crate::scan::{columns, gather, rows};
use crate::simd::lane;
use crate::structure::unit_box;
use vstd::layout::size_of;
use vstd::prelude::*;

verus! {

// ---------------------------------------------------------------------------------------------
// Batches and clouds
// ---------------------------------------------------------------------------------------------

/// Lane `l` of a batch has the coordinates in position `l` of the axes, in the order of the axes.
pub proof fn lane_takes_one_of_each_axis<A, const K: usize, const L: usize>(
    centers: [[A; L]; K],
    l: int,
    k: int,
)
    requires
        0 <= k < K,
    ensures
        lane(centers, l).len() == K,
        lane(centers, l)[k] == centers@[k]@[l],
{
}

/// The center in lane `l` of a batch of balls is made of the coordinates in that lane.
pub proof fn ball_takes_one_of_each_axis<A, const L: usize>(
    xs: [A; L],
    ys: [A; L],
    zs: [A; L],
    l: int,
)
    ensures
        ball_center(xs, ys, zs, l)@[0] == xs@[l],
        ball_center(xs, ys, zs, l)@[1] == ys@[l],
        ball_center(xs, ys, zs, l)@[2] == zs@[l],
{
}

/// A batch is recorded lane by lane: the record of lane `l` has the center, the radius and the
/// result of that lane, and the width of the batch.
pub proof fn records_are_the_lanes<A, const L: usize>(
    xs: [A; L],
    ys: [A; L],
    zs: [A; L],
    rs: [A; L],
    collided: [bool; L],
    l: int,
)
    requires
        0 <= l < L <= u8::MAX,
    ensures
        ({
            let records = lane_records(xs, ys, zs, rs, collided);
            &&& records.len() == L
            &&& records[l].x == xs@[l]
            &&& records[l].y == ys@[l]
            &&& records[l].z == zs@[l]
            &&& records[l].r == rs@[l]
            &&& records[l].collided == collided@[l]
            &&& records[l].lanes == L
        }),
{
}

/// Points that are stored as one sequence of coordinates for each axis have coordinate `i` of each
/// sequence as the coordinates of point `i`.
pub proof fn rows_are_read_across<A, const K: usize>(axes: [&[A]; K], i: int, k: int)
    requires
        0 <= k < K,
        0 <= i < axes[0]@.len(),
    ensures
        rows(columns(axes)).len() == axes[0]@.len(),
        rows(columns(axes))[i] == gather(columns(axes), i),
        rows(columns(axes))[i].len() == K,
        rows(columns(axes))[i][k] == axes[k]@[i],
{
}

/// A cloud has the same points as the array that it is the cloud of, in the same order.
pub proof fn cloud_has_the_points<A, const K: usize>(points: Seq<[A; K]>, i: int)
    requires
        0 <= i < points.len(),
    ensures
        cloud(points).len() == points.len(),
        cloud(points)[i] == points[i]@,
{
}

/// The workspace of a structure without points reaches from zero to one on every axis.
pub proof fn unit_box_reaches_from_zero_to_one<A: Axis>(k: nat, i: int)
    requires
        0 <= i < k,
    ensures
        unit_box::<A>(k).lo.len() == k,
        unit_box::<A>(k).hi.len() == k,
        unit_box::<A>(k).lo[i] == A::ZERO,
        unit_box::<A>(k).hi[i] == A::from_usize_spec(1),
{
}

// ---------------------------------------------------------------------------------------------
// Names
// ---------------------------------------------------------------------------------------------

/// Three names with a separator between them can be read off again: the first from the front, the
/// last from the back, and the one in the middle from behind the first separator.
pub proof fn names_can_be_read_off(a: Seq<char>, b: Seq<char>, c: Seq<char>, sep: Seq<char>)
    ensures
        ({
            let s = three_names(a, b, c, sep);
            let x = a.len() as int;
            let y = x + sep.len() + b.len();
            &&& s.len() == y + sep.len() + c.len()
            &&& s.take(x) == a
            &&& s.subrange(x, x + sep.len()) == sep
            &&& s.subrange(x + sep.len(), y) == b
            &&& s.subrange(y, y + sep.len()) == sep
            &&& s.skip(y + sep.len()) == c
        }),
{
    let s = three_names(a, b, c, sep);
    let x = a.len() as int;
    let y = x + sep.len() + b.len();
    assert(s.take(x) =~= a);
    assert(s.subrange(x, x + sep.len()) =~= sep);
    assert(s.subrange(x + sep.len(), y) =~= b);
    assert(s.subrange(y, y + sep.len()) =~= sep);
    assert(s.skip(y + sep.len()) =~= c);
}

/// The line of a sphere has its four values in order, each behind its key, and ends the object; all
/// but the last line end in a comma.
pub proof fn sphere_line_has_its_values(sphere: SphereText, last: bool)
    ensures
        ({
            let line = sphere_line_spec(sphere, last);
            let x = "  {\"x\": "@.len() as int;
            let y = x + sphere.x@.len() + ", \"y\": "@.len();
            let z = y + sphere.y@.len() + ", \"z\": "@.len();
            let r = z + sphere.z@.len() + ", \"r\": "@.len();
            let end = r + sphere.r@.len();
            &&& line.subrange(0, x) == "  {\"x\": "@
            &&& line.subrange(x, x + sphere.x@.len()) == sphere.x@
            &&& line.subrange(x + sphere.x@.len(), y) == ", \"y\": "@
            &&& line.subrange(y, y + sphere.y@.len()) == sphere.y@
            &&& line.subrange(y + sphere.y@.len(), z) == ", \"z\": "@
            &&& line.subrange(z, z + sphere.z@.len()) == sphere.z@
            &&& line.subrange(z + sphere.z@.len(), r) == ", \"r\": "@
            &&& line.subrange(r, end) == sphere.r@
            &&& last ==> line.skip(end) == "}"@
            &&& !last ==> line.skip(end) == "},"@
        }),
{
    let line = sphere_line_spec(sphere, last);
    let x = "  {\"x\": "@.len() as int;
    let y = x + sphere.x@.len() + ", \"y\": "@.len();
    let z = y + sphere.y@.len() + ", \"z\": "@.len();
    let r = z + sphere.z@.len() + ", \"r\": "@.len();
    let end = r + sphere.r@.len();
    assert(line.subrange(0, x) =~= "  {\"x\": "@);
    assert(line.subrange(x, x + sphere.x@.len()) =~= sphere.x@);
    assert(line.subrange(x + sphere.x@.len(), y) =~= ", \"y\": "@);
    assert(line.subrange(y, y + sphere.y@.len()) =~= sphere.y@);
    assert(line.subrange(y + sphere.y@.len(), z) =~= ", \"z\": "@);
    assert(line.subrange(z, z + sphere.z@.len()) =~= sphere.z@);
    assert(line.subrange(z + sphere.z@.len(), r) =~= ", \"r\": "@);
    assert(line.subrange(r, end) =~= sphere.r@);
    if last {
        assert(line.skip(end) =~= "}"@);
    } else {
        assert(line.skip(end) =~= "},"@);
    }
}

// ---------------------------------------------------------------------------------------------
// Counts
// ---------------------------------------------------------------------------------------------

/// A count that does not fit is the largest that does; any other is itself.
pub proof fn saturated_is_the_nearest(n: int)
    ensures
        n <= usize::MAX ==> saturated(n) == n,
        n > usize::MAX ==> saturated(n) == usize::MAX,
{
}

/// The sum over lists splits wherever they are split, and that over a single one is its own.
pub proof fn sums_over_lists_split(a: Seq<Seq<usize>>, b: Seq<Seq<usize>>, list: Seq<usize>)
    ensures
        sum_of_lists(a + b) == sum_of_lists(a) + sum_of_lists(b),
        sum_of_lists(seq![list]) == sum_of(list),
        sum_of_lists(Seq::empty()) == 0,
    decreases b.len(),
{
    assert(seq![list].drop_last() =~= Seq::<Seq<usize>>::empty());
    assert(sum_of_lists(seq![list].drop_last()) == 0);
    if b.len() == 0 {
        assert(a + b =~= a);
    } else {
        sums_over_lists_split(a, b.drop_last(), list);
        assert((a + b).drop_last() =~= a + b.drop_last());
        assert((a + b).last() == b.last());
    }
}

/// A table without anything takes its own size; each entry of its hierarchy, voxel, axis and
/// coordinate that it has space for adds the size of one.
pub proof fn footprint_adds_up<const K: usize, A: Axis, I: Index>(
    tables: nat,
    voxels: nat,
    axes: nat,
    coordinates: nat,
)
    ensures
        footprint::<K, A, I>(0, 0, 0, 0) == size_of::<MutableMvt<K, A, I>>(),
        footprint::<K, A, I>(tables + 1, voxels, axes, coordinates) == footprint::<K, A, I>(
            tables,
            voxels,
            axes,
            coordinates,
        ) + size_of::<I>(),
        footprint::<K, A, I>(tables, voxels + 1, axes, coordinates) == footprint::<K, A, I>(
            tables,
            voxels,
            axes,
            coordinates,
        ) + size_of::<MutableVoxel<A, K>>(),
        footprint::<K, A, I>(tables, voxels, axes + 1, coordinates) == footprint::<K, A, I>(
            tables,
            voxels,
            axes,
            coordinates,
        ) + size_of::<Vec<A>>(),
        footprint::<K, A, I>(tables, voxels, axes, coordinates + 1) == footprint::<K, A, I>(
            tables,
            voxels,
            axes,
            coordinates,
        ) + size_of::<A>(),
{
    let si = size_of::<I>();
    let sv = size_of::<MutableVoxel<A, K>>();
    let sx = size_of::<Vec<A>>();
    let sa = size_of::<A>();
    assert((tables + 1) * si == tables * si + si) by (nonlinear_arith);
    assert((voxels + 1) * sv == voxels * sv + sv) by (nonlinear_arith);
    assert((axes + 1) * sx == axes * sx + sx) by (nonlinear_arith);
    assert((coordinates + 1) * sa == coordinates * sa + sa) by (nonlinear_arith);
    assert(0 * si == 0 && 0 * sv == 0 && 0 * sx == 0 && 0 * sa == 0) by (nonlinear_arith);
}

} // verus!

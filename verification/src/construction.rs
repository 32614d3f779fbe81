//! When a table can be built and when a point can be inserted.
//!
//! A table is refused only for what its input says: a coordinate that is not finite, a voxel width
//! that is not above zero, a workspace whose corners are the wrong way round, or more entries than
//! the index type can count.

use crate::aabb::{all_finite, box_over, finite, Bounds};
use crate::axis::{gt, minus, over, Axis};
use crate::grid::{is_cell, width_of, widths_fit, widths_of};
use crate::immutable::{new_error, points_before, pool_fits, NewMvtError};
use crate::index::Index;
use crate::laws::{cloud_has_a_valid_workspace, orders_values};
use crate::mutable::{
    cloud_error, insert_error, stops_at, workspace_error, InsertError, NewMutableMvtError,
};
use crate::occupancy::{
    cell_fits, growth, known, prefix_entries, table_len, table_len_is_one_table_per_prefix,
    tables_fit,
};
use crate::voxel_grid::VoxelGrid;
use vstd::prelude::*;

verus! {

/// Whether the index type can represent every number up to `cap`.
pub open spec fn counts_to<I: Index>(cap: nat) -> bool {
    &&& cap <= usize::MAX
    &&& forall|x: usize| x <= cap ==> (#[trigger] I::from_usize_spec(x)) is Some
}

/// The sum of `widths` from position `level` on.
pub open spec fn sum_from(widths: Seq<usize>, level: int) -> nat
    decreases widths.len() - level,
{
    if level >= widths.len() {
        0
    } else {
        widths[level] as nat + sum_from(widths, level + 1)
    }
}

/// Some coordinate of some point is not finite.
pub open spec fn some_coordinate_is_not_finite<A: Axis>(points: Seq<Seq<A>>) -> bool {
    exists|i: int, k: int|
        #![trigger points[i][k]]
        0 <= i < points.len() && 0 <= k < points[i].len() && !points[i][k].is_finite_spec()
}

proof fn lemma_finite<A: Axis>(points: Seq<Seq<A>>)
    ensures
        all_finite(points) <==> !some_coordinate_is_not_finite(points),
{
    if all_finite(points) {
        assert forall|i: int, k: int|
            #![trigger points[i][k]]
            0 <= i < points.len() && 0 <= k < points[i].len() implies points[i][k].is_finite_spec() by {
            assert(finite(points[i]));
        }
    }
    if !some_coordinate_is_not_finite(points) {
        assert forall|i: int| 0 <= i < points.len() implies finite(#[trigger] points[i]) by {
            assert forall|k: int| 0 <= k < points[i].len() implies (
            #[trigger] points[i][k]).is_finite_spec() by {}
        }
    }
}

/// An `Mvt` is refused for a coordinate exactly if one is not finite, and otherwise for the voxel
/// width exactly if that is not above zero. The radius of the points never decides. A cloud without
/// points is never refused for its size.
pub proof fn mvt_is_refused_only_for_its_input<A: Axis, I: Index>(
    points: Seq<Seq<A>>,
    voxel_width: A,
    r_point: A,
    other_r_point: A,
    k: nat,
)
    ensures
        new_error::<A, I>(points, voxel_width, r_point, k) == Some(NewMvtError::NonFinite)
            <==> some_coordinate_is_not_finite(points),
        new_error::<A, I>(points, voxel_width, r_point, k) == Some(NewMvtError::InvalidVoxelWidth)
            <==> !some_coordinate_is_not_finite(points) && !gt(voxel_width, A::ZERO),
        new_error::<A, I>(points, voxel_width, r_point, k) == Some(NewMvtError::TooManyVoxels)
            ==> points.len() > 0,
        new_error::<A, I>(points, voxel_width, r_point, k) == new_error::<A, I>(
            points,
            voxel_width,
            other_r_point,
            k,
        ),
{
    lemma_finite(points);
    let b = box_over(points);
    lemma_radius_is_carried::<A, I>(b, voxel_width, r_point, other_r_point, points);
}

/// Nothing that is stored depends on the radius of the points.
proof fn lemma_radius_is_carried<A: Axis, I: Index>(
    b: Bounds<A>,
    voxel_width: A,
    r: A,
    s: A,
    points: Seq<Seq<A>>,
)
    ensures
        ({
            let x = VoxelGrid::sized(b, voxel_width, r);
            let y = VoxelGrid::sized(b, voxel_width, s);
            &&& x.insert_all(points).voxels == y.insert_all(points).voxels
            &&& x.insert_all(points).lo == y.insert_all(points).lo
            &&& x.insert_all(points).scale == y.insert_all(points).scale
            &&& x.insert_all(points).widths == y.insert_all(points).widths
            &&& x.fits_all::<I>(points) == y.fits_all::<I>(points)
        }),
    decreases points.len(),
{
    if points.len() > 0 {
        let fewer = points.drop_last();
        lemma_radius_is_carried::<A, I>(b, voxel_width, r, s, fewer);
        let x = VoxelGrid::sized(b, voxel_width, r).insert_all(fewer);
        let y = VoxelGrid::sized(b, voxel_width, s).insert_all(fewer);
        assert forall|p: Seq<A>| x.cell_of(p) == #[trigger] y.cell_of(p) by {}
        assert(x.cells() =~= y.cells());
    }
}

// ---------------------------------------------------------------------------------------------
// Room
// ---------------------------------------------------------------------------------------------

proof fn lemma_growth(widths: Seq<usize>, cells: Seq<Seq<usize>>, cell: Seq<usize>, level: int)
    ensures
        growth(widths, cells, cell, level) <= sum_from(widths, level),
    decreases widths.len() - level,
{
    if level < widths.len() {
        lemma_growth(widths, cells, cell, level + 1);
    }
}

proof fn lemma_table_len(widths: Seq<usize>, cells: Seq<Seq<usize>>)
    ensures
        table_len(widths, cells) <= widths[0] + cells.len() * sum_from(widths, 1),
    decreases cells.len(),
{
    let s = sum_from(widths, 1);
    if cells.len() > 0 {
        let fewer = cells.drop_last();
        lemma_table_len(widths, fewer);
        lemma_growth(widths, fewer, cells.last(), 1);
        assert(cells.len() * s == fewer.len() * s + s) by (nonlinear_arith)
            requires
                cells.len() == fewer.len() + 1,
        ;
    } else {
        assert(0 * s == 0) by (nonlinear_arith);
    }
}

proof fn lemma_tables_fit<I: Index>(
    widths: Seq<usize>,
    cells: Seq<Seq<usize>>,
    cell: Seq<usize>,
    level: int,
    len: int,
    cap: nat,
)
    requires
        counts_to::<I>(cap),
        0 <= len,
        len + sum_from(widths, level) <= cap,
    ensures
        tables_fit::<I>(widths, cells, cell, level, len),
    decreases widths.len() - level,
{
    if level < widths.len() {
        if known(cells, cell.take(level)) {
            lemma_tables_fit::<I>(widths, cells, cell, level + 1, len, cap);
        } else {
            lemma_tables_fit::<I>(widths, cells, cell, level + 1, len + widths[level], cap);
        }
    }
}

/// A cell fits beside others where the index type can count the entries of a table for each prefix
/// of each of them.
proof fn lemma_cell_fits<I: Index>(
    widths: Seq<usize>,
    cells: Seq<Seq<usize>>,
    cell: Seq<usize>,
    n: nat,
    cap: nat,
)
    requires
        counts_to::<I>(cap),
        cells.len() < n <= cap,
        widths[0] + n * sum_from(widths, 1) <= cap,
    ensures
        cell_fits::<I>(widths, cells, cell),
{
    let s = sum_from(widths, 1);
    lemma_table_len(widths, cells);
    assert(cells.len() * s + s <= n * s) by (nonlinear_arith)
        requires
            cells.len() + 1 <= n,
    ;
    lemma_tables_fit::<I>(widths, cells, cell, 1, table_len(widths, cells) as int, cap);
}

proof fn lemma_voxels_of_inserts<A: Axis>(grid: VoxelGrid<A>, points: Seq<Seq<A>>)
    ensures
        grid.insert_all(points).voxels.len() <= grid.voxels.len() + points.len(),
        grid.insert_all(points).widths == grid.widths,
    decreases points.len(),
{
    if points.len() > 0 {
        lemma_voxels_of_inserts(grid, points.drop_last());
    }
}

proof fn lemma_all_fit<A: Axis, I: Index>(
    grid: VoxelGrid<A>,
    points: Seq<Seq<A>>,
    n: nat,
    cap: nat,
)
    requires
        counts_to::<I>(cap),
        grid.voxels.len() + points.len() <= n <= cap,
        grid.widths[0] + n * sum_from(grid.widths, 1) <= cap,
    ensures
        grid.fits_all::<I>(points),
    decreases points.len(),
{
    if points.len() > 0 {
        let fewer = points.drop_last();
        lemma_all_fit::<A, I>(grid, fewer, n, cap);
        lemma_voxels_of_inserts(grid, fewer);
        let before = grid.insert_all(fewer);
        lemma_cell_fits::<I>(
            before.widths,
            before.cells(),
            before.cell_of(points.last()),
            n,
            cap,
        );
    }
}

proof fn lemma_pool_fits<A: Axis, I: Index>(
    start: VoxelGrid<A>,
    points: Seq<Seq<A>>,
    k: nat,
    cap: nat,
)
    requires
        counts_to::<I>(cap),
        start.voxels.len() == 0,
        points.len() * k <= cap,
        points.len() <= cap,
    ensures
        pool_fits::<A, I>(start.insert_all(points).voxels, k),
{
    let voxels = start.insert_all(points).voxels;
    start.insert_all_adds_all_points(points);
    assert(start.points() =~= Seq::<Seq<A>>::empty());
    start.points().to_multiset_ensures();
    points.to_multiset_ensures();
    voxels.flatten().to_multiset_ensures();
    assert(voxels.flatten().len() == points.len());
    assert(voxels.take(voxels.len() as int) =~= voxels);
    assert forall|v: int|
        #![trigger voxels[v]]
        0 <= v < voxels.len() implies {
        &&& I::from_usize_spec((points_before(voxels, v) * k) as usize) is Some
        &&& I::from_usize_spec(voxels[v].len() as usize) is Some
    } by {
        lemma_part_of_flatten(voxels, v);
        let b = points_before(voxels, v);
        assert(b * k <= points.len() * k) by (nonlinear_arith)
            requires
                b <= points.len(),
        ;
    }
}

proof fn lemma_part_of_flatten<T>(seqs: Seq<Seq<T>>, v: int)
    requires
        0 <= v < seqs.len(),
    ensures
        seqs.take(v).flatten().len() + seqs[v].len() <= seqs.flatten().len(),
    decreases seqs.len(),
{
    let fewer = seqs.drop_last();
    seqs.lemma_flatten_and_flatten_alt_are_equivalent();
    fewer.lemma_flatten_and_flatten_alt_are_equivalent();
    assert(seqs.flatten().len() == fewer.flatten().len() + seqs.last().len());
    if v < fewer.len() {
        lemma_part_of_flatten(fewer, v);
        assert(fewer.take(v) =~= seqs.take(v));
    } else {
        assert(seqs.take(v) =~= fewer);
    }
}

/// Both corners of the box over points are made of coordinates of the points.
proof fn lemma_corner_is_a_coordinate<A: Axis>(b: Bounds<A>, points: Seq<Seq<A>>, a: int)
    requires
        0 <= a < b.lo.len(),
        b.hi.len() == b.lo.len(),
    ensures
        b.extend_all(points).lo.len() == b.lo.len(),
        b.extend_all(points).hi.len() == b.lo.len(),
        b.extend_all(points).lo[a] == b.lo[a] || exists|i: int|
            0 <= i < points.len() && (#[trigger] points[i])[a] == b.extend_all(points).lo[a],
        b.extend_all(points).hi[a] == b.hi[a] || exists|i: int|
            0 <= i < points.len() && (#[trigger] points[i])[a] == b.extend_all(points).hi[a],
    decreases points.len(),
{
    if points.len() > 0 {
        let fewer = points.drop_last();
        lemma_corner_is_a_coordinate(b, fewer, a);
        let e = b.extend_all(fewer);
        let grown = b.extend_all(points);
        let last = points.len() - 1;
        assert(points[last] == points.last());
        if grown.lo[a] == e.lo[a] && e.lo[a] != b.lo[a] {
            let i = choose|i: int| 0 <= i < fewer.len() && (#[trigger] fewer[i])[a] == e.lo[a];
            assert(points[i][a] == grown.lo[a]);
        } else if grown.lo[a] != e.lo[a] {
            assert(points[last][a] == grown.lo[a]);
        }
        if grown.hi[a] == e.hi[a] && e.hi[a] != b.hi[a] {
            let i = choose|i: int| 0 <= i < fewer.len() && (#[trigger] fewer[i])[a] == e.hi[a];
            assert(points[i][a] == grown.hi[a]);
        } else if grown.hi[a] != e.hi[a] {
            assert(points[last][a] == grown.hi[a]);
        }
    }
}

/// The cloud is no wider than `most[a]` voxels along each axis `a`: no two of its points are
/// farther apart there.
pub open spec fn no_wider_than<A: Axis>(
    points: Seq<Seq<A>>,
    voxel_width: A,
    most: Seq<usize>,
) -> bool {
    &&& forall|a: int|
        #![trigger most[a]]
        0 <= a < most.len() ==> most[a] >= 1 && over(voxel_width, voxel_width).to_index_spec()
            <= most[a]
    &&& forall|i: int, j: int, a: int|
        #![trigger points[i][a], points[j][a]]
        0 <= i < points.len() && 0 <= j < points.len() && 0 <= a < most.len() ==> over(
            minus(points[i][a], points[j][a]),
            voxel_width,
        ).to_index_spec() <= most[a]
}

proof fn lemma_cloud_widths<A: Axis>(points: Seq<Seq<A>>, voxel_width: A, most: Seq<usize>, k: nat)
    requires
        points.len() > 0,
        most.len() == k,
        forall|i: int| 0 <= i < points.len() ==> (#[trigger] points[i]).len() == k,
        no_wider_than(points, voxel_width, most),
    ensures
        box_over(points).lo.len() == k,
        box_over(points).hi.len() == k,
        widths_of(box_over(points), voxel_width).len() == k,
        forall|a: int|
            0 <= a < k ==> (#[trigger] widths_of(box_over(points), voxel_width)[a]) <= most[a],
{
    let b = box_over(points);
    let rest = points.drop_first();
    let first = Bounds::at(points[0]);
    assert(points[0].len() == k);
    if k == 0 {
        lemma_extend_len(first, rest);
    } else {
        lemma_corner_is_a_coordinate(first, rest, 0);
    }
    assert forall|a: int| 0 <= a < k implies (#[trigger] widths_of(b, voxel_width)[a])
        <= most[a] by {
        lemma_corner_is_a_coordinate(first, rest, a);
        let i: int = if b.hi[a] == first.hi[a] {
            0
        } else {
            1 + choose|i: int| 0 <= i < rest.len() && (#[trigger] rest[i])[a] == b.hi[a]
        };
        let j: int = if b.lo[a] == first.lo[a] {
            0
        } else {
            1 + choose|i: int| 0 <= i < rest.len() && (#[trigger] rest[i])[a] == b.lo[a]
        };
        assert(points[i][a] == b.hi[a]);
        assert(points[j][a] == b.lo[a]);
        assert(most[a] >= 1);
        assert(widths_of(b, voxel_width)[a] == width_of(b, voxel_width, a));
    }
}

proof fn lemma_extend_len<A: Axis>(b: Bounds<A>, points: Seq<Seq<A>>)
    ensures
        b.extend_all(points).lo.len() == b.lo.len(),
        b.extend_all(points).hi.len() == b.hi.len(),
    decreases points.len(),
{
    if points.len() > 0 {
        lemma_extend_len(b, points.drop_last());
    }
}

proof fn lemma_sum_is_monotone(small: Seq<usize>, large: Seq<usize>, level: int)
    requires
        small.len() == large.len(),
        0 <= level,
        forall|a: int| 0 <= a < small.len() ==> #[trigger] small[a] <= large[a],
    ensures
        sum_from(small, level) <= sum_from(large, level),
    decreases small.len() - level,
{
    if level < small.len() {
        assert(small[level] <= large[level]);
        lemma_sum_is_monotone(small, large, level + 1);
    }
}

proof fn lemma_cloud_fits<A: Axis, I: Index>(
    points: Seq<Seq<A>>,
    voxel_width: A,
    r_point: A,
    k: nat,
    most: Seq<usize>,
    cap: nat,
)
    requires
        k > 0,
        points.len() > 0,
        most.len() == k,
        forall|i: int| 0 <= i < points.len() ==> (#[trigger] points[i]).len() == k,
        no_wider_than(points, voxel_width, most),
        counts_to::<I>(cap),
        forall|a: int| 0 <= a < k ==> #[trigger] most[a] <= cap,
        most[0] + points.len() * sum_from(most, 1) <= cap,
        points.len() * k <= cap,
    ensures
        widths_fit::<I>(widths_of(box_over(points), voxel_width)),
        VoxelGrid::sized(box_over(points), voxel_width, r_point).fits_all::<I>(points),
        pool_fits::<A, I>(
            VoxelGrid::sized(box_over(points), voxel_width, r_point).insert_all(points).voxels,
            k,
        ),
{
    let b = box_over(points);
    let start = VoxelGrid::sized(b, voxel_width, r_point);
    let widths = widths_of(b, voxel_width);
    let n = points.len();
    lemma_cloud_widths(points, voxel_width, most, k);
    lemma_sum_is_monotone(widths, most, 1);
    let s = sum_from(widths, 1);
    let t = sum_from(most, 1);
    assert(n * s <= n * t) by (nonlinear_arith)
        requires
            s <= t,
    ;
    assert(n <= n * k) by (nonlinear_arith)
        requires
            k >= 1,
    ;
    assert(widths[0] <= most[0]);
    assert forall|a: int| 0 <= a < widths.len() implies I::from_usize_spec(
        #[trigger] widths[a],
    ) is Some by {
        assert(widths[a] <= most[a] && most[a] <= cap);
    }
    lemma_all_fit::<A, I>(start, points, n, cap);
    lemma_pool_fits::<A, I>(start, points, k, cap);
}

/// An `Mvt` over any finite cloud with a positive voxel width is built, whatever the radius of the
/// points, where the index type can count the voxels along each axis, the coordinates of all
/// points, and a table for each prefix of the cell of each point.
pub proof fn mvt_is_built_where_there_is_room<A: Axis, I: Index>(
    points: Seq<Seq<A>>,
    voxel_width: A,
    r_point: A,
    k: nat,
    most: Seq<usize>,
    cap: nat,
)
    requires
        k > 0,
        forall|i: int| 0 <= i < points.len() ==> (#[trigger] points[i]).len() == k,
        !some_coordinate_is_not_finite(points),
        gt(voxel_width, A::ZERO),
        most.len() == k,
        no_wider_than(points, voxel_width, most),
        counts_to::<I>(cap),
        forall|a: int| 0 <= a < k ==> #[trigger] most[a] <= cap,
        most[0] + points.len() * sum_from(most, 1) <= cap,
        points.len() * k <= cap,
    ensures
        new_error::<A, I>(points, voxel_width, r_point, k) is None,
{
    lemma_finite(points);
    if points.len() > 0 {
        lemma_cloud_fits::<A, I>(points, voxel_width, r_point, k, most, cap);
    }
}

/// A `MutableMvt` over a cloud is refused for a coordinate exactly if one is not finite, otherwise
/// for the voxel width exactly if that is not above zero, and otherwise for the cloud exactly if it
/// has no points. It is never refused for its workspace, and the radius of the points never decides.
pub proof fn mutable_mvt_is_refused_only_for_its_input<A: Axis, I: Index>(
    points: Seq<Seq<A>>,
    voxel_width: A,
    r_point: A,
    other_r_point: A,
    k: nat,
)
    requires
        orders_values::<A>(),
        forall|i: int| 0 <= i < points.len() ==> (#[trigger] points[i]).len() == k,
    ensures
        ({
            let e = cloud_error::<A, I>(points, voxel_width, r_point);
            let broken = some_coordinate_is_not_finite(points);
            &&& e == Some(NewMutableMvtError::NonFinite) <==> broken
            &&& e == Some(NewMutableMvtError::InvalidVoxelWidth) <==> !broken && !gt(
                voxel_width,
                A::ZERO,
            )
            &&& e == Some(NewMutableMvtError::EmptyPointCloud) <==> points.len() == 0 && gt(
                voxel_width,
                A::ZERO,
            )
            &&& e != Some(NewMutableMvtError::InvalidWorkspace)
            &&& e == cloud_error::<A, I>(points, voxel_width, other_r_point)
        }),
{
    lemma_finite(points);
    cloud_has_a_valid_workspace::<A, I>(points, voxel_width, r_point, k);
    lemma_radius_is_carried::<A, I>(
        box_over(points),
        voxel_width,
        r_point,
        other_r_point,
        points,
    );
    if points.len() > 0 && all_finite(points) {
        crate::laws::box_contains_its_points(points, k);
    }
}

/// A `MutableMvt` over any finite cloud that has points is built, with a positive voxel width,
/// where the index type can count the voxels along each axis and a table for each prefix of the cell
/// of each point.
pub proof fn mutable_mvt_is_built_where_there_is_room<A: Axis, I: Index>(
    points: Seq<Seq<A>>,
    voxel_width: A,
    r_point: A,
    k: nat,
    most: Seq<usize>,
    cap: nat,
)
    requires
        orders_values::<A>(),
        k > 0,
        points.len() > 0,
        forall|i: int| 0 <= i < points.len() ==> (#[trigger] points[i]).len() == k,
        !some_coordinate_is_not_finite(points),
        gt(voxel_width, A::ZERO),
        most.len() == k,
        no_wider_than(points, voxel_width, most),
        counts_to::<I>(cap),
        forall|a: int| 0 <= a < k ==> #[trigger] most[a] <= cap,
        most[0] + points.len() * sum_from(most, 1) <= cap,
        points.len() <= cap,
    ensures
        cloud_error::<A, I>(points, voxel_width, r_point) is None,
{
    lemma_finite(points);
    let b = box_over(points);
    let start = VoxelGrid::sized(b, voxel_width, r_point);
    let widths = widths_of(b, voxel_width);
    let n = points.len();
    cloud_has_a_valid_workspace::<A, I>(points, voxel_width, r_point, k);
    crate::laws::box_contains_its_points(points, k);
    lemma_cloud_widths(points, voxel_width, most, k);
    lemma_sum_is_monotone(widths, most, 1);
    let s = sum_from(widths, 1);
    let t = sum_from(most, 1);
    assert(n * s <= n * t) by (nonlinear_arith)
        requires
            s <= t,
    ;
    assert(widths[0] <= most[0]);
    assert forall|a: int| 0 <= a < widths.len() implies I::from_usize_spec(
        #[trigger] widths[a],
    ) is Some by {
        assert(widths[a] <= most[a] && most[a] <= cap);
    }
    lemma_all_fit::<A, I>(start, points, n, cap);
}

/// Some coordinate of a corner is not finite.
pub open spec fn some_corner_is_not_finite<A: Axis>(b: Bounds<A>) -> bool {
    exists|k: int|
        0 <= k < b.lo.len() && (!(#[trigger] b.lo[k]).is_finite_spec() || !b.hi[k].is_finite_spec())
}

/// On some axis, the lower corner lies above the upper one.
pub open spec fn corners_are_swapped<A: Axis>(b: Bounds<A>) -> bool {
    exists|k: int| 0 <= k < b.lo.len() && gt(#[trigger] b.lo[k], b.hi[k])
}

/// A `MutableMvt` over a workspace is refused, in this order and for nothing else: for a corner that
/// is not finite; for corners of which the lower lies above the upper on some axis; for a voxel width
/// that is not above zero; for an axis with more voxels than the index type can represent.
pub proof fn workspace_is_refused_only_for_its_input<A: Axis, I: Index>(
    b: Bounds<A>,
    voxel_width: A,
)
    requires
        b.lo.len() == b.hi.len(),
    ensures
        ({
            let e = workspace_error::<A, I>(b, voxel_width);
            let broken = some_corner_is_not_finite(b);
            let inverted = corners_are_swapped(b);
            let wide = gt(voxel_width, A::ZERO);
            &&& e == Some(NewMutableMvtError::NonFinite) <==> broken
            &&& e == Some(NewMutableMvtError::InvalidWorkspace) <==> !broken && inverted
            &&& e == Some(NewMutableMvtError::InvalidVoxelWidth) <==> !broken && !inverted && !wide
            &&& e != Some(NewMutableMvtError::EmptyPointCloud)
            &&& forall|cap: nat| #[trigger]
                counts_to::<I>(cap) && cap >= 1 && !broken && !inverted && wide && over(
                    voxel_width,
                    voxel_width,
                ).to_index_spec() <= cap && (forall|k: int|
                    #![trigger b.lo[k]]
                    0 <= k < b.lo.len() ==> over(
                        minus(b.hi[k], b.lo[k]),
                        voxel_width,
                    ).to_index_spec() <= cap) ==> e is None
        }),
{
    if some_corner_is_not_finite(b) {
        let k = choose|k: int|
            0 <= k < b.lo.len() && (!(#[trigger] b.lo[k]).is_finite_spec()
                || !b.hi[k].is_finite_spec());
        if finite(b.lo) && finite(b.hi) {
            assert(b.lo[k].is_finite_spec() && b.hi[k].is_finite_spec());
        }
    } else {
        assert forall|k: int| 0 <= k < b.lo.len() implies (#[trigger] b.lo[k]).is_finite_spec() by {}
        assert forall|k: int| 0 <= k < b.hi.len() implies (#[trigger] b.hi[k]).is_finite_spec() by {
            assert(b.lo[k].is_finite_spec());
        }
    }
    assert forall|cap: nat| #[trigger]
        counts_to::<I>(cap) && cap >= 1 && over(voxel_width, voxel_width).to_index_spec() <= cap && (
        forall|k: int|
            #![trigger b.lo[k]]
            0 <= k < b.lo.len() ==> over(minus(b.hi[k], b.lo[k]), voxel_width).to_index_spec()
                <= cap) implies widths_fit::<I>(widths_of(b, voxel_width)) by {
        let widths = widths_of(b, voxel_width);
        assert forall|k: int| 0 <= k < widths.len() implies I::from_usize_spec(
            #[trigger] widths[k],
        ) is Some by {
            assert(b.lo[k] == b.lo[k]);
            assert(widths[k] == width_of(b, voxel_width, k));
        }
    }
}

/// A point is refused for a coordinate exactly if one is not finite. A finite point whose cell is
/// occupied is never refused, and any other finite point is accepted where the index type can count
/// one more voxel and a table for each prefix of its cell and of every occupied one.
pub proof fn insert_is_refused_only_for_its_input<A: Axis, I: Index>(
    grid: VoxelGrid<A>,
    p: Seq<A>,
    cap: nat,
)
    requires
        grid.wf(),
        counts_to::<I>(cap),
    ensures
        ({
            let e = insert_error::<A, I>(grid, p);
            let broken = exists|k: int| 0 <= k < p.len() && !(#[trigger] p[k]).is_finite_spec();
            let n = grid.voxels.len() + 1;
            &&& e == Some(InsertError::NonFinite) <==> broken
            &&& !broken && (exists|v: int|
                0 <= v < grid.voxels.len() && grid.cell_of((#[trigger] grid.voxels[v])[0])
                    == grid.cell_of(p)) ==> e is None
            &&& !broken && n <= cap && grid.widths[0] + n * sum_from(grid.widths, 1) <= cap
                ==> e is None
        }),
{
    let n = grid.voxels.len() + 1;
    if exists|v: int|
        0 <= v < grid.voxels.len() && grid.cell_of((#[trigger] grid.voxels[v])[0]) == grid.cell_of(
            p,
        ) {
        let v = choose|v: int|
            0 <= v < grid.voxels.len() && grid.cell_of((#[trigger] grid.voxels[v])[0])
                == grid.cell_of(p);
        assert(grid.cells()[v] == grid.cell_of(p));
        assert(grid.cells().contains(grid.cell_of(p)));
    }
    if n <= cap && grid.widths[0] + n * sum_from(grid.widths, 1) <= cap {
        lemma_cell_fits::<I>(grid.widths, grid.cells(), grid.cell_of(p), n as nat, cap);
    }
}

// ---------------------------------------------------------------------------------------------
// Exactly as much room as is needed
// ---------------------------------------------------------------------------------------------

proof fn lemma_growth_fits<I: Index>(
    widths: Seq<usize>,
    cells: Seq<Seq<usize>>,
    cell: Seq<usize>,
    level: int,
    len: int,
    cap: nat,
)
    requires
        counts_to::<I>(cap),
        0 <= len,
        len + growth(widths, cells, cell, level) <= cap,
    ensures
        tables_fit::<I>(widths, cells, cell, level, len),
    decreases widths.len() - level,
{
    if level < widths.len() {
        if known(cells, cell.take(level)) {
            lemma_growth_fits::<I>(widths, cells, cell, level + 1, len, cap);
        } else {
            lemma_growth_fits::<I>(widths, cells, cell, level + 1, len + widths[level], cap);
        }
    }
}

proof fn lemma_inserts_fit<A: Axis, I: Index>(grid: VoxelGrid<A>, points: Seq<Seq<A>>, cap: nat)
    requires
        counts_to::<I>(cap),
        grid.wf(),
        forall|i: int| 0 <= i < points.len() ==> (#[trigger] points[i]).len() == grid.dim(),
        table_len(grid.widths, grid.insert_all(points).cells()) <= cap,
        grid.insert_all(points).cells().len() <= cap,
    ensures
        grid.fits_all::<I>(points),
    decreases points.len(),
{
    if points.len() > 0 {
        let fewer = points.drop_last();
        let p = points[points.len() - 1];
        assert forall|i: int| 0 <= i < fewer.len() implies (#[trigger] fewer[i]).len()
            == grid.dim() by {
            assert(fewer[i] == points[i]);
            assert(points[i].len() == grid.dim());
        }
        grid.insert_all_preserves_wf(fewer);
        let before = grid.insert_all(fewer);
        assert(p.len() == grid.dim());
        before.insert_preserves_wf(p);
        let cells = before.cells();
        let cell = before.cell_of(p);
        let after = grid.insert_all(points).cells();
        if cells.contains(cell) {
            assert(after == cells);
        } else {
            assert(after == cells.push(cell));
            assert(after.drop_last() =~= cells);
            assert(after.last() == cell);
            lemma_growth_fits::<I>(
                grid.widths,
                cells,
                cell,
                1,
                table_len(grid.widths, cells) as int,
                cap,
            );
        }
        lemma_inserts_fit::<A, I>(grid, fewer, cap);
    }
}

/// Whether the index type can represent what a table over `points` needs: the voxels along each
/// axis, the entries of the root table and of one table for each distinct prefix of the cells, and
/// the number of voxels.
pub open spec fn tables_can_be_counted<A: Axis, I: Index>(
    points: Seq<Seq<A>>,
    voxel_width: A,
    r_point: A,
    cap: nat,
) -> bool {
    let b = box_over(points);
    let widths = widths_of(b, voxel_width);
    let cells = VoxelGrid::sized(b, voxel_width, r_point).insert_all(points).cells();
    &&& counts_to::<I>(cap)
    &&& forall|a: int| 0 <= a < widths.len() ==> #[trigger] widths[a] <= cap
    &&& widths[0] + prefix_entries(widths, cells, 1) <= cap
    &&& cells.len() <= cap
}

/// A table over any finite cloud that has points is built, with a positive voxel width and whatever
/// the radius of the points, where the index type can count what the table needs; an `Mvt` needs the
/// coordinates of all points counted as well.
pub proof fn table_is_built_where_it_fits<A: Axis, I: Index>(
    points: Seq<Seq<A>>,
    voxel_width: A,
    r_point: A,
    k: nat,
    cap: nat,
)
    requires
        orders_values::<A>(),
        k > 0,
        points.len() > 0,
        forall|i: int| 0 <= i < points.len() ==> (#[trigger] points[i]).len() == k,
        !some_coordinate_is_not_finite(points),
        gt(voxel_width, A::ZERO),
        tables_can_be_counted::<A, I>(points, voxel_width, r_point, cap),
    ensures
        cloud_error::<A, I>(points, voxel_width, r_point) is None,
        points.len() * k <= cap ==> new_error::<A, I>(points, voxel_width, r_point, k) is None,
{
    let b = box_over(points);
    let widths = widths_of(b, voxel_width);
    let start = VoxelGrid::sized(b, voxel_width, r_point);
    let grid = start.insert_all(points);
    lemma_finite(points);
    assert(points[0].len() == k);
    lemma_extend_len(Bounds::at(points[0]), points.drop_first());
    assert(start.wf());
    start.insert_all_preserves_wf(points);
    let cells = grid.cells();
    assert forall|j: int| 0 <= j < cells.len() implies is_cell(widths, #[trigger] cells[j]) by {
        let cell = cells[j];
        assert(cell == grid.cell_of(grid.voxels[j][0]));
        assert forall|a: int| 0 <= a < widths.len() implies #[trigger] cell[a] < widths[a] by {
            assert(start.widths[a] >= 1);
        }
    }
    table_len_is_one_table_per_prefix(widths, cells);
    lemma_inserts_fit::<A, I>(start, points, cap);
    cloud_has_a_valid_workspace::<A, I>(points, voxel_width, r_point, k);
    crate::laws::box_contains_its_points(points, k);
    if points.len() * k <= cap {
        assert(points.len() <= points.len() * k) by (nonlinear_arith)
            requires
                k >= 1,
        ;
        lemma_pool_fits::<A, I>(start, points, k, cap);
    }
}

/// A table whose axis has more voxels than the index type can represent is refused for it.
pub proof fn table_that_is_too_wide_is_refused<A: Axis, I: Index>(
    points: Seq<Seq<A>>,
    voxel_width: A,
    r_point: A,
    k: nat,
    a: int,
)
    requires
        orders_values::<A>(),
        points.len() > 0,
        forall|i: int| 0 <= i < points.len() ==> (#[trigger] points[i]).len() == k,
        !some_coordinate_is_not_finite(points),
        gt(voxel_width, A::ZERO),
        0 <= a < k,
        I::from_usize_spec(widths_of(box_over(points), voxel_width)[a]) is None,
    ensures
        new_error::<A, I>(points, voxel_width, r_point, k) == Some(NewMvtError::TooManyVoxels),
        cloud_error::<A, I>(points, voxel_width, r_point) == Some(
            NewMutableMvtError::TooManyVoxels,
        ),
{
    lemma_finite(points);
    assert(points[0].len() == k);
    lemma_extend_len(Bounds::at(points[0]), points.drop_first());
    mutable_mvt_is_refused_only_for_its_input::<A, I>(points, voxel_width, r_point, r_point, k);
}

// ---------------------------------------------------------------------------------------------
// Insertions that stop
// ---------------------------------------------------------------------------------------------

/// An insertion of several points stops at the first that is refused, and nowhere else: those before
/// it are finite and have room, and it is refused for a coordinate exactly if it is not finite.
pub proof fn insertion_stops_at_the_first_refused_point<A: Axis, I: Index>(
    grid: VoxelGrid<A>,
    points: Seq<Seq<A>>,
    n: int,
    e: InsertError,
    m: int,
    f: InsertError,
)
    requires
        0 <= n < points.len(),
        0 <= m < points.len(),
        stops_at::<A, I>(grid, points, n, e),
        stops_at::<A, I>(grid, points, m, f),
    ensures
        n == m && e == f,
        forall|i: int| 0 <= i < n ==> finite(#[trigger] points[i]),
        forall|i: int|
            #![trigger points[i]]
            0 <= i < n ==> grid.insert_all(points.take(i)).fits::<I>(points[i]),
        e == InsertError::NonFinite <==> !finite(points[n]),
        e == InsertError::TooManyVoxels <==> finite(points[n]) && !grid.insert_all(
            points.take(n),
        ).fits::<I>(points[n]),
        !(all_finite(points) && grid.fits_all::<I>(points)),
{
    if n < m {
        lemma_before_the_stop::<A, I>(grid, points, m, n);
    } else if m < n {
        lemma_before_the_stop::<A, I>(grid, points, n, m);
    }
    assert forall|i: int| 0 <= i < n implies finite(#[trigger] points[i]) by {
        lemma_before_the_stop::<A, I>(grid, points, n, i);
    }
    assert forall|i: int| #![trigger points[i]] 0 <= i < n implies grid.insert_all(
        points.take(i),
    ).fits::<I>(points[i]) by {
        lemma_before_the_stop::<A, I>(grid, points, n, i);
    }
    if all_finite(points) && grid.fits_all::<I>(points) {
        assert(points.take(points.len() as int) =~= points);
        lemma_before_the_stop::<A, I>(grid, points, points.len() as int, n);
    }
}

proof fn lemma_before_the_stop<A: Axis, I: Index>(
    grid: VoxelGrid<A>,
    points: Seq<Seq<A>>,
    n: int,
    i: int,
)
    requires
        0 <= i < n <= points.len(),
        all_finite(points.take(n)),
        grid.fits_all::<I>(points.take(n)),
    ensures
        finite(points[i]),
        grid.insert_all(points.take(i)).fits::<I>(points[i]),
{
    let taken = points.take(n);
    assert(taken[i] == points[i]);
    assert(finite(taken[i]));
    grid.prefix_fits::<I>(taken, i + 1);
    assert(taken.take(i + 1) =~= points.take(i + 1));
    assert(points.take(i + 1).drop_last() =~= points.take(i));
    assert(points.take(i + 1).last() == points[i]);
}

/// The same reason is described alike wherever it comes up, and different reasons differently.
pub proof fn reasons_are_described_alike()
    ensures
        NewMvtError::NonFinite.message() == NewMutableMvtError::NonFinite.message(),
        NewMvtError::InvalidVoxelWidth.message() == NewMutableMvtError::InvalidVoxelWidth.message(),
        NewMvtError::TooManyVoxels.message() == NewMutableMvtError::TooManyVoxels.message(),
        InsertError::TooManyVoxels.message() == NewMvtError::TooManyVoxels.message(),
        forall|a: NewMvtError, b: NewMvtError| #[trigger]
            a.message() == #[trigger] b.message() ==> a == b,
        forall|a: NewMutableMvtError, b: NewMutableMvtError| #[trigger]
            a.message() == #[trigger] b.message() ==> a == b,
        forall|a: InsertError, b: InsertError| #[trigger]
            a.message() == #[trigger] b.message() ==> a == b,
{
    reveal_strlit("at least one point had a non-finite value");
    reveal_strlit("voxel_width was not a positive, finite value");
    reveal_strlit("too many voxels or points for the index type to represent");
    reveal_strlit("lo[k] > hi[k] for some axis k, so no valid workspace box exists");
    reveal_strlit("the point cloud was empty, so no workspace bounds could be inferred from it");
    reveal_strlit("the point had a non-finite value");
    assert("at least one point had a non-finite value"@.len() == 41);
    assert("voxel_width was not a positive, finite value"@.len() == 44);
    assert("too many voxels or points for the index type to represent"@.len() == 57);
    assert("lo[k] > hi[k] for some axis k, so no valid workspace box exists"@.len() == 63);
    assert("the point cloud was empty, so no workspace bounds could be inferred from it"@.len()
        == 75);
    assert("the point had a non-finite value"@.len() == 32);
}

} // verus!

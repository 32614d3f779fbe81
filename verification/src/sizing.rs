//! The cells of a table's grid.
//!
//! Where nothing rounds, a grid divides its box evenly into as many voxels as fit, a point falls
//! into the cell whose interval holds it on each axis, and the window of a query is made of the
//! cells that the query can reach.

use crate::aabb::{all_finite, box_over, finite, Bounds};
use crate::axis::{gt, lt, minus, over, plus, times, Axis};
use crate::exact::{
    compares_numbers, exact_count, exact_minus, exact_over, exact_plus, exact_times, truncates,
};
use crate::grid::{cell_of, coord_of, extent_of, scales_of, width_of, widths_of};
use crate::laws::orders_values;
use crate::voxel_grid::VoxelGrid;
use crate::window::{first_of, last_of};
use vstd::prelude::*;

verus! {

/// Conversion to an index drops the fractional part, and stops at the smallest and the largest
/// index.
pub open spec fn saturates<A: Axis>(value: spec_fn(A) -> real) -> bool {
    &&& truncates(value)
    &&& forall|a: A|
        a.is_finite_spec() && value(a) < 0 as real ==> #[trigger] a.to_index_spec() == 0
    &&& forall|a: A|
        a.is_finite_spec() && value(a) > usize::MAX as real ==> #[trigger] a.to_index_spec()
            == usize::MAX
}

// ---------------------------------------------------------------------------------------------
// Sizes
// ---------------------------------------------------------------------------------------------

/// Nothing rounds in sizing axis `k` of the grid over `b`.
pub open spec fn exact_sizing<A: Axis>(
    value: spec_fn(A) -> real,
    b: Bounds<A>,
    cell_wd: A,
    k: int,
) -> bool {
    let extent = extent_of(b, cell_wd, k);
    let width = width_of(b, cell_wd, k);
    &&& exact_minus(value, b.hi[k], b.lo[k])
    &&& exact_over(value, extent, cell_wd)
    &&& value(over(extent, cell_wd)) <= usize::MAX as real
    &&& exact_count(value, width)
    &&& exact_over(value, A::from_usize_spec(width), extent)
}

proof fn lemma_fits(q: real, wd: real, e: real, n: int)
    requires
        wd > 0 as real,
        q * wd == e,
        n as real <= q,
        q < (n + 1) as real,
    ensures
        (n as real) * wd <= e,
        e < ((n + 1) as real) * wd,
        e > 0 as real ==> q > 0 as real,
        wd <= e <==> n >= 1,
{
    let nr = n as real;
    let next = (n + 1) as real;
    assert(next == nr + 1 as real);
    assert(nr * wd <= e && e < next * wd) by (nonlinear_arith)
        requires
            wd > 0 as real,
            q * wd == e,
            nr <= q,
            q < next,
    ;
    assert(wd <= e <==> q >= 1 as real) by (nonlinear_arith)
        requires
            wd > 0 as real,
            q * wd == e,
    ;
    assert(e > 0 as real ==> q > 0 as real) by (nonlinear_arith)
        requires
            wd > 0 as real,
            q * wd == e,
    ;
}

/// On each axis there are as many voxels as fit into the extent of the box, and at least one; a box
/// without extent is one voxel wide. The scale is the number of voxels per unit length: the extent
/// of the grid has exactly that many voxels.
pub proof fn grid_has_the_voxels_that_fit<A: Axis>(
    value: spec_fn(A) -> real,
    b: Bounds<A>,
    cell_wd: A,
    k: int,
)
    requires
        compares_numbers(value),
        truncates(value),
        0 <= k < b.lo.len(),
        cell_wd.is_finite_spec(),
        value(cell_wd) > 0 as real,
        exact_sizing(value, b, cell_wd, k),
    ensures
        widths_of(b, cell_wd).len() == b.lo.len(),
        scales_of(b, cell_wd).len() == b.lo.len(),
        ({
            let n = widths_of(b, cell_wd)[k] as int;
            let scale = value(scales_of(b, cell_wd)[k]);
            let wd = value(cell_wd);
            let extent = value(b.hi[k]) - value(b.lo[k]);
            &&& extent >= wd ==> (n as real) * wd <= extent && extent < ((n + 1) as real) * wd
            &&& extent < wd ==> n == 1
            &&& extent > 0 as real ==> scale * extent == n as real
            &&& extent <= 0 as real ==> scale * wd == 1 as real
        }),
{
    let flat = minus(b.hi[k], b.lo[k]);
    let extent = extent_of(b, cell_wd, k);
    assert(gt(flat, A::ZERO) <==> value(flat) > 0 as real);
    let q = over(extent, cell_wd);
    let wd = value(cell_wd);
    let e = value(extent);
    assert(e > 0 as real);
    assert(value(q) >= 0 as real) by (nonlinear_arith)
        requires
            value(q) * wd == e,
            wd > 0 as real,
            e > 0 as real,
    ;
    let n = q.to_index_spec() as int;
    lemma_fits(value(q), wd, e, n);
    if value(flat) <= 0 as real {
        assert(e == wd);
        assert(value(q) == 1 as real) by (nonlinear_arith)
            requires
                value(q) * wd == wd,
                wd > 0 as real,
        ;
        assert(n == 1);
    }
}

// ---------------------------------------------------------------------------------------------
// Places
// ---------------------------------------------------------------------------------------------

/// Whether the place `x`, counted in cells from the lower end of an axis of `width` cells, belongs
/// to cell `j`: it lies in the cell, or beyond the end of the axis that the cell is at.
pub open spec fn belongs_to(x: real, j: int, width: int) -> bool {
    &&& 0 <= j < width
    &&& j == 0 || j as real <= x
    &&& j == width - 1 || x < (j + 1) as real
}

proof fn lemma_index<A: Axis>(value: spec_fn(A) -> real, a: A, width: usize, j: int)
    requires
        saturates(value),
        a.is_finite_spec(),
        width >= 1,
    ensures
        ({
            let i = a.to_index_spec();
            let c = if i < width {
                i as int
            } else {
                width - 1
            };
            &&& belongs_to(value(a), c, width as int)
            &&& belongs_to(value(a), j, width as int) ==> j == c
        }),
{
}

/// Nothing rounds in placing `x`.
pub open spec fn exact_position<A: Axis>(value: spec_fn(A) -> real, x: A, lo: A, scale: A) -> bool {
    exact_minus(value, x, lo) && exact_times(value, minus(x, lo), scale)
}

/// A coordinate falls into the cell that its place, counted in cells from the lower end, belongs to,
/// and into no other.
pub proof fn coordinate_falls_into_its_cell<A: Axis>(
    value: spec_fn(A) -> real,
    x: A,
    lo: A,
    scale: A,
    width: usize,
    j: int,
)
    requires
        saturates(value),
        exact_position(value, x, lo, scale),
        width >= 1,
    ensures
        coord_of(x, lo, scale, width) == j <==> belongs_to(
            (value(x) - value(lo)) * value(scale),
            j,
            width as int,
        ),
{
    lemma_index(value, times(minus(x, lo), scale), width, j);
}

/// Nothing rounds in finding the ends of the window around `c`.
pub open spec fn exact_ends<A: Axis>(
    value: spec_fn(A) -> real,
    c: A,
    r: A,
    lo: A,
    scale: A,
) -> bool {
    let at = times(minus(c, lo), scale);
    let reach = times(r, scale);
    &&& exact_position(value, c, lo, scale)
    &&& exact_times(value, r, scale)
    &&& exact_minus(value, at, reach)
    &&& exact_plus(value, at, reach)
}

/// On each axis the window around `c` is made of the cells that hold a place within `r` of it, where
/// the cells at the ends of the axis hold what lies beyond them.
pub proof fn window_is_what_can_be_reached<A: Axis>(
    value: spec_fn(A) -> real,
    c: A,
    r: A,
    lo: A,
    scale: A,
    width: usize,
    j: usize,
)
    requires
        saturates(value),
        exact_ends(value, c, r, lo, scale),
        width >= 1,
        j < width,
        value(r) * value(scale) >= 0 as real,
    ensures
        ({
            let from = (value(c) - value(lo)) * value(scale) - value(r) * value(scale);
            let to = (value(c) - value(lo)) * value(scale) + value(r) * value(scale);
            first_of(c, r, lo, scale, width) <= j <= last_of(c, r, lo, scale, width) <==> {
                &&& j == width - 1 || from < (j + 1) as real
                &&& j == 0 || j as real <= to
            }
        }),
{
    let at = times(minus(c, lo), scale);
    let reach = times(r, scale);
    let first = first_of(c, r, lo, scale, width) as int;
    let last = last_of(c, r, lo, scale, width) as int;
    lemma_index(value, minus(at, reach), width, first);
    lemma_index(value, plus(at, reach), width, last);
    assert(belongs_to(value(minus(at, reach)), first, width as int));
}

/// A point falls into a cell exactly if on each axis its place belongs to the cell.
pub proof fn point_falls_into_its_cell<A: Axis>(
    value: spec_fn(A) -> real,
    p: Seq<A>,
    lo: Seq<A>,
    scale: Seq<A>,
    widths: Seq<usize>,
    cell: Seq<usize>,
)
    requires
        saturates(value),
        cell.len() == widths.len(),
        forall|k: int|
            #![trigger widths[k]]
            0 <= k < widths.len() ==> widths[k] >= 1 && exact_position(
                value,
                p[k],
                lo[k],
                scale[k],
            ),
    ensures
        cell_of(p, lo, scale, widths) == cell <==> forall|k: int|
            #![trigger cell[k]]
            0 <= k < widths.len() ==> belongs_to(
                (value(p[k]) - value(lo[k])) * value(scale[k]),
                cell[k] as int,
                widths[k] as int,
            ),
{
    let found = cell_of(p, lo, scale, widths);
    assert forall|k: int| 0 <= k < widths.len() implies (#[trigger] found[k] == cell[k]
        <==> belongs_to(
        (value(p[k]) - value(lo[k])) * value(scale[k]),
        cell[k] as int,
        widths[k] as int,
    )) by {
        assert(widths[k] >= 1);
        coordinate_falls_into_its_cell(value, p[k], lo[k], scale[k], widths[k], cell[k] as int);
    }
    if forall|k: int|
        #![trigger cell[k]]
        0 <= k < widths.len() ==> belongs_to(
            (value(p[k]) - value(lo[k])) * value(scale[k]),
            cell[k] as int,
            widths[k] as int,
        ) {
        assert forall|k: int| 0 <= k < widths.len() implies found[k] == cell[k] by {
            let c = cell[k];
        }
        assert(found =~= cell);
    } else {
        let k = choose|k: int|
            #![trigger cell[k]]
            0 <= k < widths.len() && !belongs_to(
                (value(p[k]) - value(lo[k])) * value(scale[k]),
                cell[k] as int,
                widths[k] as int,
            );
        assert(found[k] != cell[k]);
    }
}

/// Whether on axis `k` a query around `c` can reach the cell with number `j`.
pub open spec fn can_reach<A: Axis>(
    value: spec_fn(A) -> real,
    grid: VoxelGrid<A>,
    c: Seq<A>,
    r: A,
    k: int,
    j: usize,
) -> bool {
    let at = (value(c[k]) - value(grid.lo[k])) * value(grid.scale[k]);
    let reach = value(r) * value(grid.scale[k]);
    &&& j == grid.widths[k] - 1 || at - reach < (j + 1) as real
    &&& j == 0 || j as real <= at + reach
}

/// A cell lies in the window around a sphere exactly if on each axis the sphere can reach it.
pub proof fn window_of_a_sphere_is_what_it_can_reach<A: Axis>(
    value: spec_fn(A) -> real,
    grid: VoxelGrid<A>,
    c: Seq<A>,
    r: A,
    cell: Seq<usize>,
)
    requires
        saturates(value),
        cell.len() == grid.dim(),
        forall|k: int|
            #![trigger grid.widths[k]]
            0 <= k < grid.dim() ==> cell[k] < grid.widths[k] && exact_ends(
                value,
                c[k],
                r,
                grid.lo[k],
                grid.scale[k],
            ) && value(r) * value(grid.scale[k]) >= 0 as real,
    ensures
        grid.in_window(cell, c, r) <==> forall|k: int|
            #![trigger cell[k]]
            0 <= k < grid.dim() ==> can_reach(value, grid, c, r, k, cell[k]),
{
    let first = grid.window_first(c, r);
    let last = grid.window_last(c, r);
    assert forall|k: int| 0 <= k < grid.dim() implies (first[k] <= #[trigger] cell[k] <= last[k]
        <==> can_reach(value, grid, c, r, k, cell[k])) by {
        assert(cell[k] < grid.widths[k]);
        window_is_what_can_be_reached(
            value,
            c[k],
            r,
            grid.lo[k],
            grid.scale[k],
            grid.widths[k],
            cell[k],
        );
    }
}

// ---------------------------------------------------------------------------------------------
// Boxes
// ---------------------------------------------------------------------------------------------

/// Whether one of `points` has the coordinate `x` on axis `k`.
pub open spec fn has_coordinate<A: Axis>(points: Seq<Seq<A>>, k: int, x: A) -> bool {
    exists|i: int| 0 <= i < points.len() && #[trigger] points[i][k] == x
}

proof fn lemma_has_more<A: Axis>(fewer: Seq<Seq<A>>, points: Seq<Seq<A>>, shift: int, k: int, x: A)
    requires
        has_coordinate(fewer, k, x),
        0 <= shift,
        shift + fewer.len() <= points.len(),
        forall|i: int| 0 <= i < fewer.len() ==> #[trigger] fewer[i] == points[i + shift],
    ensures
        has_coordinate(points, k, x),
{
    let i = choose|i: int| 0 <= i < fewer.len() && #[trigger] fewer[i][k] == x;
    assert(points[i + shift][k] == x);
}

proof fn lemma_extended<A: Axis>(b: Bounds<A>, points: Seq<Seq<A>>, k: int)
    requires
        0 <= k < b.lo.len(),
        b.hi.len() == b.lo.len(),
    ensures
        b.extend_all(points).lo.len() == b.lo.len(),
        b.extend_all(points).hi.len() == b.lo.len(),
        b.extend_all(points).lo[k] == b.lo[k] || has_coordinate(
            points,
            k,
            b.extend_all(points).lo[k],
        ),
        b.extend_all(points).hi[k] == b.hi[k] || has_coordinate(
            points,
            k,
            b.extend_all(points).hi[k],
        ),
    decreases points.len(),
{
    if points.len() > 0 {
        let fewer = points.drop_last();
        lemma_extended(b, fewer, k);
        let before = b.extend_all(fewer);
        let after = b.extend_all(points);
        let last = points.len() - 1;
        assert(points[last][k] == points.last()[k]);
        if has_coordinate(fewer, k, before.lo[k]) {
            lemma_has_more(fewer, points, 0, k, before.lo[k]);
        }
        if has_coordinate(fewer, k, before.hi[k]) {
            lemma_has_more(fewer, points, 0, k, before.hi[k]);
        }
        assert(after.lo[k] == before.lo[k] || after.lo[k] == points.last()[k]);
        assert(after.hi[k] == before.hi[k] || after.hi[k] == points.last()[k]);
    }
}

/// Each side of the box over a cloud is the coordinate of one of its points: no smaller box would
/// hold them.
pub proof fn box_is_tight<A: Axis>(points: Seq<Seq<A>>, k: int)
    requires
        points.len() > 0,
        0 <= k < points[0].len(),
    ensures
        has_coordinate(points, k, box_over(points).lo[k]),
        has_coordinate(points, k, box_over(points).hi[k]),
{
    let first = points[0];
    let rest = points.drop_first();
    let b = Bounds::at(first);
    lemma_extended(b, rest, k);
    let all = b.extend_all(rest);
    assert(points[0][k] == first[k]);
    if has_coordinate(rest, k, all.lo[k]) {
        lemma_has_more(rest, points, 1, k, all.lo[k]);
    }
    if has_coordinate(rest, k, all.hi[k]) {
        lemma_has_more(rest, points, 1, k, all.hi[k]);
    }
}

/// Each side of a voxel's box is the coordinate of one of its points.
pub proof fn voxel_box_is_tight<A: Axis>(points: Seq<Seq<A>>, dim: nat, k: int)
    requires
        orders_values::<A>(),
        points.len() > 0,
        all_finite(points),
        forall|i: int| 0 <= i < points.len() ==> (#[trigger] points[i]).len() == dim,
        0 <= k < dim,
    ensures
        has_coordinate(points, k, Bounds::<A>::empty(dim).extend_all(points).lo[k]),
        has_coordinate(points, k, Bounds::<A>::empty(dim).extend_all(points).hi[k]),
    decreases points.len(),
{
    let none = Bounds::<A>::empty(dim);
    let fewer = points.drop_last();
    let last = points.len() - 1;
    let p = points[last];
    assert(finite(p));
    assert(p.len() == dim);
    assert(p[k].is_finite_spec());
    assert(lt(p[k], A::INFINITY));
    assert(gt(p[k], A::NEG_INFINITY));
    assert(points[last][k] == p[k]);
    lemma_extended(none, fewer, k);
    let before = none.extend_all(fewer);
    let after = none.extend_all(points);
    assert(after.lo[k] == before.lo[k] || after.lo[k] == p[k]);
    assert(after.hi[k] == before.hi[k] || after.hi[k] == p[k]);
    if fewer.len() > 0 {
        assert forall|i: int| 0 <= i < fewer.len() implies finite(#[trigger] fewer[i])
            && fewer[i].len() == dim by {
            assert(fewer[i] == points[i]);
            assert(points[i].len() == dim);
        }
        voxel_box_is_tight(fewer, dim, k);
        lemma_has_more(fewer, points, 0, k, before.lo[k]);
        lemma_has_more(fewer, points, 0, k, before.hi[k]);
    }
}

} // verus!

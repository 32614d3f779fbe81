//! Where points fall in the grid.

use crate::aabb::finite;
use crate::axis::{le, minus, times, Axis};
use crate::grid::cell_of;
use crate::laws::indexes_monotonically;
use vstd::prelude::*;

verus! {

/// Arithmetic that keeps the order of values in placing them on a scaled axis: no position goes
/// down where the value goes up, and no value up to the origin has a position above zero.
pub open spec fn places_in_order<A: Axis>() -> bool {
    &&& indexes_monotonically::<A>()
    &&& forall|p: A, q: A, lo: A|
        p.is_finite_spec() && q.is_finite_spec() && lo.is_finite_spec() && le(p, q) ==> le(
            #[trigger] minus(p, lo),
            #[trigger] minus(q, lo),
        )
    &&& forall|p: A, lo: A|
        p.is_finite_spec() && lo.is_finite_spec() && le(p, lo) ==> le(
            #[trigger] minus(p, lo),
            A::ZERO,
        )
    &&& forall|a: A, b: A, scale: A|
        le(A::ZERO, scale) && le(a, b) ==> (#[trigger] times(a, scale)).to_index_spec() <= (
        #[trigger] times(b, scale)).to_index_spec()
    &&& forall|a: A, scale: A|
        le(A::ZERO, scale) && le(a, A::ZERO) ==> (#[trigger] times(a, scale)).to_index_spec() == 0
}

/// The position of a point on axis `k` of the grid, in cells, rounded down to an index.
pub open spec fn position<A: Axis>(p: Seq<A>, lo: Seq<A>, scale: Seq<A>, k: int) -> usize {
    times(minus(p[k], lo[k]), scale[k]).to_index_spec()
}

/// Whatever the arithmetic does, every point falls into a cell of the grid, the coordinates of cells
/// are in the order of the positions, and the first and last cells hold what lies at and beyond the
/// ends.
pub proof fn cells_follow_the_positions<A: Axis>(
    p: Seq<A>,
    q: Seq<A>,
    lo: Seq<A>,
    scale: Seq<A>,
    widths: Seq<usize>,
    k: int,
)
    requires
        0 <= k < widths.len(),
        widths[k] >= 1,
    ensures
        ({
            let a = cell_of(p, lo, scale, widths)[k];
            let b = cell_of(q, lo, scale, widths)[k];
            &&& a < widths[k]
            &&& a <= b <==> position(p, lo, scale, k) <= position(q, lo, scale, k) || position(
                q,
                lo,
                scale,
                k,
            ) >= widths[k] - 1
            &&& a == 0 <==> position(p, lo, scale, k) == 0 || widths[k] == 1
            &&& a == widths[k] - 1 <==> position(p, lo, scale, k) >= widths[k] - 1
        }),
{
}

/// Every point falls into a cell of the grid, and coordinates of cells are in the order of the
/// coordinates of the points, inside and outside of the box that the grid was sized for.
pub proof fn cells_keep_the_order<A: Axis>(
    p: Seq<A>,
    q: Seq<A>,
    lo: Seq<A>,
    scale: Seq<A>,
    widths: Seq<usize>,
    k: int,
)
    requires
        places_in_order::<A>(),
        0 <= k < widths.len(),
        p.len() == widths.len(),
        q.len() == widths.len(),
        lo.len() == widths.len(),
        finite(p),
        finite(q),
        finite(lo),
        le(A::ZERO, scale[k]),
        widths[k] >= 1,
        le(p[k], q[k]),
    ensures
        cell_of(p, lo, scale, widths)[k] <= cell_of(q, lo, scale, widths)[k] < widths[k],
{
    assert(p[k].is_finite_spec() && q[k].is_finite_spec() && lo[k].is_finite_spec());
    let a = minus(p[k], lo[k]);
    let b = minus(q[k], lo[k]);
    assert(le(a, b));
    assert(times(a, scale[k]).to_index_spec() <= times(b, scale[k]).to_index_spec());
}

/// A point below the grid, or at its lower end, falls into the first cell along the axis; one whose
/// position is not below that of the last cell falls into the last.
pub proof fn cells_end_at_the_edges<A: Axis>(
    p: Seq<A>,
    lo: Seq<A>,
    scale: Seq<A>,
    widths: Seq<usize>,
    k: int,
)
    requires
        places_in_order::<A>(),
        0 <= k < widths.len(),
        p.len() == widths.len(),
        lo.len() == widths.len(),
        finite(p),
        finite(lo),
        le(A::ZERO, scale[k]),
        widths[k] >= 1,
    ensures
        le(p[k], lo[k]) ==> cell_of(p, lo, scale, widths)[k] == 0,
        ({
            let end = A::from_usize_spec((widths[k] - 1) as usize);
            end.to_index_spec() == widths[k] - 1 && le(end, times(minus(p[k], lo[k]), scale[k]))
                ==> cell_of(p, lo, scale, widths)[k] == widths[k] - 1
        }),
{
    assert(p[k].is_finite_spec() && lo[k].is_finite_spec());
    let a = minus(p[k], lo[k]);
    let at = times(a, scale[k]);
    let end = A::from_usize_spec((widths[k] - 1) as usize);
    assert(le(end, at) ==> end.to_index_spec() <= at.to_index_spec());
}

} // verus!

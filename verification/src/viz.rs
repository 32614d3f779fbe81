//! Shared scene geometry for figures of collision queries in three dimensions.

use crate::aabb::{cloud, Bounds};
use crate::axis::{le, max, max_spec, min, min_spec, minus, over, plus, times, Axis};
use crate::grid::{cell_of, point_to_grid_coords, scales_of, width_of, widths_of};
use crate::scan::any_within;
use vstd::prelude::*;

verus! {

/// The dimension used by every figure.
pub const K: usize = 3;

/// An axis-aligned bounding box.
#[derive(Clone, Copy, Debug)]
pub struct Aabb<A> {
    pub lo: [A; 3],
    pub hi: [A; 3],
}

impl<A: Axis> View for Aabb<A> {
    type V = Bounds<A>;

    open spec fn view(&self) -> Bounds<A> {
        Bounds { lo: self.lo@, hi: self.hi@ }
    }
}

/// The smallest box over `points`.
pub open spec fn box_of<A: Axis>(points: Seq<[A; 3]>) -> Bounds<A>
    decreases points.len(),
{
    if points.len() == 0 {
        Bounds::empty(3)
    } else {
        box_union(box_of(points.drop_last()), Bounds::at(points.last()@))
    }
}

/// The smallest box over two boxes.
pub open spec fn box_union<A: Axis>(a: Bounds<A>, b: Bounds<A>) -> Bounds<A> {
    Bounds {
        lo: Seq::new(3, |k: int| min_spec(a.lo[k], b.lo[k])),
        hi: Seq::new(3, |k: int| max_spec(a.hi[k], b.hi[k])),
    }
}

impl<A: Axis> Aabb<A> {
    /// Compute the bounding box over `points`, of which there must be at least one.
    #[must_use]
    pub fn of(points: &[[A; 3]]) -> (r: Self)
        requires
            points@.len() > 0,
        ensures
            r@ == box_of(points@),
    {
        let mut r = Aabb { lo: [A::INFINITY; 3], hi: [A::NEG_INFINITY; 3] };
        let mut i: usize = 0;
        proof {
            assert(points@.take(0) =~= Seq::<[A; 3]>::empty());
            assert(r@.lo =~= Bounds::<A>::empty(3).lo);
            assert(r@.hi =~= Bounds::<A>::empty(3).hi);
        }
        while i < points.len()
            invariant
                i <= points.len(),
                r@ == box_of(points@.take(i as int)),
            decreases points.len() - i,
        {
            let p: [A; 3] = points[i];
            let at = Aabb { lo: p, hi: p };
            proof {
                let taken = points@.take(i + 1);
                assert(taken.drop_last() =~= points@.take(i as int));
                assert(taken.last() == p);
            }
            r = r.union(&at);
            i += 1;
        }
        assert(points@.take(i as int) =~= points@);
        r
    }

    /// Compute the smallest box over this one and `other`.
    #[must_use]
    pub fn union(&self, other: &Self) -> (r: Self)
        ensures
            r@ == box_union(self@, other@),
    {
        let r = Aabb {
            lo: [
                min(self.lo[0], other.lo[0]),
                min(self.lo[1], other.lo[1]),
                min(self.lo[2], other.lo[2]),
            ],
            hi: [
                max(self.hi[0], other.hi[0]),
                max(self.hi[1], other.hi[1]),
                max(self.hi[2], other.hi[2]),
            ],
        };
        assert(r@.lo =~= box_union(self@, other@).lo);
        assert(r@.hi =~= box_union(self@, other@).hi);
        r
    }

    /// Expand this box outward by `margin` on every axis.
    #[must_use]
    pub fn dilate(&self, margin: A) -> (r: Self)
        ensures
            r@.lo == Seq::new(3, |k: int| minus(self@.lo[k], margin)),
            r@.hi == Seq::new(3, |k: int| plus(self@.hi[k], margin)),
    {
        proof {
            A::total_operators();
        }
        let r = Aabb {
            lo: [self.lo[0] - margin, self.lo[1] - margin, self.lo[2] - margin],
            hi: [self.hi[0] + margin, self.hi[1] + margin, self.hi[2] + margin],
        };
        assert(r@.lo =~= Seq::new(3, |k: int| minus(self@.lo[k], margin)));
        assert(r@.hi =~= Seq::new(3, |k: int| plus(self@.hi[k], margin)));
        r
    }

    /// Compute the squared distance from `p` to the closest point of this box (zero if `p` is
    /// inside).
    #[must_use]
    pub fn closest_distsq_to(&self, p: &[A; 3]) -> (r: A)
        ensures
            r == self@.closest_distsq(p@, 3),
    {
        let b = crate::aabb::Aabb { lo: self.lo, hi: self.hi };
        b.closest_distsq_to(p)
    }

    /// Compute the size of this box along each axis.
    #[must_use]
    pub fn size(&self) -> (r: [A; 3])
        ensures
            r@ == Seq::new(3, |k: int| minus(self@.hi[k], self@.lo[k])),
    {
        proof {
            A::total_operators();
        }
        let r = [self.hi[0] - self.lo[0], self.hi[1] - self.lo[1], self.hi[2] - self.lo[2]];
        assert(r@ =~= Seq::new(3, |k: int| minus(self@.hi[k], self@.lo[k])));
        r
    }
}

/// Compute the squared distance between two points.
#[must_use]
pub fn distsq<A: Axis>(a: &[A; 3], b: &[A; 3]) -> (r: A)
    ensures
        r == crate::scan::distsq(a@, b@),
{
    crate::filter::squared_distance(a, b)
}

/// A linear-scan collision check, used as ground truth to validate the tree-search figures'
/// traversals against.
#[must_use]
pub fn brute_force_collides<A: Axis>(points: &[[A; 3]], center: &[A; 3], radius: A) -> (r: bool)
    ensures
        r == any_within(cloud(points@), center@, times(radius, radius)),
{
    proof {
        A::total_operators();
    }
    let rsq = radius * radius;
    let mut i: usize = 0;
    while i < points.len()
        invariant
            i <= points.len(),
            rsq == times(radius, radius),
            forall|j: int|
                0 <= j < i ==> !le(
                    crate::scan::distsq(#[trigger] cloud(points@)[j], center@),
                    rsq,
                ),
        decreases points.len() - i,
    {
        proof {
            A::total_operators();
            assert(cloud(points@)[i as int] == points@[i as int]@);
        }
        if distsq(&points[i], center) <= rsq {
            return true;
        }
        i += 1;
    }
    false
}

/// The largest side of a box, and no less than zero.
pub open spec fn longest_side<A: Axis>(b: Bounds<A>) -> A {
    let side = |k: int| minus(b.hi[k], b.lo[k]);
    max_spec(max_spec(max_spec(A::ZERO, side(0)), side(1)), side(2))
}

/// Compute the maximum query radius shared by every figure: a tenth of the longest side of the
/// point cloud's bounding box, so that the longest workspace axis is carved into about ten cells.
#[must_use]
pub fn r_max<A: Axis>(aabb: &Aabb<A>) -> (r: A)
    ensures
        r == over(longest_side(aabb@), A::from_usize_spec(10)),
{
    proof {
        A::total_operators();
    }
    let size: [A; 3] = aabb.size();
    max(max(max(A::ZERO, size[0]), size[1]), size[2]) / A::from_usize(10)
}

/// `n` tenths.
pub open spec fn tenths<A: Axis>(n: usize) -> A {
    over(A::from_usize_spec(n), A::from_usize_spec(10))
}

/// Choose the two query spheres used by every figure: one that collides with the cloud, one that
/// doesn't, so both a pruned/miss path and a hit path are visible.
#[must_use]
pub fn queries<A: Axis>(r_max: A) -> (r: [(&'static str, [A; 3], A); 2])
    ensures
        r[0].0@ == "miss"@,
        r[0].1@ == seq![A::ZERO, A::ZERO, tenths::<A>(16)],
        r[0].2 == times(r_max, tenths(9)),
        r[1].0@ == "hit"@,
        r[1].1@ == seq![minus(A::ZERO, tenths(14)), A::ZERO, tenths::<A>(10)],
        r[1].2 == times(r_max, tenths(9)),
{
    proof {
        A::total_operators();
    }
    let ten = A::from_usize(10);
    let radius = r_max * (A::from_usize(9) / ten);
    let miss: [A; 3] = [A::ZERO, A::ZERO, A::from_usize(16) / ten];
    let hit: [A; 3] = [A::ZERO - A::from_usize(14) / ten, A::ZERO, A::from_usize(10) / ten];
    assert(miss@ =~= seq![A::ZERO, A::ZERO, tenths::<A>(16)]);
    assert(hit@ =~= seq![minus(A::ZERO, tenths(14)), A::ZERO, tenths::<A>(10)]);
    [("miss", miss, radius), ("hit", hit, radius)]
}

/// Compute the number of cells and the scale of a voxel grid along each axis, so figures can
/// compute voxel cell boundaries in world space: an MVT's voxels are cells of a uniform grid of
/// width `cell_wd` anchored at `lo`.
#[must_use]
pub fn grid_params<A: Axis>(aabb: &Aabb<A>, cell_wd: A) -> (r: ([usize; 3], [A; 3]))
    ensures
        r.0@ == widths_of(aabb@, cell_wd),
        r.1@ == scales_of(aabb@, cell_wd),
        forall|k: int| 0 <= k < 3 ==> #[trigger] r.0@[k] >= 1,
{
    let mut grid_width = [0usize; 3];
    let mut scale = [A::ZERO; 3];
    let mut k: usize = 0;
    while k < 3
        invariant
            k <= 3,
            forall|i: int| 0 <= i < k ==> #[trigger] grid_width@[i] == width_of(aabb@, cell_wd, i),
            forall|i: int| 0 <= i < k ==> #[trigger] scale@[i] == scales_of(aabb@, cell_wd)[i],
        decreases 3 - k,
    {
        proof {
            A::total_operators();
        }
        let extent = aabb.hi[k] - aabb.lo[k];
        let extent = if extent > A::ZERO {
            extent
        } else {
            cell_wd
        };
        let fitting: usize = (extent / cell_wd).to_index();
        let gw: usize = if fitting < 1 {
            1
        } else {
            fitting
        };
        grid_width[k] = gw;
        scale[k] = A::from_usize(gw) / extent;
        k += 1;
    }
    assert(grid_width@ =~= widths_of(aabb@, cell_wd));
    assert(scale@ =~= scales_of(aabb@, cell_wd));
    (grid_width, scale)
}

/// Map a point to the grid cell that holds it, or the nearest one.
#[must_use]
pub fn point_to_coords<A: Axis>(
    p: &[A; 3],
    lo: [A; 3],
    scale: [A; 3],
    grid_width: [usize; 3],
) -> (r: [usize; 3])
    requires
        forall|k: int| 0 <= k < 3 ==> #[trigger] grid_width@[k] >= 1,
    ensures
        r@ == cell_of(p@, lo@, scale@, grid_width@),
{
    point_to_grid_coords(p, lo, scale, grid_width)
}

/// Compute the world-space bounds of grid cell `coords`.
#[must_use]
pub fn cell_bounds<A: Axis>(coords: [usize; 3], lo: &[A; 3], cell_size: &[A; 3]) -> (r: Aabb<A>)
    ensures
        r@.lo == Seq::new(
            3,
            |k: int| plus(lo@[k], times(A::from_usize_spec(coords@[k]), cell_size@[k])),
        ),
        r@.hi == Seq::new(3, |k: int| plus(r@.lo[k], cell_size@[k])),
{
    proof {
        A::total_operators();
    }
    let low = [
        lo[0] + A::from_usize(coords[0]) * cell_size[0],
        lo[1] + A::from_usize(coords[1]) * cell_size[1],
        lo[2] + A::from_usize(coords[2]) * cell_size[2],
    ];
    let high = [low[0] + cell_size[0], low[1] + cell_size[1], low[2] + cell_size[2]];
    let r = Aabb { lo: low, hi: high };
    assert(r@.lo =~= Seq::new(
        3,
        |k: int| plus(lo@[k], times(A::from_usize_spec(coords@[k]), cell_size@[k])),
    ));
    assert(r@.hi =~= Seq::new(3, |k: int| plus(r@.lo[k], cell_size@[k])));
    r
}

/// Convert a point into a tuple.
#[must_use]
pub fn v3<A: Axis>(p: [A; 3]) -> (r: (A, A, A))
    ensures
        r == (p[0], p[1], p[2]),
{
    (p[0], p[1], p[2])
}

/// The cells that become occupied as points are inserted in order: for each point, its cell if
/// none of the earlier points falls into it.
pub open spec fn newly_occupied(cells: Seq<Seq<usize>>, i: int) -> bool {
    forall|j: int| 0 <= j < i ==> #[trigger] cells[j] != cells[i]
}

/// Determine, for each point in the order of insertion, the cell that it is the first to occupy,
/// if it is.
pub fn first_occupied<A: Axis>(
    points: &[[A; 3]],
    lo: [A; 3],
    scale: [A; 3],
    grid_width: [usize; 3],
) -> (r: Vec<Option<[usize; 3]>>)
    requires
        forall|k: int| 0 <= k < 3 ==> #[trigger] grid_width@[k] >= 1,
    ensures
        r@.len() == points@.len(),
        forall|i: int|
            #![trigger r@[i]]
            0 <= i < points@.len() ==> {
                let cells = Seq::new(
                    points@.len(),
                    |j: int| cell_of(points@[j]@, lo@, scale@, grid_width@),
                );
                match r@[i] {
                    Some(cell) => cell@ == cells[i] && newly_occupied(cells, i),
                    None => !newly_occupied(cells, i),
                }
            },
{
    let ghost cells = Seq::new(
        points@.len(),
        |j: int| cell_of(points@[j]@, lo@, scale@, grid_width@),
    );
    let mut seen: Vec<[usize; 3]> = Vec::new();
    let mut r: Vec<Option<[usize; 3]>> = Vec::new();
    let mut i: usize = 0;
    while i < points.len()
        invariant
            i <= points.len(),
            forall|k: int| 0 <= k < 3 ==> #[trigger] grid_width@[k] >= 1,
            cells == Seq::new(
                points@.len(),
                |j: int| cell_of(points@[j]@, lo@, scale@, grid_width@),
            ),
            seen@.len() == i,
            forall|j: int| 0 <= j < i ==> (#[trigger] seen@[j])@ == cells[j],
            r@.len() == i,
            forall|j: int|
                #![trigger r@[j]]
                0 <= j < i ==> match r@[j] {
                    Some(cell) => cell@ == cells[j] && newly_occupied(cells, j),
                    None => !newly_occupied(cells, j),
                },
        decreases points.len() - i,
    {
        let cell: [usize; 3] = point_to_coords(&points[i], lo, scale, grid_width);
        let mut new: bool = true;
        let mut j: usize = 0;
        while j < seen.len()
            invariant
                j <= seen@.len(),
                seen@.len() == i,
                i < cells.len(),
                cell@ == cells[i as int],
                forall|j: int| 0 <= j < i ==> (#[trigger] seen@[j])@ == cells[j],
                new == (forall|m: int| 0 <= m < j ==> #[trigger] cells[m] != cells[i as int]),
            decreases seen.len() - j,
        {
            let other: [usize; 3] = seen[j];
            let same: bool = other[0] == cell[0] && other[1] == cell[1] && other[2] == cell[2];
            proof {
                assert(seen@[j as int]@ == cells[j as int]);
                if same {
                    assert(other@ =~= cell@);
                }
            }
            if same {
                new = false;
            }
            j += 1;
        }
        seen.push(cell);
        if new {
            r.push(Some(cell));
        } else {
            r.push(None);
        }
        i += 1;
    }
    r
}

} // verus!

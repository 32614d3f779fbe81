//! What a voxel table holds and what a query against it answers, apart from how it is stored.

use crate::aabb::Bounds;
use crate::axis::{gt, le, plus, Axis};
use crate::grid::{cell_of, scales_of, widths_of};
use crate::index::Index;
use crate::occupancy::cell_fits;
use crate::scan::any_within;
use crate::window::{between, first_of, last_of};
use vstd::prelude::*;

verus! {

/// A grid of voxels over a point cloud.
pub struct VoxelGrid<A> {
    /// The corner of the grid with the smallest coordinates.
    pub lo: Seq<A>,
    /// The number of cells per unit length along each axis.
    pub scale: Seq<A>,
    /// The number of cells along each axis.
    pub widths: Seq<usize>,
    /// The radius of every point.
    pub r_point: A,
    /// A box over every point.
    pub bounds: Bounds<A>,
    /// The points of each occupied voxel, in the order in which they were stored; the voxels are
    /// in the order in which they were first occupied.
    pub voxels: Seq<Seq<Seq<A>>>,
}

impl<A: Axis> VoxelGrid<A> {
    /// A grid without points, whose cells divide the box `b` into voxels of width `voxel_width`.
    pub open spec fn sized(b: Bounds<A>, voxel_width: A, r_point: A) -> Self {
        VoxelGrid {
            lo: b.lo,
            scale: scales_of(b, voxel_width),
            widths: widths_of(b, voxel_width),
            r_point,
            bounds: Bounds::empty(b.lo.len()),
            voxels: Seq::empty(),
        }
    }

    /// The number of axes.
    pub open spec fn dim(self) -> nat {
        self.widths.len()
    }

    /// The cell that `p` falls into.
    pub open spec fn cell_of(self, p: Seq<A>) -> Seq<usize> {
        cell_of(p, self.lo, self.scale, self.widths)
    }

    /// The cell of each occupied voxel.
    pub open spec fn cells(self) -> Seq<Seq<usize>> {
        Seq::new(self.voxels.len(), |v: int| self.cell_of(self.voxels[v][0]))
    }

    /// Every voxel holds at least one point, and exactly the points that fall into its cell.
    pub open spec fn wf(self) -> bool {
        &&& self.dim() > 0
        &&& self.lo.len() == self.dim()
        &&& self.scale.len() == self.dim()
        &&& self.bounds.lo.len() == self.dim()
        &&& self.bounds.hi.len() == self.dim()
        &&& forall|k: int| 0 <= k < self.dim() ==> #[trigger] self.widths[k] >= 1
        &&& forall|v: int| 0 <= v < self.voxels.len() ==> (#[trigger] self.voxels[v]).len() > 0
        &&& forall|v: int, i: int|
            #![trigger self.voxels[v][i]]
            0 <= v < self.voxels.len() && 0 <= i < self.voxels[v].len() ==> {
                &&& self.voxels[v][i].len() == self.dim()
                &&& self.cell_of(self.voxels[v][i]) == self.cells()[v]
            }
        &&& forall|u: int, v: int|
            #![trigger self.cells()[u], self.cells()[v]]
            0 <= u < self.voxels.len() && 0 <= v < self.voxels.len() && self.cells()[u]
                == self.cells()[v] ==> u == v
    }

    /// Whether the index type has room to store `p`.
    pub open spec fn fits<I: Index>(self, p: Seq<A>) -> bool {
        cell_fits::<I>(self.widths, self.cells(), self.cell_of(p))
    }

    /// The voxel that `p` is stored in: the one for its cell, or a new one at the end.
    pub open spec fn slot(self, p: Seq<A>) -> int {
        if self.cells().contains(self.cell_of(p)) {
            self.cells().index_of(self.cell_of(p))
        } else {
            self.voxels.len() as int
        }
    }

    /// This grid with the point `p` added.
    pub open spec fn insert(self, p: Seq<A>) -> Self {
        let v = self.slot(p);
        VoxelGrid {
            bounds: self.bounds.extend(p),
            voxels: if v < self.voxels.len() {
                self.voxels.update(v, self.voxels[v].push(p))
            } else {
                self.voxels.push(seq![p])
            },
            ..self
        }
    }

    /// This grid with each of `points` added in turn.
    pub open spec fn insert_all(self, points: Seq<Seq<A>>) -> Self
        decreases points.len(),
    {
        if points.len() == 0 {
            self
        } else {
            self.insert_all(points.drop_last()).insert(points.last())
        }
    }

    /// Whether the index type has room to store each of `points` in turn.
    pub open spec fn fits_all<I: Index>(self, points: Seq<Seq<A>>) -> bool
        decreases points.len(),
    {
        points.len() == 0 || {
            &&& self.fits_all::<I>(points.drop_last())
            &&& self.insert_all(points.drop_last()).fits::<I>(points.last())
        }
    }

    /// The stored points, voxel by voxel.
    pub open spec fn points(self) -> Seq<Seq<A>> {
        self.voxels.flatten()
    }

    /// The box over the points of voxel `v`.
    pub open spec fn voxel_bounds(self, v: int) -> Bounds<A> {
        Bounds::empty(self.dim()).extend_all(self.voxels[v])
    }

    /// The first cell of the window around a sphere with center `c` and radius `r`.
    pub open spec fn window_first(self, c: Seq<A>, r: A) -> Seq<usize> {
        Seq::new(
            self.dim(),
            |k: int| first_of(c[k], r, self.lo[k], self.scale[k], self.widths[k]),
        )
    }

    /// The last cell of the window around a sphere with center `c` and radius `r`.
    pub open spec fn window_last(self, c: Seq<A>, r: A) -> Seq<usize> {
        Seq::new(self.dim(), |k: int| last_of(c[k], r, self.lo[k], self.scale[k], self.widths[k]))
    }

    /// Whether `cell` lies in the window around a sphere with center `c` and radius `r`.
    pub open spec fn in_window(self, cell: Seq<usize>, c: Seq<A>, r: A) -> bool {
        between(self.window_first(c, r), self.window_last(c, r), cell)
    }

    /// Whether a search with center `c` and radius `r` finds a point in voxel `v`: its cell lies
    /// in the window, its box is close enough and one of its points is close enough.
    pub open spec fn finds_in(self, v: int, c: Seq<A>, r: A) -> bool {
        &&& self.in_window(self.cells()[v], c, r)
        &&& le(self.voxel_bounds(v).closest_distsq(c, self.dim()), r.square_spec())
        &&& any_within(self.voxels[v], c, r.square_spec())
    }

    /// Whether a search with center `c` and radius `r` finds a point.
    pub open spec fn finds(self, c: Seq<A>, r: A) -> bool {
        exists|v: int| 0 <= v < self.voxels.len() && #[trigger] self.finds_in(v, c, r)
    }

    /// What a query against this grid answers: nothing is found outside of the bounding box; inside
    /// of it a search decides, with the radius of the points added to `radius`.
    pub open spec fn hit(self, c: Seq<A>, radius: A) -> bool {
        let r = plus(radius, self.r_point);
        &&& !gt(self.bounds.closest_distsq(c, self.dim()), r.square_spec())
        &&& self.finds(c, r)
    }

    /// What one lane of a batched query against this grid answers: as [`hit`](Self::hit), except
    /// that a distance to the bounding box that compares with nothing rules the lane out.
    pub open spec fn lane_hit(self, c: Seq<A>, radius: A) -> bool {
        let r = plus(radius, self.r_point);
        &&& le(self.bounds.closest_distsq(c, self.dim()), r.square_spec())
        &&& self.finds(c, r)
    }

    /// Whether the distance from `c` to the bounding box compares with the reach of a query.
    pub open spec fn compares(self, c: Seq<A>, radius: A) -> bool {
        let d = self.bounds.closest_distsq(c, self.dim());
        let rsq = plus(radius, self.r_point).square_spec();
        le(d, rsq) || gt(d, rsq)
    }

    /// Adding a point keeps the grid well-formed and adds its cell to the occupied ones.
    pub proof fn insert_preserves_wf(self, p: Seq<A>)
        requires
            self.wf(),
            p.len() == self.dim(),
        ensures
            self.insert(p).wf(),
            self.insert(p).cells() == if self.cells().contains(self.cell_of(p)) {
                self.cells()
            } else {
                self.cells().push(self.cell_of(p))
            },
    {
        let after = self.insert(p);
        let v = self.slot(p);
        let cell = self.cell_of(p);
        assert(after.cell_of(p) == cell);
        assert(forall|q: Seq<A>| #[trigger] after.cell_of(q) == self.cell_of(q));
        if v < self.voxels.len() {
            assert(self.cells()[v] == cell);
            assert(after.voxels[v] == self.voxels[v].push(p));
            assert(after.voxels[v][0] == self.voxels[v][0]);
            assert(after.cells() =~= self.cells());
            assert forall|u: int, i: int|
                #![trigger after.voxels[u][i]]
                0 <= u < after.voxels.len() && 0 <= i < after.voxels[u].len() implies {
                &&& after.voxels[u][i].len() == after.dim()
                &&& after.cell_of(after.voxels[u][i]) == after.cells()[u]
            } by {
                if u != v {
                    assert(after.voxels[u] == self.voxels[u]);
                    assert(self.voxels[u][i].len() == self.dim());
                } else if i < self.voxels[v].len() {
                    assert(after.voxels[u][i] == self.voxels[v][i]);
                }
            }
        } else {
            assert(after.cells() =~= self.cells().push(cell));
            assert forall|u: int, i: int|
                #![trigger after.voxels[u][i]]
                0 <= u < after.voxels.len() && 0 <= i < after.voxels[u].len() implies {
                &&& after.voxels[u][i].len() == after.dim()
                &&& after.cell_of(after.voxels[u][i]) == after.cells()[u]
            } by {
                if u < self.voxels.len() {
                    assert(after.voxels[u] == self.voxels[u]);
                    assert(self.voxels[u][i].len() == self.dim());
                }
            }
            assert forall|u: int, w: int|
                #![trigger after.cells()[u], after.cells()[w]]
                0 <= u < after.voxels.len() && 0 <= w < after.voxels.len() && after.cells()[u]
                    == after.cells()[w] implies u == w by {
                if u < self.voxels.len() && w < self.voxels.len() {
                    assert(self.cells()[u] == self.cells()[w]);
                } else if u < self.voxels.len() {
                    assert(self.cells()[u] == cell);
                    assert(self.cells().contains(cell));
                } else if w < self.voxels.len() {
                    assert(self.cells()[w] == cell);
                    assert(self.cells().contains(cell));
                }
            }
        }
    }

    /// Adding points keeps the grid well-formed.
    pub proof fn insert_all_preserves_wf(self, points: Seq<Seq<A>>)
        requires
            self.wf(),
            forall|i: int| 0 <= i < points.len() ==> (#[trigger] points[i]).len() == self.dim(),
        ensures
            self.insert_all(points).wf(),
            self.insert_all(points).dim() == self.dim(),
            self.insert_all(points).lo == self.lo,
            self.insert_all(points).scale == self.scale,
            self.insert_all(points).widths == self.widths,
            self.insert_all(points).r_point == self.r_point,
        decreases points.len(),
    {
        if points.len() > 0 {
            let fewer = points.drop_last();
            assert forall|i: int| 0 <= i < fewer.len() implies (#[trigger] fewer[i]).len()
                == self.dim() by {
                assert(fewer[i] == points[i]);
            }
            self.insert_all_preserves_wf(fewer);
            assert(points[points.len() - 1].len() == self.dim());
            self.insert_all(fewer).insert_preserves_wf(points.last());
        }
    }

    /// Where all of `points` fit, so do the first `n` of them.
    pub proof fn prefix_fits<I: Index>(self, points: Seq<Seq<A>>, n: int)
        requires
            0 <= n <= points.len(),
            self.fits_all::<I>(points),
        ensures
            self.fits_all::<I>(points.take(n)),
        decreases points.len(),
    {
        if n == points.len() {
            assert(points.take(n) =~= points);
        } else {
            self.prefix_fits::<I>(points.drop_last(), n);
            assert(points.drop_last().take(n) =~= points.take(n));
        }
    }

    /// Adding a point adds it to the stored points and keeps the others.
    pub proof fn insert_adds_one_point(self, p: Seq<A>)
        ensures
            self.insert(p).points().to_multiset() == self.points().to_multiset().insert(p),
    {
        let v = self.slot(p);
        if v < self.voxels.len() {
            lemma_flatten_update(self.voxels, v, p);
        } else {
            let after = self.voxels.push(seq![p]);
            assert(after.drop_last() =~= self.voxels);
            after.lemma_flatten_and_flatten_alt_are_equivalent();
            self.voxels.lemma_flatten_and_flatten_alt_are_equivalent();
            assert(after.flatten() =~= self.voxels.flatten().push(p));
            self.voxels.flatten().to_multiset_ensures();
        }
    }

    /// Adding points adds exactly these to the stored points: none is lost, moved or made up.
    pub proof fn insert_all_adds_all_points(self, points: Seq<Seq<A>>)
        ensures
            self.insert_all(points).points().to_multiset() == self.points().to_multiset().add(
                points.to_multiset(),
            ),
        decreases points.len(),
    {
        points.to_multiset_ensures();
        if points.len() == 0 {
            assert(points.to_multiset() =~= vstd::multiset::Multiset::empty());
            assert(self.points().to_multiset().add(points.to_multiset())
                =~= self.points().to_multiset());
        } else {
            self.insert_all_adds_all_points(points.drop_last());
            self.insert_all(points.drop_last()).insert_adds_one_point(points.last());
            assert(points.drop_last().push(points.last()) =~= points);
            points.drop_last().to_multiset_ensures();
            assert(self.insert_all(points).points().to_multiset() =~= self.points().to_multiset().add(
                points.to_multiset(),
            ));
        }
    }
}

/// Appending `p` to one of the sequences adds it to all of them together.
proof fn lemma_flatten_update<T>(seqs: Seq<Seq<T>>, v: int, p: T)
    requires
        0 <= v < seqs.len(),
    ensures
        seqs.update(v, seqs[v].push(p)).flatten().to_multiset()
            == seqs.flatten().to_multiset().insert(p),
    decreases seqs.len(),
{
    let after = seqs.update(v, seqs[v].push(p));
    after.lemma_flatten_and_flatten_alt_are_equivalent();
    after.drop_last().lemma_flatten_and_flatten_alt_are_equivalent();
    seqs.lemma_flatten_and_flatten_alt_are_equivalent();
    seqs.drop_last().lemma_flatten_and_flatten_alt_are_equivalent();
    seqs.flatten().to_multiset_ensures();
    if v == seqs.len() - 1 {
        assert(after.drop_last() =~= seqs.drop_last());
        assert(after.flatten() =~= seqs.flatten().push(p));
    } else {
        lemma_flatten_update(seqs.drop_last(), v, p);
        assert(after.drop_last() =~= seqs.drop_last().update(v, seqs[v].push(p)));
        assert(after.last() == seqs.last());
        let front = seqs.drop_last().flatten();
        let front2 = after.drop_last().flatten();
        vstd::seq_lib::lemma_multiset_commutative(front, seqs.last());
        vstd::seq_lib::lemma_multiset_commutative(front2, seqs.last());
        assert(after.flatten().to_multiset() =~= seqs.flatten().to_multiset().insert(p));
    }
}

} // verus!

//! [`Mvt`], an immutable multilevel voxel table for point cloud collision checking.

use crate::aabb::{all_finite, are_finite, box_over, cloud, Aabb, Bounds};
use crate::axis::{gt, le, plus, times, Axis};
use crate::grid::{
    find, find_voxel, is_cell, new_root_table, point_to_grid_coords, size_grid, widths_fit,
    widths_of, TooManyVoxels,
};
use crate::index::Index;
use crate::memory::{bytes_of, saturated};
use crate::occupancy::{claim_voxel, indexes, table_len};
use crate::scan::{any_within, columns, rows, scan_block, SCAN_BLOCK};
use crate::simd::{
    lane, lanes_in_reach, lanes_plus, lanes_times, take_lane, AxisSimd, AxisSimdElement,
};
use crate::voxel_grid::VoxelGrid;
use crate::window::{
    between, lemma_first_rank, lemma_rank_bound, lemma_rank_injective, next_cell, rank, volume,
    window,
};
use vstd::layout::size_of;
use vstd::prelude::*;
use vstd::slice::slice_subrange;

verus! {

/// The errors that can occur when calling [`Mvt::try_new`] or [`Mvt::try_with_point_radius`].
///
/// This type is specific to constructing an [`Mvt`]; [`MutableMvt`](crate::MutableMvt) has its
/// own, separate error types for construction
/// ([`NewMutableMvtError`](crate::NewMutableMvtError)) and insertion
/// ([`InsertError`](crate::InsertError)).
#[non_exhaustive]
#[derive(Clone, Debug, PartialEq, Eq, Structural)]
pub enum NewMvtError {
    /// At least one of the points had a non-finite value.
    NonFinite,
    /// `voxel_width` was not a positive value, so voxels could not be sized.
    InvalidVoxelWidth,
    /// There were too many voxels or points to be represented without integer overflow.
    TooManyVoxels,
}

impl NewMvtError {
    /// The description of this error.
    pub open spec fn message(&self) -> Seq<char> {
        match self {
            NewMvtError::NonFinite => "at least one point had a non-finite value"@,
            NewMvtError::InvalidVoxelWidth => "voxel_width was not a positive, finite value"@,
            NewMvtError::TooManyVoxels => {
                "too many voxels or points for the index type to represent"@
            },
        }
    }

    /// Describe this error.
    pub fn to_string(&self) -> (s: String)
        ensures
            s@ == self.message(),
    {
        match self {
            NewMvtError::NonFinite => "at least one point had a non-finite value".to_owned(),
            NewMvtError::InvalidVoxelWidth => {
                "voxel_width was not a positive, finite value".to_owned()
            },
            NewMvtError::TooManyVoxels => {
                "too many voxels or points for the index type to represent".to_owned()
            },
        }
    }
}

impl From<TooManyVoxels> for NewMvtError {
    fn from(_e: TooManyVoxels) -> (r: Self) {
        NewMvtError::TooManyVoxels
    }
}

impl vstd::std_specs::convert::FromSpecImpl<TooManyVoxels> for NewMvtError {
    open spec fn obeys_from_spec() -> bool {
        true
    }

    open spec fn from_spec(_e: TooManyVoxels) -> Self {
        NewMvtError::TooManyVoxels
    }
}

/// The number of points in the first `v` voxels.
pub open spec fn points_before<A>(voxels: Seq<Seq<Seq<A>>>, v: int) -> nat {
    voxels.take(v).flatten().len()
}

/// Whether the index type can represent where each voxel's points start in a pool with `k`
/// coordinates for each point, and how many each voxel has.
pub open spec fn pool_fits<A, I: Index>(voxels: Seq<Seq<Seq<A>>>, k: nat) -> bool {
    &&& points_before(voxels, voxels.len() as int) * k <= usize::MAX
    &&& forall|v: int|
        #![trigger voxels[v]]
        0 <= v < voxels.len() ==> {
            &&& I::from_usize_spec((points_before(voxels, v) * k) as usize) is Some
            &&& I::from_usize_spec(voxels[v].len() as usize) is Some
        }
}

/// Why an `Mvt` cannot be constructed from `points`, if it cannot.
pub open spec fn new_error<A: Axis, I: Index>(
    points: Seq<Seq<A>>,
    voxel_width: A,
    r_point: A,
    k: nat,
) -> Option<NewMvtError> {
    let b = box_over(points);
    let grid = VoxelGrid::sized(b, voxel_width, r_point);
    if !all_finite(points) {
        Some(NewMvtError::NonFinite)
    } else if !gt(voxel_width, A::ZERO) {
        Some(NewMvtError::InvalidVoxelWidth)
    } else if points.len() == 0 {
        None
    } else if !widths_fit::<I>(widths_of(b, voxel_width)) || !grid.fits_all::<I>(points)
        || !pool_fits::<A, I>(grid.insert_all(points).voxels, k) {
        Some(NewMvtError::TooManyVoxels)
    } else {
        None
    }
}

/// What an `Mvt` constructed from `points` in `k` dimensions holds.
pub open spec fn grid_over<A: Axis>(
    points: Seq<Seq<A>>,
    voxel_width: A,
    r_point: A,
    k: nat,
) -> VoxelGrid<A> {
    if points.len() == 0 {
        VoxelGrid {
            lo: Bounds::<A>::empty(k).lo,
            scale: Seq::new(k, |i: int| A::ZERO),
            widths: Seq::new(k, |i: int| 0usize),
            r_point,
            bounds: Bounds::empty(k),
            voxels: Seq::empty(),
        }
    } else {
        VoxelGrid {
            bounds: box_over(points),
            ..VoxelGrid::sized(box_over(points), voxel_width, r_point).insert_all(points)
        }
    }
}

/// Metadata for a single occupied voxel.
#[derive(Clone, Copy, Debug)]
pub struct Voxel<A, I, const K: usize> {
    /// A local bounding box over the points contained by this voxel.
    aabb: Aabb<A, K>,
    /// The offset of this voxel's points within the point coordinate pool.
    offset: I,
    /// The number of points contained by this voxel.
    count: I,
}

/// The intermediate result of [`Mvt::build_hierarchy`].
struct VoxelAssignment<A, I, const K: usize> {
    /// The sparse table hierarchy, in the same format as [`Mvt::tables`].
    tables: Vec<I>,
    /// `point_voxel[i]` is the voxel (by first-encounter index) that `points[i]` was assigned to,
    /// for the same `points` passed to [`Mvt::build_hierarchy`].
    point_voxel: Vec<usize>,
    /// The number of points assigned to each voxel so far, indexed by first-encounter order.
    voxel_counts: Vec<usize>,
    /// The bounding box accumulated so far for each voxel, indexed by first-encounter order.
    voxel_aabbs: Vec<Aabb<A, K>>,
}

/// The result of [`Mvt::flatten_points`]: metadata for each voxel, together with the point
/// coordinate pool.
type FlattenedVoxels<A, I, const K: usize> = (Vec<Voxel<A, I, K>>, Vec<A>);

/// Where the pool holds coordinate `k` of point `i` of a voxel.
spec fn place(offset: int, count: int, k: int, i: int) -> int {
    offset + k * count + i
}

proof fn lemma_place(offset: int, count: int, dim: int, k: int, i: int)
    requires
        0 <= k < dim,
        0 <= i < count,
    ensures
        0 <= k * count,
        k * count + i < dim * count,
        offset <= place(offset, count, k, i) < offset + dim * count,
{
    assert(0 <= k * count && k * count + count <= dim * count) by (nonlinear_arith)
        requires
            0 <= k < dim,
            0 <= count,
    ;
}

proof fn lemma_places_differ(count: int, k1: int, i1: int, k2: int, i2: int)
    requires
        0 <= i1 < count,
        0 <= i2 < count,
        k1 != k2 || i1 != i2,
    ensures
        k1 * count + i1 != k2 * count + i2,
{
    assert(k1 < k2 ==> k1 * count + count <= k2 * count) by (nonlinear_arith)
        requires
            0 < count,
    ;
    assert(k2 < k1 ==> k2 * count + count <= k1 * count) by (nonlinear_arith)
        requires
            0 < count,
    ;
}

/// The voxels' parts of a pool of length `len` do not overlap.
spec fn laid_out(offsets: Seq<usize>, counts: Seq<usize>, dim: int, len: int) -> bool {
    &&& offsets.len() == counts.len()
    &&& forall|v: int|
        #![trigger offsets[v]]
        0 <= v < offsets.len() ==> offsets[v] + dim * counts[v] <= len
    &&& forall|u: int, v: int|
        #![trigger offsets[u], offsets[v]]
        0 <= u < v < offsets.len() ==> offsets[u] + dim * counts[u] <= offsets[v]
}

/// The points of a voxel with `count` points at `offset` in the pool.
spec fn pooled<A>(pool: Seq<A>, offset: int, count: int, dim: nat) -> Seq<Seq<A>> {
    Seq::new(count as nat, |i: int| Seq::new(dim, |k: int| pool[place(offset, count, k, i)]))
}

/// The pool holds the coordinates of every point of `voxels`.
spec fn stored<A>(
    pool: Seq<A>,
    voxels: Seq<Seq<Seq<A>>>,
    offsets: Seq<usize>,
    counts: Seq<usize>,
    dim: nat,
) -> bool {
    forall|u: int, j: int, d: int|
        #![trigger voxels[u][j][d]]
        0 <= u < voxels.len() && 0 <= j < voxels[u].len() && 0 <= d < dim ==> pool[place(
            offsets[u] as int,
            counts[u] as int,
            d,
            j,
        )] == voxels[u][j][d]
}

/// Later insertions only add to the voxels.
proof fn lemma_insert_all_grows<A: Axis>(start: VoxelGrid<A>, points: Seq<Seq<A>>, i: int)
    requires
        0 <= i <= points.len(),
    ensures
        start.insert_all(points.take(i)).voxels.len() <= start.insert_all(points).voxels.len(),
        forall|v: int|
            0 <= v < start.insert_all(points.take(i)).voxels.len() ==> (
            #[trigger] start.insert_all(points.take(i)).voxels[v]).len() <= start.insert_all(
                points,
            ).voxels[v].len(),
    decreases points.len(),
{
    if i == points.len() {
        assert(points.take(i) =~= points);
    } else {
        let fewer = points.drop_last();
        lemma_insert_all_grows(start, fewer, i);
        assert(fewer.take(i) =~= points.take(i));
        let g = start.insert_all(fewer);
        let h = g.insert(points.last());
        assert(forall|v: int|
            0 <= v < g.voxels.len() ==> g.voxels[v].len() <= (#[trigger] h.voxels[v]).len());
    }
}

/// Inserting points adds as many to the voxels.
proof fn lemma_insert_all_count<A: Axis>(start: VoxelGrid<A>, points: Seq<Seq<A>>)
    ensures
        start.insert_all(points).voxels.flatten().len() == start.voxels.flatten().len()
            + points.len(),
    decreases points.len(),
{
    if points.len() > 0 {
        lemma_insert_all_count(start, points.drop_last());
        let g = start.insert_all(points.drop_last());
        g.insert_adds_one_point(points.last());
        g.points().to_multiset_ensures();
        g.insert(points.last()).points().to_multiset_ensures();
    }
}

proof fn lemma_points_before<A>(voxels: Seq<Seq<Seq<A>>>, v: int)
    requires
        0 <= v < voxels.len(),
    ensures
        points_before(voxels, v + 1) == points_before(voxels, v) + voxels[v].len(),
{
    let taken = voxels.take(v + 1);
    assert(taken.drop_last() =~= voxels.take(v));
    taken.lemma_flatten_and_flatten_alt_are_equivalent();
    taken.drop_last().lemma_flatten_and_flatten_alt_are_equivalent();
}

/// The parts of the pool for voxels `u` and `v` lie in order, and end before the pool does.
proof fn lemma_parts_in_order<A>(voxels: Seq<Seq<Seq<A>>>, u: int, v: int, dim: nat)
    requires
        0 <= u < v <= voxels.len(),
    ensures
        points_before(voxels, u) * dim + dim * voxels[u].len() <= points_before(voxels, v) * dim,
    decreases v - u,
{
    let b = points_before(voxels, u);
    let n = voxels[u].len();
    lemma_points_before(voxels, u);
    assert((b + n) * dim == b * dim + dim * n) by (nonlinear_arith);
    if u + 1 < v {
        lemma_parts_in_order(voxels, u + 1, v, dim);
        assert(0 <= dim * voxels[u + 1].len()) by (nonlinear_arith);
    }
}

/// A multilevel voxel table, a structure for point cloud collision checking.
///
/// # Generic parameters
///
/// - `K`: The dimension of the space.
/// - `A`: The value of the axes of each point. This should implement [`Axis`].
/// - `I`: The index integer used internally to address voxels and points. This should generally be
///   an unsigned integer type, such as `u32` or `usize`. This should implement [`Index`].
///
/// # Citation
///
/// ```bibtex
/// @inproceedings{chen2026vcc,
///  author    = {Ching Chen and Tsung-Tai Yeh},
///  title     = {VCC: Efficient Voxel-Based Collision Checking Framework for Real-Time Robotic Motion Planning},
///  booktitle = {IEEE International Conference on Robotics and Automation (ICRA)},
///  year      = {2026},
/// }
/// ```
#[derive(Clone, Debug)]
pub struct Mvt<const K: usize, A, I = u32> {
    /// The number of voxels along each axis of the grid. Axes need not have the same number of
    /// voxels, so the workspace need not be cubic.
    grid_width: [I; K],
    /// The number of grid cells per unit length along each axis, i.e.
    /// `grid_width[k] / workspace_width[k]`.
    scale: [A; K],
    /// The radius to add to every point to account for its physical volume.
    r_point: A,
    /// A bounding box over every point in the cloud, used to quickly reject far-away queries.
    global_aabb: Aabb<A, K>,
    /// The table pool: the concatenation of the root table and every subsequently allocated
    /// table, storing offsets into this same pool for the first `K - 1` levels, and voxel
    /// indices (into `voxels`) for the last level. Empty entries are marked with
    /// [`Index::SENTINEL`].
    tables: Vec<I>,
    /// Metadata (bounding box, and location within `points`) for each occupied voxel.
    voxels: Vec<Voxel<A, I, K>>,
    /// The point coordinate pool: for each voxel (in the order they appear in `voxels`), the
    /// coordinates of its points stored in struct-of-arrays order, i.e. all the 0th coordinates,
    /// then all the 1st coordinates, and so on.
    points: Vec<A>,
}

impl<const K: usize, A: Axis, I: Index> View for Mvt<K, A, I> {
    type V = VoxelGrid<A>;

    /// What the table holds. The pool of tables is no part of it: a well-formed pool is determined
    /// by the cells of the voxels, up to where in it the tables lie.
    closed spec fn view(&self) -> VoxelGrid<A> {
        VoxelGrid {
            lo: self.global_aabb@.lo,
            scale: self.scale@,
            widths: Seq::new(K as nat, |k: int| self.grid_width@[k].to_usize_spec()),
            r_point: self.r_point,
            bounds: self.global_aabb@,
            voxels: Seq::new(
                self.voxels@.len(),
                |v: int|
                    pooled(
                        self.points@,
                        self.voxels@[v].offset.to_usize_spec() as int,
                        self.voxels@[v].count.to_usize_spec() as int,
                        K as nat,
                    ),
            ),
        }
    }
}

impl<const K: usize, A: Axis, I: Index> Mvt<K, A, I> {
    /// The tables lead to exactly the voxels, every voxel's points lie within the pool, and every
    /// voxel's box is the box over its points. Without voxels, nothing is stored at all.
    pub closed spec fn wf(&self) -> bool {
        &&& K > 0
        &&& if self.voxels@.len() == 0 {
            &&& self.tables@.len() == 0
            &&& self.points@.len() == 0
            &&& self@.widths == Seq::new(K as nat, |k: int| 0usize)
        } else {
            &&& self@.wf()
            &&& indexes(self.tables@, self@.widths, self@.cells())
            &&& self.points@.len() == self@.points().len() * K
            &&& forall|v: int|
                0 <= v < self.voxels@.len() ==> (#[trigger] self.voxels@[v]).aabb@
                    == self@.voxel_bounds(v)
            &&& forall|v: int|
                0 <= v < self.voxels@.len() ==> (
                #[trigger] self.voxels@[v]).offset.to_usize_spec() + K
                    * self.voxels@[v].count.to_usize_spec() <= self.points@.len()
        }
    }

    /// What a table with points holds is a well-formed grid.
    pub proof fn view_is_wf(&self)
        requires
            self.wf(),
        ensures
            self@.voxels.len() > 0 ==> self@.wf(),
            self@.dim() == K,
    {
    }

    /// Phase 1 of construction: build the sparse table hierarchy and, for each point, determine
    /// which voxel it belongs to, without yet copying any point data.
    ///
    /// `points.len()` is already known up front, so `point_voxel` reserves its exact
    /// final capacity immediately instead of growing point by point; this also lets phase 2
    /// ([`Self::flatten_points`]) size and write straight into one pool allocation rather than
    /// accumulating points into a separate `Vec` per voxel.
    ///
    /// Level `level` of the hierarchy is indexed by grid coordinates along axis `level`, so a
    /// table for level `level` always has `grid_width[level]` entries.
    fn build_hierarchy(
        points: &[[A; K]],
        lo: [A; K],
        scale: [A; K],
        grid_width: [usize; K],
        Ghost(start): Ghost<VoxelGrid<A>>,
    ) -> (r: Result<VoxelAssignment<A, I, K>, NewMvtError>)
        requires
            K > 0,
            start.wf(),
            start.lo == lo@,
            start.scale == scale@,
            start.widths == grid_width@,
            start.voxels.len() == 0,
        ensures
            match r {
                Ok(a) => {
                    let grid = start.insert_all(cloud(points@));
                    &&& start.fits_all::<I>(cloud(points@))
                    &&& indexes(a.tables@, grid_width@, grid.cells())
                    &&& a.point_voxel@.len() == points@.len()
                    &&& forall|i: int|
                        0 <= i < points@.len() ==> #[trigger] a.point_voxel@[i]
                            == start.insert_all(cloud(points@).take(i)).slot(points@[i]@)
                    &&& a.voxel_counts@.len() == grid.voxels.len()
                    &&& a.voxel_aabbs@.len() == grid.voxels.len()
                    &&& forall|v: int|
                        0 <= v < grid.voxels.len() ==> #[trigger] a.voxel_counts@[v]
                            == grid.voxels[v].len()
                    &&& forall|v: int|
                        0 <= v < grid.voxels.len() ==> (#[trigger] a.voxel_aabbs@[v])@
                            == grid.voxel_bounds(v)
                },
                Err(e) => {
                    &&& e == NewMvtError::TooManyVoxels
                    &&& !start.fits_all::<I>(cloud(points@))
                },
            },
    {
        let ghost all = cloud(points@);
        let mut tables: Vec<I> = new_root_table(grid_width);
        let mut point_voxel: Vec<usize> = Vec::with_capacity(points.len());
        let mut voxel_counts: Vec<usize> = Vec::new();
        let mut voxel_aabbs: Vec<Aabb<A, K>> = Vec::new();
        proof {
            assert(all.take(0) =~= Seq::<Seq<A>>::empty());
            assert(start.cells() =~= Seq::<Seq<usize>>::empty());
            assert(indexes(tables@, grid_width@, start.cells()));
        }
        let mut i: usize = 0;
        while i < points.len()
            invariant
                i <= points.len(),
                K > 0,
                all == cloud(points@),
                start.wf(),
                start.lo == lo@,
                start.scale == scale@,
                start.widths == grid_width@,
                start.insert_all(all.take(i as int)).wf(),
                start.insert_all(all.take(i as int)).lo == lo@,
                start.insert_all(all.take(i as int)).scale == scale@,
                start.insert_all(all.take(i as int)).widths == grid_width@,
                start.fits_all::<I>(all.take(i as int)),
                indexes(tables@, grid_width@, start.insert_all(all.take(i as int)).cells()),
                point_voxel@.len() == i,
                forall|j: int|
                    0 <= j < i ==> #[trigger] point_voxel@[j] == start.insert_all(
                        all.take(j),
                    ).slot(points@[j]@),
                voxel_counts@.len() == start.insert_all(all.take(i as int)).voxels.len(),
                voxel_aabbs@.len() == voxel_counts@.len(),
                forall|v: int|
                    0 <= v < voxel_counts@.len() ==> #[trigger] voxel_counts@[v]
                        == start.insert_all(all.take(i as int)).voxels[v].len(),
                forall|v: int|
                    0 <= v < voxel_counts@.len() ==> #[trigger] voxel_counts@[v] <= i,
                forall|v: int|
                    0 <= v < voxel_aabbs@.len() ==> (#[trigger] voxel_aabbs@[v])@
                        == start.insert_all(all.take(i as int)).voxel_bounds(v),
            decreases points.len() - i,
        {
            let ghost grid = start.insert_all(all.take(i as int));
            let ghost next = start.insert_all(all.take(i + 1));
            let p = &points[i];
            proof {
                assert(all.take(i + 1).drop_last() =~= all.take(i as int));
                assert(all.take(i + 1).last() == p@);
                assert(next == grid.insert(p@));
                grid.insert_preserves_wf(p@);
            }
            let coords: [usize; K] = point_to_grid_coords(p, lo, scale, grid_width);
            let count: usize = voxel_counts.len();
            assert(coords@ == grid.cell_of(p@));
            let voxel_idx: usize = match claim_voxel(
                &mut tables,
                grid_width,
                coords,
                count,
                Ghost(grid.cells()),
            ) {
                Ok(v) => v,
                Err(e) => {
                    proof {
                        if start.fits_all::<I>(all) {
                            start.prefix_fits::<I>(all, i + 1);
                        }
                    }
                    return Err(NewMvtError::from(e));
                },
            };
            proof {
                if grid.cells().contains(coords@) {
                    let s = grid.slot(p@);
                    assert(grid.cells()[s] == coords@);
                    assert(grid.cells()[voxel_idx as int] == coords@);
                    assert(s == voxel_idx);
                }
                assert(voxel_idx == grid.slot(p@));
            }
            if voxel_idx == count {
                voxel_counts.push(0);
                voxel_aabbs.push(Aabb::empty());
            }
            let ghost old_points = if voxel_idx == count {
                Seq::<Seq<A>>::empty()
            } else {
                grid.voxels[voxel_idx as int]
            };
            proof {
                if voxel_idx != count {
                    assert(voxel_aabbs@[voxel_idx as int]@ == grid.voxel_bounds(voxel_idx as int));
                }
                assert(voxel_aabbs@[voxel_idx as int]@ == Bounds::<A>::empty(K as nat).extend_all(
                    old_points,
                ));
            }
            voxel_counts[voxel_idx] = voxel_counts[voxel_idx] + 1;
            voxel_aabbs[voxel_idx].insert(p);
            point_voxel.push(voxel_idx);
            proof {
                assert(next.voxels[voxel_idx as int] =~= old_points.push(p@));
                assert(next.voxels[voxel_idx as int].drop_last() =~= old_points);
                assert forall|v: int| 0 <= v < voxel_aabbs@.len() implies (
                #[trigger] voxel_aabbs@[v])@ == next.voxel_bounds(v) by {
                    if v != voxel_idx {
                        assert(voxel_aabbs@[v]@ == grid.voxel_bounds(v));
                        assert(next.voxels[v] == grid.voxels[v]);
                    } else {
                        assert(voxel_aabbs@[v]@ == Bounds::<A>::empty(K as nat).extend_all(
                            old_points,
                        ).extend(p@));
                        assert(next.voxels[v].last() == p@);
                    }
                }
            }
            i += 1;
        }
        assert(all.take(i as int) =~= all);
        Ok(VoxelAssignment { tables, point_voxel, voxel_counts, voxel_aabbs })
    }

    /// Phase 2 of construction: using the per-point voxel assignment and per-voxel counts from
    /// [`Self::build_hierarchy`], allocate the exactly-sized struct-of-arrays pool up front and
    /// scatter each point directly into it.
    fn flatten_points(
        points: &[[A; K]],
        assignment: &VoxelAssignment<A, I, K>,
        Ghost(start): Ghost<VoxelGrid<A>>,
    ) -> (r: Result<FlattenedVoxels<A, I, K>, NewMvtError>)
        requires
            K > 0,
            start.wf(),
            start.dim() == K,
            start.voxels.len() == 0,
            ({
                let grid = start.insert_all(cloud(points@));
                let a = assignment;
                &&& a.point_voxel@.len() == points@.len()
                &&& forall|i: int|
                    0 <= i < points@.len() ==> #[trigger] a.point_voxel@[i] == start.insert_all(
                        cloud(points@).take(i),
                    ).slot(points@[i]@)
                &&& a.voxel_counts@.len() == grid.voxels.len()
                &&& a.voxel_aabbs@.len() == grid.voxels.len()
                &&& forall|v: int|
                    0 <= v < grid.voxels.len() ==> #[trigger] a.voxel_counts@[v]
                        == grid.voxels[v].len()
                &&& forall|v: int|
                    0 <= v < grid.voxels.len() ==> (#[trigger] a.voxel_aabbs@[v])@
                        == grid.voxel_bounds(v)
            }),
        ensures
            match r {
                Ok((voxels, pool)) => {
                    let grid = start.insert_all(cloud(points@));
                    &&& pool_fits::<A, I>(grid.voxels, K as nat)
                    &&& voxels@.len() == grid.voxels.len()
                    &&& pool@.len() == grid.points().len() * K
                    &&& forall|v: int|
                        #![trigger voxels@[v]]
                        0 <= v < voxels@.len() ==> {
                            let offset = voxels@[v].offset.to_usize_spec();
                            let count = voxels@[v].count.to_usize_spec();
                            &&& voxels@[v].aabb@ == grid.voxel_bounds(v)
                            &&& offset + K * count <= pool@.len()
                            &&& pooled(pool@, offset as int, count as int, K as nat)
                                == grid.voxels[v]
                        }
                },
                Err(e) => {
                    &&& e == NewMvtError::TooManyVoxels
                    &&& !pool_fits::<A, I>(
                        start.insert_all(cloud(points@)).voxels,
                        K as nat,
                    )
                },
            },
    {
        let ghost all = cloud(points@);
        let ghost grid = start.insert_all(all);
        let voxel_counts: &Vec<usize> = &assignment.voxel_counts;
        let n_voxels: usize = voxel_counts.len();
        let mut offsets: Vec<usize> = Vec::with_capacity(n_voxels);
        let mut offset: usize = 0;
        let mut v: usize = 0;
        proof {
            assert(grid.voxels.take(0) =~= Seq::<Seq<Seq<A>>>::empty());
            assert(0 * K == 0) by (nonlinear_arith);
        }
        while v < n_voxels
            invariant
                v <= n_voxels,
                n_voxels == voxel_counts@.len(),
                n_voxels == grid.voxels.len(),
                grid == start.insert_all(cloud(points@)),
                forall|u: int|
                    0 <= u < n_voxels ==> #[trigger] voxel_counts@[u] == grid.voxels[u].len(),
                offset == points_before(grid.voxels, v as int) * K,
                offsets@.len() == v,
                forall|u: int|
                    0 <= u < v ==> #[trigger] offsets@[u] == points_before(grid.voxels, u) * K,
            decreases n_voxels - v,
        {
            offsets.push(offset);
            let count: usize = voxel_counts[v];
            proof {
                lemma_points_before(grid.voxels, v as int);
                let b = points_before(grid.voxels, v as int);
                assert((b + count) * K == b * K + count * K) by (nonlinear_arith);
                lemma_parts_in_order(grid.voxels, v as int, n_voxels as int, K as nat);
                assert(K * count == count * K) by (nonlinear_arith);
            }
            let size: usize = match count.checked_mul(K) {
                Some(size) => size,
                None => {
                    return Err(NewMvtError::TooManyVoxels);
                },
            };
            offset = match offset.checked_add(size) {
                Some(end) => end,
                None => {
                    return Err(NewMvtError::TooManyVoxels);
                },
            };
            v += 1;
        }
        let len: usize = offset;
        let mut pool: Vec<A> = vec![A::ZERO; len];
        proof {
            assert(grid.voxels.take(n_voxels as int) =~= grid.voxels);
            assert forall|v: int|
                #![trigger offsets@[v]]
                0 <= v < offsets@.len() implies offsets@[v] + K * voxel_counts@[v] <= len by {
                lemma_parts_in_order(grid.voxels, v, n_voxels as int, K as nat);
            }
            assert forall|u: int, v: int|
                #![trigger offsets@[u], offsets@[v]]
                0 <= u < v < offsets@.len() implies offsets@[u] + K * voxel_counts@[u]
                <= offsets@[v] by {
                lemma_parts_in_order(grid.voxels, u, v, K as nat);
            }
            assert(laid_out(offsets@, voxel_counts@, K as int, len as int));
        }
        // scatter each point straight into its voxel's slice of the pool; `cursors` tracks how
        // many of each voxel's points have been written so far.
        let mut cursors: Vec<usize> = vec![0usize; n_voxels];
        let mut i: usize = 0;
        assert(all.take(0) =~= Seq::<Seq<A>>::empty());
        while i < points.len()
            invariant
                i <= points.len(),
                K > 0,
                all == cloud(points@),
                grid == start.insert_all(all),
                start.wf(),
                start.dim() == K,
                voxel_counts@ == assignment.voxel_counts@,
                n_voxels == voxel_counts@.len(),
                n_voxels == grid.voxels.len(),
                forall|u: int|
                    0 <= u < n_voxels ==> #[trigger] voxel_counts@[u] == grid.voxels[u].len(),
                assignment.point_voxel@.len() == points@.len(),
                forall|i: int|
                    0 <= i < points@.len() ==> #[trigger] assignment.point_voxel@[i]
                        == start.insert_all(all.take(i)).slot(points@[i]@),
                offsets@.len() == n_voxels,
                laid_out(offsets@, voxel_counts@, K as int, len as int),
                pool@.len() == len,
                cursors@.len() == n_voxels,
                start.insert_all(all.take(i as int)).wf(),
                start.insert_all(all.take(i as int)).dim() == K,
                start.insert_all(all.take(i as int)).voxels.len() <= n_voxels,
                forall|u: int|
                    0 <= u < n_voxels ==> #[trigger] cursors@[u] == if u < start.insert_all(
                        all.take(i as int),
                    ).voxels.len() {
                        start.insert_all(all.take(i as int)).voxels[u].len()
                    } else {
                        0
                    },
                stored(
                    pool@,
                    start.insert_all(all.take(i as int)).voxels,
                    offsets@,
                    voxel_counts@,
                    K as nat,
                ),
            decreases points.len() - i,
        {
            let ghost before = start.insert_all(all.take(i as int));
            let ghost after = start.insert_all(all.take(i + 1));
            let p = &points[i];
            let voxel_idx: usize = assignment.point_voxel[i];
            proof {
                assert(all.take(i + 1).drop_last() =~= all.take(i as int));
                assert(all.take(i + 1).last() == p@);
                assert(after == before.insert(p@));
                before.insert_preserves_wf(p@);
                lemma_insert_all_grows(start, all, i + 1);
                lemma_insert_all_grows(start, all, i as int);
                assert(voxel_idx == before.slot(p@));
                if before.cells().contains(before.cell_of(p@)) {
                    assert(before.cells()[before.slot(p@)] == before.cell_of(p@));
                }
                assert(voxel_idx < after.voxels.len());
                assert(after.voxels[voxel_idx as int].len() <= voxel_counts@[voxel_idx as int]);
            }
            let base: usize = offsets[voxel_idx];
            let count: usize = voxel_counts[voxel_idx];
            let cursor: usize = cursors[voxel_idx];
            assert(cursor < count);
            let mut k: usize = 0;
            while k < K
                invariant
                    k <= K,
                    cursor < count,
                    voxel_idx < n_voxels,
                    base == offsets@[voxel_idx as int],
                    count == voxel_counts@[voxel_idx as int],
                    before.voxels.len() <= n_voxels,
                    before.wf(),
                    before.dim() == K,
                    forall|u: int|
                        0 <= u < before.voxels.len() ==> (#[trigger] before.voxels[u]).len()
                            <= voxel_counts@[u],
                    voxel_idx < before.voxels.len() ==> cursor
                        == before.voxels[voxel_idx as int].len(),
                    offsets@.len() == n_voxels,
                    laid_out(offsets@, voxel_counts@, K as int, len as int),
                    pool@.len() == len,
                    stored(pool@, before.voxels, offsets@, voxel_counts@, K as nat),
                    forall|j: int|
                        0 <= j < k ==> pool@[place(base as int, count as int, j, cursor as int)]
                            == #[trigger] p@[j],
                decreases K - k,
            {
                proof {
                    assert(offsets@[voxel_idx as int] + K * voxel_counts@[voxel_idx as int] <= len);
                    lemma_place(base as int, count as int, K as int, k as int, cursor as int);
                    assert(k * count <= len);
                }
                let at: usize = base + k * count + cursor;
                let ghost earlier = pool@;
                pool[at] = p[k];
                proof {
                    assert(at == place(base as int, count as int, k as int, cursor as int));
                    assert forall|u: int, j: int, d: int|
                        #![trigger before.voxels[u][j][d]]
                        0 <= u < before.voxels.len() && 0 <= j < before.voxels[u].len() && 0 <= d
                            < K implies pool@[place(
                        offsets@[u] as int,
                        voxel_counts@[u] as int,
                        d,
                        j,
                    )] == before.voxels[u][j][d] by {
                        let c = voxel_counts@[u] as int;
                        assert(before.voxels[u].len() <= c);
                        lemma_place(offsets@[u] as int, c, K as int, d, j);
                        assert(offsets@[u] + K * c <= len);
                        if u == voxel_idx {
                            lemma_places_differ(c, d, j, k as int, cursor as int);
                        } else if u < voxel_idx {
                            assert(offsets@[u] + K * voxel_counts@[u]
                                <= offsets@[voxel_idx as int]);
                        } else {
                            assert(offsets@[voxel_idx as int] + K * voxel_counts@[voxel_idx as int]
                                <= offsets@[u]);
                        }
                        assert(place(offsets@[u] as int, c, d, j) != at);
                        assert(earlier[place(offsets@[u] as int, c, d, j)]
                            == before.voxels[u][j][d]);
                    }
                    assert forall|j: int| 0 <= j < k + 1 implies pool@[place(
                        base as int,
                        count as int,
                        j,
                        cursor as int,
                    )] == #[trigger] p@[j] by {
                        if j < k {
                            lemma_place(base as int, count as int, K as int, j, cursor as int);
                            lemma_places_differ(
                                count as int,
                                j,
                                cursor as int,
                                k as int,
                                cursor as int,
                            );
                        }
                    }
                }
                k += 1;
            }
            cursors[voxel_idx] = cursor + 1;
            proof {
                assert forall|u: int, j: int, d: int|
                    #![trigger after.voxels[u][j][d]]
                    0 <= u < after.voxels.len() && 0 <= j < after.voxels[u].len() && 0 <= d
                        < K implies pool@[place(
                    offsets@[u] as int,
                    voxel_counts@[u] as int,
                    d,
                    j,
                )] == after.voxels[u][j][d] by {
                    if u == voxel_idx && j == cursor {
                        assert(after.voxels[u][j] == p@);
                        assert(p@[d] == p@[d]);
                    } else {
                        assert(after.voxels[u][j] == before.voxels[u][j]);
                        assert(before.voxels[u][j][d] == before.voxels[u][j][d]);
                    }
                }
            }
            i += 1;
        }
        assert(all.take(i as int) =~= all);
        let mut voxels: Vec<Voxel<A, I, K>> = Vec::with_capacity(n_voxels);
        let mut v: usize = 0;
        while v < n_voxels
            invariant
                v <= n_voxels,
                K > 0,
                grid == start.insert_all(cloud(points@)),
                grid.wf(),
                grid.dim() == K,
                voxel_counts@ == assignment.voxel_counts@,
                n_voxels == voxel_counts@.len(),
                n_voxels == grid.voxels.len(),
                forall|u: int|
                    0 <= u < n_voxels ==> #[trigger] voxel_counts@[u] == grid.voxels[u].len(),
                assignment.voxel_aabbs@.len() == n_voxels,
                forall|u: int|
                    0 <= u < n_voxels ==> (#[trigger] assignment.voxel_aabbs@[u])@
                        == grid.voxel_bounds(u),
                offsets@.len() == n_voxels,
                forall|u: int|
                    0 <= u < n_voxels ==> #[trigger] offsets@[u] == points_before(grid.voxels, u)
                        * K,
                laid_out(offsets@, voxel_counts@, K as int, len as int),
                pool@.len() == len,
                stored(pool@, grid.voxels, offsets@, voxel_counts@, K as nat),
                voxels@.len() == v,
                forall|u: int|
                    #![trigger voxels@[u]]
                    0 <= u < v ==> {
                        &&& voxels@[u].aabb@ == grid.voxel_bounds(u)
                        &&& voxels@[u].offset.to_usize_spec() == offsets@[u]
                        &&& voxels@[u].count.to_usize_spec() == voxel_counts@[u]
                    },
                forall|u: int|
                    #![trigger grid.voxels[u]]
                    0 <= u < v ==> {
                        &&& I::from_usize_spec(
                            (points_before(grid.voxels, u) * K) as usize,
                        ) is Some
                        &&& I::from_usize_spec(grid.voxels[u].len() as usize) is Some
                    },
            decreases n_voxels - v,
        {
            proof {
                I::index_laws();
                assert(voxel_counts@[v as int] == grid.voxels[v as int].len());
            }
            let offset: I = match I::from_usize(offsets[v]) {
                Some(offset) => offset,
                None => {
                    return Err(NewMvtError::TooManyVoxels);
                },
            };
            let count: I = match I::from_usize(voxel_counts[v]) {
                Some(count) => count,
                None => {
                    return Err(NewMvtError::TooManyVoxels);
                },
            };
            voxels.push(Voxel { aabb: assignment.voxel_aabbs[v], offset, count });
            v += 1;
        }
        proof {
            assert(grid.voxels.take(n_voxels as int) =~= grid.voxels);
            assert forall|v: int|
                #![trigger voxels@[v]]
                0 <= v < voxels@.len() implies {
                let offset = voxels@[v].offset.to_usize_spec();
                let count = voxels@[v].count.to_usize_spec();
                &&& voxels@[v].aabb@ == grid.voxel_bounds(v)
                &&& offset + K * count <= pool@.len()
                &&& pooled(pool@, offset as int, count as int, K as nat) == grid.voxels[v]
            } by {
                let offset = offsets@[v] as int;
                let count = voxel_counts@[v] as int;
                let points = pooled(pool@, offset, count, K as nat);
                assert forall|i: int| 0 <= i < points.len() implies points[i]
                    == grid.voxels[v][i] by {
                    assert(grid.voxels[v][i].len() == grid.dim());
                    assert forall|k: int| 0 <= k < K implies points[i][k]
                        == grid.voxels[v][i][k] by {
                        assert(grid.voxels[v][i][k] == grid.voxels[v][i][k]);
                    }
                    assert(points[i] =~= grid.voxels[v][i]);
                }
                assert(points =~= grid.voxels[v]);
            }
        }
        Ok((voxels, pool))
    }

    /// Construct a new MVT containing all the points in `points`, with a point radius `r_point`
    /// added to every query, checking for invalid input.
    ///
    /// # Errors
    ///
    /// See [`NewMvtError`] for the circumstances in which this function returns an error.
    pub fn try_with_point_radius(points: &[[A; K]], voxel_width: A, r_point: A) -> (r: Result<
        Self,
        NewMvtError,
    >)
        requires
            K > 0,
        ensures
            match r {
                Ok(t) => {
                    &&& new_error::<A, I>(cloud(points@), voxel_width, r_point, K as nat) is None
                    &&& t.wf()
                    &&& t@ == grid_over(cloud(points@), voxel_width, r_point, K as nat)
                },
                Err(e) => new_error::<A, I>(cloud(points@), voxel_width, r_point, K as nat) == Some(
                    e,
                ),
            },
    {
        let ghost all = cloud(points@);
        proof {
            A::total_operators();
            I::index_laws();
        }
        if !are_finite(points) {
            return Err(NewMvtError::NonFinite);
        }
        if !(voxel_width > A::ZERO) {
            return Err(NewMvtError::InvalidVoxelWidth);
        }
        let global_aabb = match Aabb::bounding_box(points) {
            Some(b) => b,
            None => {
                // no points: return an empty MVT that never collides.
                let t: Self = Mvt {
                    grid_width: [I::ZERO; K],
                    scale: [A::ZERO; K],
                    r_point,
                    global_aabb: Aabb::empty(),
                    tables: Vec::new(),
                    voxels: Vec::new(),
                    points: Vec::new(),
                };
                proof {
                    let expected = grid_over(all, voxel_width, r_point, K as nat);
                    assert(t@.scale =~= expected.scale);
                    assert(t@.widths =~= expected.widths);
                    assert(t@.voxels =~= expected.voxels);
                }
                return Ok(t);
            },
        };
        let (grid_width, grid_width_i, scale) = match size_grid::<A, I, K>(
            &global_aabb,
            voxel_width,
        ) {
            Ok(sizing) => sizing,
            Err(e) => {
                return Err(NewMvtError::from(e));
            },
        };
        let ghost start = VoxelGrid::sized(box_over(all), voxel_width, r_point);
        proof {
            assert(global_aabb@ == box_over(all));
            assert(start.wf());
            start.insert_all_preserves_wf(all);
        }
        let assignment = match Self::build_hierarchy(
            points,
            global_aabb.lo,
            scale,
            grid_width,
            Ghost(start),
        ) {
            Ok(assignment) => assignment,
            Err(e) => {
                return Err(e);
            },
        };
        let (voxels, pool) = match Self::flatten_points(points, &assignment, Ghost(start)) {
            Ok(flattened) => flattened,
            Err(e) => {
                return Err(e);
            },
        };
        let t = Mvt {
            grid_width: grid_width_i,
            scale,
            r_point,
            global_aabb,
            tables: assignment.tables,
            voxels,
            points: pool,
        };
        proof {
            let built = start.insert_all(all);
            let expected = grid_over(all, voxel_width, r_point, K as nat);
            assert forall|k: int| 0 <= k < K implies grid_width_i@[k].to_usize_spec()
                == grid_width@[k] by {
                assert(I::from_usize_spec(grid_width@[k]) == Some(grid_width_i@[k]));
            }
            assert(t@.widths =~= expected.widths);
            assert(t@.voxels =~= expected.voxels);
            assert(t@ == expected);
            assert(t@.cells() =~= built.cells());
            lemma_insert_all_count(start, all);
            assert(built.voxels.len() > 0) by {
                if built.voxels.len() == 0 {
                    assert(built.voxels.flatten().len() == 0);
                }
            }
            assert forall|v: int| 0 <= v < t.voxels@.len() implies (#[trigger] t.voxels@[v]).aabb@
                == t@.voxel_bounds(v) by {
                assert(t@.voxels[v] == built.voxels[v]);
            }
            assert forall|u: int, v: int|
                #![trigger t@.cells()[u], t@.cells()[v]]
                0 <= u < t@.voxels.len() && 0 <= v < t@.voxels.len() && t@.cells()[u]
                    == t@.cells()[v] implies u == v by {
                assert(built.cells()[u] == built.cells()[v]);
            }
            assert(t@.wf());
        }
        Ok(t)
    }

    /// Construct a new MVT containing all the points in `points`, checking for invalid input.
    ///
    /// # Errors
    ///
    /// See [`NewMvtError`] for the circumstances in which this function returns an error.
    pub fn try_new(points: &[[A; K]], voxel_width: A) -> (r: Result<Self, NewMvtError>)
        requires
            K > 0,
        ensures
            match r {
                Ok(t) => {
                    &&& new_error::<A, I>(cloud(points@), voxel_width, A::ZERO, K as nat) is None
                    &&& t.wf()
                    &&& t@ == grid_over(cloud(points@), voxel_width, A::ZERO, K as nat)
                },
                Err(e) => new_error::<A, I>(cloud(points@), voxel_width, A::ZERO, K as nat) == Some(
                    e,
                ),
            },
    {
        Self::try_with_point_radius(points, voxel_width, A::ZERO)
    }

    /// Construct a new MVT containing all the points in `points`.
    ///
    /// `voxel_width` sizes the grid's voxels.
    /// Good values should be found by benchmarking your own workload, though for point cloud data
    /// the best sizes tend to be around 10 to 20 cm.
    ///
    /// # Panics
    ///
    /// This function will panic if any point contains a non-finite value, or if `voxel_width` is
    /// not a positive value.
    pub fn new(points: &[[A; K]], voxel_width: A) -> (t: Self)
        requires
            K > 0,
            new_error::<A, I>(cloud(points@), voxel_width, A::ZERO, K as nat) is None,
        ensures
            t.wf(),
            t@ == grid_over(cloud(points@), voxel_width, A::ZERO, K as nat),
    {
        Self::try_new(points, voxel_width).expect(
            "failed to construct Mvt; see NewMvtError variants",
        )
    }

    /// Construct a new MVT containing all the points in `points`, with a point radius `r_point`
    /// added to every query.
    ///
    /// # Panics
    ///
    /// This function will panic if any point contains a non-finite value, or if `voxel_width` is
    /// not a positive value.
    pub fn with_point_radius(points: &[[A; K]], voxel_width: A, r_point: A) -> (t: Self)
        requires
            K > 0,
            new_error::<A, I>(cloud(points@), voxel_width, r_point, K as nat) is None,
        ensures
            t.wf(),
            t@ == grid_over(cloud(points@), voxel_width, r_point, K as nat),
    {
        Self::try_with_point_radius(points, voxel_width, r_point).expect(
            "failed to construct Mvt; see NewMvtError variants",
        )
    }

    /// Get the number of voxels along each axis of the grid.
    pub fn grid_width(&self) -> (r: [usize; K])
        ensures
            r@ == self@.widths,
    {
        let mut r = [0usize; K];
        let mut k: usize = 0;
        while k < K
            invariant
                k <= K,
                forall|i: int| 0 <= i < k ==> #[trigger] r@[i] == self@.widths[i],
            decreases K - k,
        {
            r[k] = self.grid_width[k].to_usize();
            k += 1;
        }
        assert(r@ =~= self@.widths);
        r
    }

    /// Look up the voxel containing grid coordinates `coords`, if it is occupied.
    fn lookup_voxel(&self, coords: &[usize; K]) -> (r: Option<usize>)
        requires
            self.wf(),
            self.voxels@.len() > 0,
            is_cell(self@.widths, coords@),
        ensures
            match r {
                Some(v) => v < self.voxels@.len() && self@.cells()[v as int] == coords@,
                None => !self@.cells().contains(coords@),
            },
    {
        let r: Option<usize> = find_voxel(&self.tables, Ghost(self@.widths), coords);
        proof {
            let cells = self@.cells();
            if cells.contains(coords@) {
                let j = choose|j: int| 0 <= j < cells.len() && cells[j] == coords@;
                assert(find(self.tables@, cells[j]) == Some(j as usize));
            }
        }
        r
    }

    /// Determine whether any point of voxel `v` lies within a squared distance of `rsq` from
    /// `center`, checking `BLOCK` points at a time.
    fn scan_voxel<const BLOCK: usize>(&self, v: usize, center: &[A; K], rsq: A) -> (r: bool)
        requires
            self.wf(),
            v < self.voxels@.len(),
            BLOCK > 0,
        ensures
            r == any_within(self@.voxels[v as int], center@, rsq),
    {
        let base: usize = self.voxels[v].offset.to_usize();
        let count: usize = self.voxels[v].count.to_usize();
        let pool: &[A] = self.points.as_slice();
        assert(base + K * count <= pool@.len());
        assert(count <= K * count) by (nonlinear_arith)
            requires
                K > 0,
        ;
        assert(pool@.len() == pool.len());
        let mut axes: [&[A]; K] = [slice_subrange(pool, base, base + count); K];
        let mut k: usize = 0;
        while k < K
            invariant
                k <= K,
                pool@.len() <= usize::MAX,
                base + K * count <= pool@.len(),
                forall|i: int|
                    0 <= i < k ==> (#[trigger] axes@[i])@ == pool@.subrange(
                        base + i * count,
                        base + i * count + count,
                    ),
                forall|i: int| k <= i < K ==> (#[trigger] axes@[i])@.len() == count,
            decreases K - k,
        {
            assert(k * count + count <= K * count && 0 <= k * count) by (nonlinear_arith)
                requires
                    0 <= k < K,
                    0 <= count,
            ;
            let from: usize = base + k * count;
            axes[k] = slice_subrange(pool, from, from + count);
            k += 1;
        }
        proof {
            assert forall|i: int| 0 <= i < K implies (#[trigger] axes@[i])@.len() == count by {
                assert(i * count + count <= K * count && 0 <= i * count) by (nonlinear_arith)
                    requires
                        0 <= i < K,
                        0 <= count,
                ;
            }
            assert(axes@[0]@.len() == count);
            let scanned = rows(columns(axes));
            let points = self@.voxels[v as int];
            assert forall|i: int| 0 <= i < count implies scanned[i] == points[i] by {
                assert forall|k: int| 0 <= k < K implies scanned[i][k] == points[i][k] by {
                    lemma_place(base as int, count as int, K as int, k, i);
                    assert(axes@[k]@.len() == count);
                    lemma_place(base as int, count as int, K as int, k, count - 1);
                    assert(scanned[i][k] == axes@[k]@[i]);
                    assert(scanned[i][k] == pool@[place(base as int, count as int, k, i)]);
                }
                assert(scanned[i] =~= points[i]);
            }
            assert(scanned =~= points);
        }
        scan_block::<A, K, BLOCK>(&axes, center, rsq)
    }

    /// Search the block of voxels that could contain a point within `r` (already including
    /// `r_point`) of `center`, scanning each voxel whose local AABB could contain such a point,
    /// `BLOCK` points at a time.
    fn search_block<const BLOCK: usize>(&self, center: &[A; K], r: A) -> (found: bool)
        requires
            self.wf(),
            self.voxels@.len() > 0,
            BLOCK > 0,
        ensures
            found == self@.finds(center@, r),
    {
        let rsq = r.square();
        let grid_width: [usize; K] = self.grid_width();
        let (first, last) = window(center, r, &self.global_aabb.lo, &self.scale, &grid_width);
        let ghost grid = self@;
        let mut coords: [usize; K] = first;
        proof {
            assert(first@ =~= grid.window_first(center@, r));
            assert(last@ =~= grid.window_last(center@, r));
            lemma_first_rank(first@, last@, K as nat);
            assert(between(first@, last@, coords@));
            lemma_rank_bound(first@, last@, coords@, K as nat);
        }
        loop
            invariant
                self.wf(),
                self.voxels@.len() > 0,
                BLOCK > 0,
                grid == self@,
                grid_width@ == grid.widths,
                rsq == r.square_spec(),
                first@ == grid.window_first(center@, r),
                last@ == grid.window_last(center@, r),
                between(first@, last@, coords@),
                rank(first@, last@, coords@, K as nat) < volume(first@, last@, K as nat),
                forall|v: int|
                    0 <= v < grid.voxels.len() && #[trigger] grid.finds_in(v, center@, r) ==> rank(
                        first@,
                        last@,
                        grid.cells()[v],
                        K as nat,
                    ) >= rank(first@, last@, coords@, K as nat),
            decreases
                    volume(first@, last@, K as nat) - rank(first@, last@, coords@, K as nat),
        {
            proof {
                A::total_operators();
                assert forall|k: int| 0 <= k < K implies #[trigger] coords@[k] < grid.widths[k] by {
                    assert(grid.widths[k] >= 1);
                    assert(first@[k] <= coords@[k] <= last@[k]);
                }
                assert(is_cell(grid.widths, coords@));
            }
            let ghost here = coords@;
            if let Some(v) = self.lookup_voxel(&coords) {
                if self.voxels[v].aabb.closest_distsq_to(center) <= rsq && self.scan_voxel::<
                    BLOCK,
                >(v, center, rsq) {
                    assert(grid.finds_in(v as int, center@, r));
                    return true;
                }
            }
            proof {
                assert forall|v: int|
                    0 <= v < grid.voxels.len() && #[trigger] grid.finds_in(
                        v,
                        center@,
                        r,
                    ) implies rank(first@, last@, grid.cells()[v], K as nat) > rank(
                    first@,
                    last@,
                    here,
                    K as nat,
                ) by {
                    let cell = grid.cells()[v];
                    if rank(first@, last@, cell, K as nat) == rank(first@, last@, here, K as nat) {
                        lemma_rank_injective(first@, last@, cell, here, K as nat);
                        assert(cell =~= here);
                        assert(grid.cells().contains(here));
                    }
                }
            }
            if !next_cell(&mut coords, &first, &last) {
                proof {
                    assert forall|v: int| 0 <= v < grid.voxels.len() implies !#[trigger]
                    grid.finds_in(v, center@, r) by {
                        if grid.finds_in(v, center@, r) {
                            lemma_rank_bound(first@, last@, grid.cells()[v], K as nat);
                        }
                    }
                }
                return false;
            }
        }
    }

    /// Determine whether any point in this tree is within a distance of `radius` to `center`.
    #[must_use]
    pub fn collides(&self, center: &[A; K], radius: A) -> (r: bool)
        requires
            self.wf(),
        ensures
            r == self@.hit(center@, radius),
    {
        if self.voxels.len() == 0 {
            return false;
        }
        proof {
            A::total_operators();
        }
        let r = radius + self.r_point;
        let rsq = r.square();
        if self.global_aabb.closest_distsq_to(center) > rsq {
            return false;
        }
        self.search_block::<SCAN_BLOCK>(center, r)
    }

    /// The point with index `i` in voxel `v`.
    fn point(&self, v: usize, i: usize) -> (p: [A; K])
        requires
            self.wf(),
            v < self.voxels@.len(),
            i < self@.voxels[v as int].len(),
        ensures
            p@ == self@.voxels[v as int][i as int],
    {
        let base: usize = self.voxels[v].offset.to_usize();
        let count: usize = self.voxels[v].count.to_usize();
        let mut p = [A::ZERO; K];
        let mut k: usize = 0;
        assert(base + K * count <= self.points@.len());
        assert(self.points@.len() == self.points.len());
        while k < K
            invariant
                k <= K,
                i < count,
                self.points@.len() <= usize::MAX,
                base + K * count <= self.points@.len(),
                forall|j: int|
                    0 <= j < k ==> #[trigger] p@[j] == self.points@[place(
                        base as int,
                        count as int,
                        j,
                        i as int,
                    )],
            decreases K - k,
        {
            proof {
                lemma_place(base as int, count as int, K as int, k as int, i as int);
            }
            p[k] = self.points[base + k * count + i];
            k += 1;
        }
        assert(p@ =~= self@.voxels[v as int][i as int]);
        p
    }

    /// Get the points stored in this `Mvt`.
    /// It makes no guarantee of iteration order beyond that of its view: voxel by voxel.
    pub fn points(&self) -> (r: Vec<[A; K]>)
        requires
            self.wf(),
        ensures
            cloud(r@) == self@.points(),
    {
        let ghost grid = self@;
        let mut out: Vec<[A; K]> = Vec::new();
        let mut v: usize = 0;
        assert(grid.voxels.take(0) =~= Seq::<Seq<Seq<A>>>::empty());
        while v < self.voxels.len()
            invariant
                v <= self.voxels.len(),
                self.wf(),
                grid == self@,
                cloud(out@) =~= grid.voxels.take(v as int).flatten(),
            decreases self.voxels.len() - v,
        {
            let ghost before = cloud(out@);
            let ghost voxel = grid.voxels[v as int];
            let count: usize = self.voxels[v].count.to_usize();
            let mut i: usize = 0;
            while i < count
                invariant
                    i <= count,
                    self.wf(),
                    v < self.voxels@.len(),
                    voxel == self@.voxels[v as int],
                    count == voxel.len(),
                    cloud(out@) =~= before + voxel.take(i as int),
                decreases count - i,
            {
                let p: [A; K] = self.point(v, i);
                let ghost earlier = out@;
                out.push(p);
                proof {
                    assert(cloud(out@) =~= cloud(earlier).push(p@));
                    assert(voxel.take(i + 1) =~= voxel.take(i as int).push(p@));
                }
                i += 1;
            }
            proof {
                assert(voxel.take(count as int) =~= voxel);
                let taken = grid.voxels.take(v + 1);
                assert(taken.drop_last() =~= grid.voxels.take(v as int));
                taken.lemma_flatten_and_flatten_alt_are_equivalent();
                taken.drop_last().lemma_flatten_and_flatten_alt_are_equivalent();
            }
            v += 1;
        }
        assert(grid.voxels.take(v as int) =~= grid.voxels);
        out
    }

    /// Get the total memory used (stack + heap) by this structure, measured in bytes, or
    /// `usize::MAX` if that is larger.
    /// This function should not be considered stable; it is only used internally for benchmarks.
    #[must_use]
    pub fn memory_used(&self) -> (r: usize)
        requires
            self.wf(),
        ensures
            r == saturated(
                size_of::<Self>() + table_len(self@.widths, self@.cells()) * size_of::<I>()
                    + self@.voxels.len() * size_of::<Voxel<A, I, K>>() + self@.points().len() * K
                    * size_of::<A>(),
            ),
    {
        proof {
            assert(self.tables@.len() == table_len(self@.widths, self@.cells()));
            assert(self.points@.len() == self@.points().len() * K) by {
                assert(0 * K == 0) by (nonlinear_arith);
            }
        }
        let tables: usize = bytes_of::<I>(self.tables.len());
        let voxels: usize = bytes_of::<Voxel<A, I, K>>(self.voxels.len());
        let points: usize = bytes_of::<A>(self.points.len());
        core::mem::size_of::<Self>().saturating_add(tables).saturating_add(voxels).saturating_add(
            points,
        )
    }
}

impl<const K: usize, A: AxisSimdElement, I: Index> Mvt<K, A, I> {
    /// Determine whether any sphere in a SIMD batch of `L` spheres intersects a point in this
    /// table.
    #[must_use]
    pub fn collides_simd<const L: usize>(&self, centers: &[[A; L]; K], radii: [A; L]) -> (r: bool)
        requires
            self.wf(),
            L > 0,
        ensures
            r == exists|l: int|
                0 <= l < L && self@.lane_hit(#[trigger] lane(*centers, l), radii@[l]),
            // Some sphere collides on its own, unless its distance to the bounding box compares
            // with nothing.
            r == exists|l: int|
                0 <= l < L && self@.hit(#[trigger] lane(*centers, l), radii@[l]) && self@.compares(
                    lane(*centers, l),
                    radii@[l],
                ),
    {
        if self.voxels.len() == 0 {
            return false;
        }
        let r: [A; L] = lanes_plus(&radii, &[self.r_point; L]);
        let rsq: [A; L] = lanes_times(&r, &r);
        let inbounds: [bool; L] = lanes_in_reach(&self.global_aabb, centers, &rsq);
        proof {
            A::square_is_product();
            assert forall|l: int| 0 <= l < L implies #[trigger] inbounds@[l] == le(
                self@.bounds.closest_distsq(lane(*centers, l), K as nat),
                plus(radii@[l], self@.r_point).square_spec(),
            ) by {
                assert(r@[l] == plus(radii@[l], self@.r_point));
                assert(rsq@[l] == times(r@[l], r@[l]));
            }
        }
        if !<[A; L]>::mask_any(inbounds) {
            proof {
                assert forall|l: int| 0 <= l < L implies !self@.lane_hit(
                    #[trigger] lane(*centers, l),
                    radii@[l],
                ) by {
                    assert(!inbounds@[l]);
                }
            }
            return false;
        }
        let mut l: usize = 0;
        while l < L
            invariant
                l <= L,
                L > 0,
                self.wf(),
                self.voxels@.len() > 0,
                forall|i: int| 0 <= i < L ==> #[trigger] r@[i] == plus(radii@[i], self@.r_point),
                forall|i: int|
                    0 <= i < L ==> #[trigger] inbounds@[i] == le(
                        self@.bounds.closest_distsq(lane(*centers, i), K as nat),
                        plus(radii@[i], self@.r_point).square_spec(),
                    ),
                forall|i: int|
                    0 <= i < l ==> !self@.lane_hit(#[trigger] lane(*centers, i), radii@[i]),
            decreases L - l,
        {
            assert(r@[l as int] == plus(radii@[l as int], self@.r_point));
            // a lane that is not in bounds was already ruled out by the batched cull above
            if inbounds[l] {
                let center: [A; K] = take_lane(centers, l);
                if self.search_block::<L>(&center, r[l]) {
                    assert(self@.lane_hit(lane(*centers, l as int), radii@[l as int]));
                    return true;
                }
            }
            l += 1;
        }
        false
    }
}


} // verus!

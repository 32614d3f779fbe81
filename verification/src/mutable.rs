//! [`MutableMvt`], a variant of [`Mvt`](crate::Mvt) that supports inserting new points after
//! construction, at the cost of performance.

use crate::aabb::{all_finite, are_finite, box_over, cloud, finite, is_finite, Aabb, Bounds};
use crate::axis::{gt, le, plus, times, Axis};
use crate::grid::{
    cell_of, find, find_voxel, is_cell, new_root_table, point_to_grid_coords, size_grid, widths_fit,
    widths_of, TooManyVoxels,
};
use crate::index::Index;
use crate::memory::{
    bytes_of, bytes_of_all, bytes_of_lists, capacity_of, lists, saturated, sum_of, sum_of_lists,
};
use crate::occupancy::{claim_voxel, indexes, table_len};
use crate::scan::{any_within, columns, rows, scan_block, SCAN_BLOCK};
use crate::simd::{
    lane, lanes_in_reach, lanes_plus, lanes_times, take_lane, AxisSimd, AxisSimdElement,
};
use crate::voxel_grid::VoxelGrid;
use crate::window::{
    between, lemma_first_rank, lemma_rank_bound, lemma_rank_injective, next_cell, rank, volume,
    window,
};
use vstd::layout::size_of;
use vstd::prelude::*;

verus! {

/// The errors that can occur when calling [`MutableMvt::try_new`],
/// [`MutableMvt::try_with_point_radius`], or [`MutableMvt::try_with_workspace`].
#[non_exhaustive]
#[derive(Clone, Debug, PartialEq, Eq, Structural)]
pub enum NewMutableMvtError {
    /// At least one of the points had a non-finite value.
    NonFinite,
    /// `voxel_width` was not a positive value, so voxels could not be sized.
    InvalidVoxelWidth,
    /// There were too many voxels or points to be represented without integer overflow.
    TooManyVoxels,
    /// [`MutableMvt::try_with_workspace`] was called with `lo[k] > hi[k]` for some axis `k`, so
    /// no valid workspace box exists.
    InvalidWorkspace,
    /// [`MutableMvt::try_new`] or [`MutableMvt::try_with_point_radius`] was called with an empty
    /// point cloud, which has no bounding box to size the grid from. Use
    /// [`MutableMvt::try_with_workspace`] instead to construct an empty `MutableMvt` with
    /// explicit workspace bounds.
    EmptyPointCloud,
}

impl NewMutableMvtError {
    /// The description of this error.
    pub open spec fn message(&self) -> Seq<char> {
        match self {
            NewMutableMvtError::NonFinite => "at least one point had a non-finite value"@,
            NewMutableMvtError::InvalidVoxelWidth => {
                "voxel_width was not a positive, finite value"@
            },
            NewMutableMvtError::TooManyVoxels => {
                "too many voxels or points for the index type to represent"@
            },
            NewMutableMvtError::InvalidWorkspace => {
                "lo[k] > hi[k] for some axis k, so no valid workspace box exists"@
            },
            NewMutableMvtError::EmptyPointCloud => {
                "the point cloud was empty, so no workspace bounds could be inferred from it"@
            },
        }
    }

    /// Describe this error.
    pub fn to_string(&self) -> (s: String)
        ensures
            s@ == self.message(),
    {
        match self {
            NewMutableMvtError::NonFinite => "at least one point had a non-finite value".to_owned(),
            NewMutableMvtError::InvalidVoxelWidth => {
                "voxel_width was not a positive, finite value".to_owned()
            },
            NewMutableMvtError::TooManyVoxels => {
                "too many voxels or points for the index type to represent".to_owned()
            },
            NewMutableMvtError::InvalidWorkspace => {
                "lo[k] > hi[k] for some axis k, so no valid workspace box exists".to_owned()
            },
            NewMutableMvtError::EmptyPointCloud => {
                "the point cloud was empty, so no workspace bounds could be inferred from it".to_owned()
            },
        }
    }
}

impl From<TooManyVoxels> for NewMutableMvtError {
    fn from(_e: TooManyVoxels) -> (r: Self) {
        NewMutableMvtError::TooManyVoxels
    }
}

impl vstd::std_specs::convert::FromSpecImpl<TooManyVoxels> for NewMutableMvtError {
    open spec fn obeys_from_spec() -> bool {
        true
    }

    open spec fn from_spec(_e: TooManyVoxels) -> Self {
        NewMutableMvtError::TooManyVoxels
    }
}

/// The errors that can occur when calling [`MutableMvt::insert`] or
/// [`MutableMvt::insert_points`].
#[non_exhaustive]
#[derive(Clone, Debug, PartialEq, Eq, Structural)]
pub enum InsertError {
    /// At least one of the points had a non-finite value.
    NonFinite,
    /// There were too many voxels or points to be represented without integer overflow.
    TooManyVoxels,
}

impl InsertError {
    /// The description of this error.
    pub open spec fn message(&self) -> Seq<char> {
        match self {
            InsertError::NonFinite => "the point had a non-finite value"@,
            InsertError::TooManyVoxels => {
                "too many voxels or points for the index type to represent"@
            },
        }
    }

    /// Describe this error.
    pub fn to_string(&self) -> (s: String)
        ensures
            s@ == self.message(),
    {
        match self {
            InsertError::NonFinite => "the point had a non-finite value".to_owned(),
            InsertError::TooManyVoxels => {
                "too many voxels or points for the index type to represent".to_owned()
            },
        }
    }
}

impl From<TooManyVoxels> for InsertError {
    fn from(_e: TooManyVoxels) -> (r: Self) {
        InsertError::TooManyVoxels
    }
}

impl vstd::std_specs::convert::FromSpecImpl<TooManyVoxels> for InsertError {
    open spec fn obeys_from_spec() -> bool {
        true
    }

    open spec fn from_spec(_e: TooManyVoxels) -> Self {
        InsertError::TooManyVoxels
    }
}

/// Why a `MutableMvt` cannot be constructed over the box from `lo` to `hi`, if it cannot.
pub open spec fn workspace_error<A: Axis, I: Index>(
    b: Bounds<A>,
    voxel_width: A,
) -> Option<NewMutableMvtError> {
    if !finite(b.lo) || !finite(b.hi) {
        Some(NewMutableMvtError::NonFinite)
    } else if exists|k: int| 0 <= k < b.lo.len() && gt(#[trigger] b.lo[k], b.hi[k]) {
        Some(NewMutableMvtError::InvalidWorkspace)
    } else if !gt(voxel_width, A::ZERO) {
        Some(NewMutableMvtError::InvalidVoxelWidth)
    } else if !widths_fit::<I>(widths_of(b, voxel_width)) {
        Some(NewMutableMvtError::TooManyVoxels)
    } else {
        None
    }
}

/// Why a `MutableMvt` cannot be constructed from `points`, if it cannot.
pub open spec fn cloud_error<A: Axis, I: Index>(
    points: Seq<Seq<A>>,
    voxel_width: A,
    r_point: A,
) -> Option<NewMutableMvtError> {
    if !all_finite(points) {
        Some(NewMutableMvtError::NonFinite)
    } else if !gt(voxel_width, A::ZERO) {
        Some(NewMutableMvtError::InvalidVoxelWidth)
    } else if points.len() == 0 {
        Some(NewMutableMvtError::EmptyPointCloud)
    } else if workspace_error::<A, I>(box_over(points), voxel_width) is Some {
        workspace_error::<A, I>(box_over(points), voxel_width)
    } else if !VoxelGrid::sized(box_over(points), voxel_width, r_point).fits_all::<I>(points) {
        Some(NewMutableMvtError::TooManyVoxels)
    } else {
        None
    }
}

/// Why the point `p` cannot be inserted into `grid`, if it cannot.
pub open spec fn insert_error<A: Axis, I: Index>(grid: VoxelGrid<A>, p: Seq<A>) -> Option<
    InsertError,
> {
    if !finite(p) {
        Some(InsertError::NonFinite)
    } else if !grid.fits::<I>(p) {
        Some(InsertError::TooManyVoxels)
    } else {
        None
    }
}

/// Per-voxel storage for [`MutableMvt`].
#[derive(Clone, Debug)]
pub struct MutableVoxel<A, const K: usize> {
    /// A local bounding box over the points contained by this voxel.
    aabb: Aabb<A, K>,
    /// This voxel's points, in struct-of-arrays order: `axes[k]` holds the `k`-th coordinate of
    /// every point in the voxel, in insertion order. Every `axes[k]` always has the same length.
    axes: Vec<Vec<A>>,
}

impl<A: Axis, const K: usize> MutableVoxel<A, K> {
    closed spec fn columns(&self) -> Seq<Seq<A>> {
        Seq::new(self.axes@.len(), |k: int| self.axes@[k]@)
    }

    /// The points of this voxel, in insertion order.
    closed spec fn points(&self) -> Seq<Seq<A>> {
        rows(self.columns())
    }

    closed spec fn wf(&self) -> bool {
        &&& K > 0
        &&& self.axes@.len() == K
        &&& forall|k: int| 0 <= k < K ==> (#[trigger] self.axes@[k])@.len() == self.axes@[0]@.len()
        &&& self.aabb@ == Bounds::<A>::empty(K as nat).extend_all(self.points())
    }

    /// A voxel containing no points.
    fn empty() -> (r: Self)
        requires
            K > 0,
        ensures
            r.wf(),
            r.points() == Seq::<Seq<A>>::empty(),
    {
        let mut axes: Vec<Vec<A>> = Vec::with_capacity(K);
        let mut k: usize = 0;
        while k < K
            invariant
                k <= K,
                axes@.len() == k,
                forall|i: int| 0 <= i < k ==> (#[trigger] axes@[i])@.len() == 0,
            decreases K - k,
        {
            axes.push(Vec::new());
            k += 1;
        }
        let r = MutableVoxel { aabb: Aabb::empty(), axes };
        assert(r.points() =~= Seq::<Seq<A>>::empty());
        r
    }

    /// The number of points currently stored in this voxel.
    fn count(&self) -> (n: usize)
        requires
            self.wf(),
        ensures
            n == self.points().len(),
    {
        self.axes[0].len()
    }

    /// The point with index `i` in this voxel.
    fn point(&self, i: usize) -> (p: [A; K])
        requires
            self.wf(),
            i < self.points().len(),
        ensures
            p@ == self.points()[i as int],
    {
        let mut p = [A::ZERO; K];
        let mut k: usize = 0;
        while k < K
            invariant
                k <= K,
                self.wf(),
                i < self.points().len(),
                forall|j: int| 0 <= j < k ==> #[trigger] p@[j] == self.points()[i as int][j],
            decreases K - k,
        {
            assert(self.axes@[k as int]@.len() == self.axes@[0]@.len());
            p[k] = self.axes[k][i];
            k += 1;
        }
        assert(p@ =~= self.points()[i as int]);
        p
    }

    /// Add a point to this voxel.
    fn push(&mut self, p: &[A; K])
        requires
            old(self).wf(),
        ensures
            final(self).wf(),
            final(self).points() == old(self).points().push(p@),
    {
        let ghost before = self.axes@;
        let ghost n = self.axes@[0]@.len();
        self.aabb.insert(p);
        let mut k: usize = 0;
        while k < K
            invariant
                k <= K,
                K > 0,
                before.len() == K,
                self.axes@.len() == K,
                forall|i: int| 0 <= i < K ==> (#[trigger] before[i])@.len() == n,
                forall|i: int|
                    0 <= i < K ==> (#[trigger] self.axes@[i])@ == if i < k {
                        before[i]@.push(p@[i])
                    } else {
                        before[i]@
                    },
                self.aabb@ == old(self).aabb@.extend(p@),
            decreases K - k,
        {
            self.axes[k].push(p[k]);
            k += 1;
        }
        proof {
            let after = self.points();
            let expected = old(self).points().push(p@);
            assert(after.len() == expected.len());
            assert forall|i: int| 0 <= i < after.len() implies after[i] == expected[i] by {
                assert(after[i] =~= expected[i]);
            }
            assert(after =~= expected);
            assert(expected.drop_last() =~= old(self).points());
        }
    }

    /// Determine whether any point of this voxel lies within a squared distance of `rsq` from
    /// `center`, checking `BLOCK` points at a time.
    fn scan<const BLOCK: usize>(&self, center: &[A; K], rsq: A) -> (r: bool)
        requires
            self.wf(),
            BLOCK > 0,
        ensures
            r == any_within(self.points(), center@, rsq),
    {
        let mut axes: [&[A]; K] = [self.axes[0].as_slice(); K];
        let mut k: usize = 0;
        while k < K
            invariant
                k <= K,
                self.wf(),
                forall|i: int| 0 <= i < k ==> (#[trigger] axes@[i])@ == self.axes@[i]@,
                forall|i: int| k <= i < K ==> (#[trigger] axes@[i])@ == self.axes@[0]@,
            decreases K - k,
        {
            axes[k] = self.axes[k].as_slice();
            k += 1;
        }
        assert(columns(axes) =~= self.columns());
        scan_block::<A, K, BLOCK>(&axes, center, rsq)
    }
}

/// A variant of [`Mvt`](crate::Mvt) that supports inserting new points after construction.
///
/// # Performance
///
/// [`Mvt`](crate::Mvt) gets its memory density from flattening every voxel's points into one
/// immutable, exactly-sized, contiguous struct-of-arrays pool at construction. That layout can't
/// support inserting a point into an arbitrary voxel without shifting every later voxel's data,
/// so `MutableMvt` instead gives every voxel its own independently growable per-axis `Vec<A>`s.
///
/// # Workspace bounds
///
/// Like [`Mvt`](crate::Mvt), a `MutableMvt`'s grid is sized once, at construction, and that
/// sizing is then fixed for the rest of the structure's life. [`Self::new`] and
/// [`Self::with_point_radius`] size the grid from the given point cloud, so they require it to
/// be non-empty. [`Self::with_workspace`] instead lets you set the bounds explicitly, so it can
/// construct an empty `MutableMvt`. Either way, a `MutableMvt` always has established workspace
/// bounds, so [`Self::insert`] and [`Self::insert_points`] can never fail for lack of them. Points
/// inserted later that fall outside the original workspace are not rejected, but the process for
/// handling them activates slower paths that reduce query performance.
#[derive(Clone, Debug)]
pub struct MutableMvt<const K: usize, A, I = u32> {
    /// The number of voxels along each axis of the grid, fixed at construction.
    grid_width: [I; K],
    /// The number of grid cells per unit length along each axis.
    scale: [A; K],
    /// The frozen coordinate-transform origin used to map points into grid coordinates, fixed at
    /// construction. Distinct from `global_aabb`, which keeps growing as points are inserted:
    /// `grid_lo` must stay fixed for previously-inserted points' grid coordinates to remain valid.
    grid_lo: [A; K],
    /// The radius to add to every point to account for its physical volume.
    r_point: A,
    /// A bounding box over every point inserted so far, used to quickly reject far-away queries.
    /// Unlike `grid_lo`/`scale`, this grows to include every inserted point.
    global_aabb: Aabb<A, K>,
    /// The sparse table hierarchy, in the same format as [`Mvt`](crate::Mvt)'s, but growable.
    tables: Vec<I>,
    /// Metadata and owned point storage for each occupied voxel.
    voxels: Vec<MutableVoxel<A, K>>,
}

impl<const K: usize, A: Axis, I: Index> View for MutableMvt<K, A, I> {
    type V = VoxelGrid<A>;

    /// What the table holds. The pool of tables is no part of it: a well-formed pool is determined
    /// by the cells of the voxels, up to where in it the tables lie.
    closed spec fn view(&self) -> VoxelGrid<A> {
        VoxelGrid {
            lo: self.grid_lo@,
            scale: self.scale@,
            widths: Seq::new(K as nat, |k: int| self.grid_width@[k].to_usize_spec()),
            r_point: self.r_point,
            bounds: self.global_aabb@,
            voxels: Seq::new(self.voxels@.len(), |v: int| self.voxels@[v].points()),
        }
    }
}

impl<const K: usize, A: Axis, I: Index> MutableMvt<K, A, I> {
    /// The tables lead to exactly the voxels, and every voxel's box is the box over its points.
    pub closed spec fn wf(&self) -> bool {
        &&& K > 0
        &&& self@.wf()
        &&& indexes(self.tables@, self@.widths, self@.cells())
        &&& forall|v: int| 0 <= v < self.voxels@.len() ==> (#[trigger] self.voxels@[v]).wf()
    }

    /// What a table holds is a well-formed grid.
    pub proof fn view_is_wf(&self)
        requires
            self.wf(),
        ensures
            self@.wf(),
            self@.dim() == K,
    {
    }

    /// Get the number of voxels along each axis of the grid.
    pub fn grid_width(&self) -> (r: [usize; K])
        ensures
            r@ == self@.widths,
    {
        let mut r = [0usize; K];
        let mut k: usize = 0;
        while k < K
            invariant
                k <= K,
                forall|i: int| 0 <= i < k ==> #[trigger] r@[i] == self@.widths[i],
            decreases K - k,
        {
            r[k] = self.grid_width[k].to_usize();
            k += 1;
        }
        assert(r@ =~= self@.widths);
        r
    }

    /// Construct a new, empty `MutableMvt` whose workspace bounds are set directly to the
    /// axis-aligned box from `lo` to `hi`, checking for invalid input.
    ///
    /// # Errors
    ///
    /// See [`NewMutableMvtError`] for the circumstances in which this function returns an error.
    pub fn try_with_workspace(lo: [A; K], hi: [A; K], voxel_width: A, r_point: A) -> (r: Result<
        Self,
        NewMutableMvtError,
    >)
        requires
            K > 0,
        ensures
            match r {
                Ok(t) => {
                    let b = Bounds { lo: lo@, hi: hi@ };
                    &&& workspace_error::<A, I>(b, voxel_width) is None
                    &&& t.wf()
                    &&& t@ == VoxelGrid::sized(b, voxel_width, r_point)
                },
                Err(e) => workspace_error::<A, I>((Bounds { lo: lo@, hi: hi@ }), voxel_width)
                    == Some(e),
            },
    {
        proof {
            A::total_operators();
            I::index_laws();
        }
        if !is_finite(&lo) || !is_finite(&hi) {
            return Err(NewMutableMvtError::NonFinite);
        }
        let mut k: usize = 0;
        while k < K
            invariant
                k <= K,
                finite(lo@),
                finite(hi@),
                forall|i: int| 0 <= i < k ==> !gt(#[trigger] lo@[i], hi@[i]),
            decreases K - k,
        {
            proof {
                A::total_operators();
            }
            if lo[k] > hi[k] {
                assert(gt(lo@[k as int], hi@[k as int]));
                return Err(NewMutableMvtError::InvalidWorkspace);
            }
            k += 1;
        }
        if !(voxel_width > A::ZERO) {
            return Err(NewMutableMvtError::InvalidVoxelWidth);
        }
        let bounding_box = Aabb { lo, hi };
        match size_grid::<A, I, K>(&bounding_box, voxel_width) {
            Err(e) => Err(NewMutableMvtError::from(e)),
            Ok((grid_width, grid_width_i, scale)) => {
                let t = MutableMvt {
                    grid_width: grid_width_i,
                    scale,
                    grid_lo: lo,
                    r_point,
                    global_aabb: Aabb::empty(),
                    tables: new_root_table(grid_width),
                    voxels: Vec::new(),
                };
                proof {
                    let b = Bounds { lo: lo@, hi: hi@ };
                    let expected = VoxelGrid::sized(b, voxel_width, r_point);
                    assert(bounding_box@ == b);
                    assert forall|k: int| 0 <= k < K implies grid_width_i@[k].to_usize_spec()
                        == grid_width@[k] by {
                        assert(I::from_usize_spec(grid_width@[k]) == Some(grid_width_i@[k]));
                    }
                    assert(t@.widths =~= expected.widths);
                    assert(t@.voxels =~= expected.voxels);
                    assert(t@ == expected);
                    assert(t@.cells() =~= Seq::<Seq<usize>>::empty());
                    assert(indexes(t.tables@, t@.widths, t@.cells()));
                }
                Ok(t)
            },
        }
    }

    /// Insert `point` into this `MutableMvt`'s grid; `point` must already be known finite.
    fn insert_initialized(&mut self, point: &[A; K]) -> (r: Result<(), TooManyVoxels>)
        requires
            old(self).wf(),
        ensures
            final(self).wf(),
            r is Ok <==> old(self)@.fits::<I>(point@),
            r is Ok ==> final(self)@ == old(self)@.insert(point@),
            r is Err ==> final(self)@ == old(self)@,
    {
        let ghost grid = self@;
        let ghost cells = grid.cells();
        let grid_width: [usize; K] = self.grid_width();
        let coords: [usize; K] = point_to_grid_coords(point, self.grid_lo, self.scale, grid_width);
        let count: usize = self.voxels.len();
        let voxel_idx: usize = match claim_voxel(
            &mut self.tables,
            grid_width,
            coords,
            count,
            Ghost(cells),
        ) {
            Ok(v) => v,
            Err(e) => {
                assert(self@ == grid);
                return Err(e);
            },
        };
        proof {
            grid.insert_preserves_wf(point@);
            assert(coords@ == grid.cell_of(point@));
            if cells.contains(coords@) {
                let s = grid.slot(point@);
                assert(cells[s] == coords@ && cells[voxel_idx as int] == coords@);
                assert(s == voxel_idx);
            }
        }
        if voxel_idx == count {
            self.voxels.push(MutableVoxel::empty());
        }
        self.voxels[voxel_idx].push(point);
        self.global_aabb.insert(point);
        proof {
            let expected = grid.insert(point@);
            assert(self@.voxels =~= expected.voxels) by {
                assert forall|v: int| 0 <= v < expected.voxels.len() implies self@.voxels[v]
                    == expected.voxels[v] by {
                    if v == voxel_idx && voxel_idx == count {
                        assert(expected.voxels[v] =~= Seq::<Seq<A>>::empty().push(point@));
                    }
                }
            }
            assert(self@.widths == grid.widths);
            assert(self@ == expected);
        }
        Ok(())
    }

    /// Insert a single new point into this `MutableMvt`.
    ///
    /// # Errors
    ///
    /// Returns [`InsertError::NonFinite`] if `point` contains a non-finite value, or
    /// [`InsertError::TooManyVoxels`] if inserting `point` would need more voxels or points than
    /// the index type `I` can represent. The `MutableMvt` is then unchanged.
    pub fn insert(&mut self, point: &[A; K]) -> (r: Result<(), InsertError>)
        requires
            old(self).wf(),
        ensures
            final(self).wf(),
            match r {
                Ok(()) => {
                    &&& insert_error::<A, I>(old(self)@, point@) is None
                    &&& final(self)@ == old(self)@.insert(point@)
                },
                Err(e) => {
                    &&& insert_error::<A, I>(old(self)@, point@) == Some(e)
                    &&& final(self)@ == old(self)@
                },
            },
    {
        if !is_finite(point) {
            return Err(InsertError::NonFinite);
        }
        match self.insert_initialized(point) {
            Ok(()) => Ok(()),
            Err(e) => Err(InsertError::from(e)),
        }
    }

    /// Insert every point in `points` into this `MutableMvt`.
    ///
    /// Equivalent to calling [`Self::insert`] once per point, in order. If an error occurs partway
    /// through, every point before the failing one has already been inserted (this method is not
    /// transactional).
    ///
    /// # Errors
    ///
    /// See [`Self::insert`].
    pub fn insert_points(&mut self, points: &[[A; K]]) -> (r: Result<(), InsertError>)
        requires
            old(self).wf(),
        ensures
            final(self).wf(),
            match r {
                Ok(()) => {
                    &&& all_finite(cloud(points@))
                    &&& old(self)@.fits_all::<I>(cloud(points@))
                    &&& final(self)@ == old(self)@.insert_all(cloud(points@))
                },
                Err(e) => exists|n: int|
                    0 <= n < points@.len() && #[trigger] stops_at::<A, I>(
                        old(self)@,
                        cloud(points@),
                        n,
                        e,
                    ) && final(self)@ == old(self)@.insert_all(cloud(points@).take(n)),
            },
    {
        let ghost all = cloud(points@);
        let mut i: usize = 0;
        assert(all.take(0) =~= Seq::<Seq<A>>::empty());
        while i < points.len()
            invariant
                i <= points.len(),
                all == cloud(points@),
                self.wf(),
                all_finite(all.take(i as int)),
                old(self)@.fits_all::<I>(all.take(i as int)),
                self@ == old(self)@.insert_all(all.take(i as int)),
            decreases points.len() - i,
        {
            proof {
                assert(all.take(i + 1).drop_last() =~= all.take(i as int));
                assert(all.take(i + 1).last() == points@[i as int]@);
            }
            match self.insert(&points[i]) {
                Ok(()) => {
                    assert forall|j: int| 0 <= j < all.take(i + 1).len() implies finite(
                        #[trigger] all.take(i + 1)[j],
                    ) by {
                        if j < i {
                            assert(all.take(i + 1)[j] == all.take(i as int)[j]);
                        }
                    }
                },
                Err(e) => {
                    assert(stops_at::<A, I>(old(self)@, all, i as int, e));
                    return Err(e);
                },
            }
            i += 1;
        }
        assert(all.take(i as int) =~= all);
        Ok(())
    }

    /// Construct a new `MutableMvt` containing all the points in `points`, with a point radius
    /// `r_point` added to every query, checking for invalid input.
    ///
    /// # Errors
    ///
    /// See [`NewMutableMvtError`] for the circumstances in which this function returns an error.
    pub fn try_with_point_radius(points: &[[A; K]], voxel_width: A, r_point: A) -> (r: Result<
        Self,
        NewMutableMvtError,
    >)
        requires
            K > 0,
        ensures
            match r {
                Ok(t) => {
                    &&& cloud_error::<A, I>(cloud(points@), voxel_width, r_point) is None
                    &&& t.wf()
                    &&& t@ == VoxelGrid::sized(
                        box_over(cloud(points@)),
                        voxel_width,
                        r_point,
                    ).insert_all(cloud(points@))
                },
                Err(e) => cloud_error::<A, I>(cloud(points@), voxel_width, r_point) == Some(e),
            },
    {
        proof {
            A::total_operators();
        }
        if !are_finite(points) {
            return Err(NewMutableMvtError::NonFinite);
        }
        if !(voxel_width > A::ZERO) {
            return Err(NewMutableMvtError::InvalidVoxelWidth);
        }
        // an empty point cloud has no bounding box to size the grid from; construct with
        // `Self::with_workspace` instead if an empty `MutableMvt` is wanted.
        let bounding_box = match Aabb::bounding_box(points) {
            Some(b) => b,
            None => {
                return Err(NewMutableMvtError::EmptyPointCloud);
            },
        };
        let ghost all = cloud(points@);
        assert(bounding_box@ == (Bounds { lo: bounding_box.lo@, hi: bounding_box.hi@ }));
        let mut t = match Self::try_with_workspace(
            bounding_box.lo,
            bounding_box.hi,
            voxel_width,
            r_point,
        ) {
            Ok(t) => t,
            Err(e) => {
                return Err(e);
            },
        };
        let ghost start = t@;
        let mut i: usize = 0;
        assert(all.take(0) =~= Seq::<Seq<A>>::empty());
        while i < points.len()
            invariant
                i <= points.len(),
                all == cloud(points@),
                all_finite(all),
                gt(voxel_width, A::ZERO),
                start == VoxelGrid::sized(box_over(all), voxel_width, r_point),
                workspace_error::<A, I>(box_over(all), voxel_width) is None,
                t.wf(),
                start.fits_all::<I>(all.take(i as int)),
                t@ == start.insert_all(all.take(i as int)),
            decreases points.len() - i,
        {
            proof {
                assert(all.take(i + 1).drop_last() =~= all.take(i as int));
                assert(all.take(i + 1).last() == points@[i as int]@);
            }
            match t.insert_initialized(&points[i]) {
                Ok(()) => {},
                Err(e) => {
                    proof {
                        if start.fits_all::<I>(all) {
                            start.prefix_fits::<I>(all, i + 1);
                        }
                    }
                    return Err(NewMutableMvtError::from(e));
                },
            }
            i += 1;
        }
        assert(all.take(i as int) =~= all);
        Ok(t)
    }

    /// Construct a new `MutableMvt` containing all the points in `points`, checking for invalid
    /// input.
    ///
    /// # Errors
    ///
    /// See [`NewMutableMvtError`] for the circumstances in which this function returns an error.
    pub fn try_new(points: &[[A; K]], voxel_width: A) -> (r: Result<Self, NewMutableMvtError>)
        requires
            K > 0,
        ensures
            match r {
                Ok(t) => {
                    &&& cloud_error::<A, I>(cloud(points@), voxel_width, A::ZERO) is None
                    &&& t.wf()
                    &&& t@ == VoxelGrid::sized(
                        box_over(cloud(points@)),
                        voxel_width,
                        A::ZERO,
                    ).insert_all(cloud(points@))
                },
                Err(e) => cloud_error::<A, I>(cloud(points@), voxel_width, A::ZERO) == Some(e),
            },
    {
        Self::try_with_point_radius(points, voxel_width, A::ZERO)
    }

    /// Construct a new `MutableMvt` containing all the points in `points`.
    ///
    /// `voxel_width` sizes the grid's voxels.
    /// Good values for `voxel_width` are best found by benchmarking your own workload.
    ///
    /// # Panics
    ///
    /// This function will panic if `points` is empty, if any point contains a non-finite value,
    /// or if `voxel_width` is not a positive value. To construct an empty `MutableMvt`, use
    /// [`Self::with_workspace`] instead.
    #[must_use]
    pub fn new(points: &[[A; K]], voxel_width: A) -> (t: Self)
        requires
            K > 0,
            cloud_error::<A, I>(cloud(points@), voxel_width, A::ZERO) is None,
        ensures
            t.wf(),
            t@ == VoxelGrid::sized(box_over(cloud(points@)), voxel_width, A::ZERO).insert_all(
                cloud(points@),
            ),
    {
        Self::try_new(points, voxel_width).expect(
            "failed to construct MutableMvt; see NewMutableMvtError variants",
        )
    }

    /// Construct a new `MutableMvt` containing all the points in `points`, with a point radius
    /// `r_point` added to every query.
    ///
    /// # Panics
    ///
    /// This function will panic if `points` is empty, if any point contains a non-finite value,
    /// or if `voxel_width` is not a positive value. To construct an empty `MutableMvt`, use
    /// [`Self::with_workspace`] instead.
    #[must_use]
    pub fn with_point_radius(points: &[[A; K]], voxel_width: A, r_point: A) -> (t: Self)
        requires
            K > 0,
            cloud_error::<A, I>(cloud(points@), voxel_width, r_point) is None,
        ensures
            t.wf(),
            t@ == VoxelGrid::sized(box_over(cloud(points@)), voxel_width, r_point).insert_all(
                cloud(points@),
            ),
    {
        Self::try_with_point_radius(points, voxel_width, r_point).expect(
            "failed to construct MutableMvt; see NewMutableMvtError variants",
        )
    }

    /// Construct a new, empty `MutableMvt` whose workspace bounds are set directly to the
    /// axis-aligned box from `lo` to `hi`, rather than being inferred from a point cloud, with a
    /// point radius `r_point` added to every query.
    ///
    /// `voxel_width` sizes the grid's voxels, exactly as in [`Self::with_point_radius`].
    ///
    /// # Panics
    ///
    /// This function will panic if any component of `lo` or `hi` is non-finite, if `lo[k] >
    /// hi[k]` for any axis `k`, or if `voxel_width` is not a positive value.
    #[must_use]
    pub fn with_workspace(lo: [A; K], hi: [A; K], voxel_width: A, r_point: A) -> (t: Self)
        requires
            K > 0,
            workspace_error::<A, I>((Bounds { lo: lo@, hi: hi@ }), voxel_width) is None,
        ensures
            t.wf(),
            t@ == VoxelGrid::sized((Bounds { lo: lo@, hi: hi@ }), voxel_width, r_point),
    {
        Self::try_with_workspace(lo, hi, voxel_width, r_point).expect(
            "failed to construct MutableMvt; see NewMutableMvtError variants",
        )
    }

    /// The radius that is added to every query.
    pub(crate) fn point_radius(&self) -> (r: A)
        ensures
            r == self@.r_point,
    {
        self.r_point
    }

    /// The bounding box over every point.
    pub(crate) fn bounding_box(&self) -> (r: Aabb<A, K>)
        ensures
            r@ == self@.bounds,
    {
        self.global_aabb
    }

    /// The window of grid cells around a sphere with center `center` and radius `r`.
    pub(crate) fn window_around(&self, center: &[A; K], r: A) -> (w: ([usize; K], [usize; K]))
        requires
            self.wf(),
        ensures
            w.0@ == self@.window_first(center@, r),
            w.1@ == self@.window_last(center@, r),
    {
        let grid_width: [usize; K] = self.grid_width();
        let w = window(center, r, &self.grid_lo, &self.scale, &grid_width);
        assert(w.0@ =~= self@.window_first(center@, r));
        assert(w.1@ =~= self@.window_last(center@, r));
        w
    }

    /// The cells of a window are cells of the grid.
    pub(crate) proof fn lemma_window_cell(
        &self,
        first: Seq<usize>,
        last: Seq<usize>,
        cell: Seq<usize>,
        c: Seq<A>,
        r: A,
    )
        requires
            self.wf(),
            first == self@.window_first(c, r),
            last == self@.window_last(c, r),
            between(first, last, cell),
        ensures
            is_cell(self@.widths, cell),
    {
        assert forall|k: int| 0 <= k < cell.len() implies #[trigger] cell[k] < self@.widths[k] by {
            assert(self@.widths[k] >= 1);
            assert(first[k] <= cell[k] <= last[k]);
        }
    }

    /// The box and the points of a voxel.
    pub(crate) fn voxel(&self, v: usize) -> (r: (Aabb<A, K>, Vec<[A; K]>))
        requires
            self.wf(),
            v < self@.voxels.len(),
        ensures
            r.0@ == self@.voxel_bounds(v as int),
            cloud(r.1@) == self@.voxels[v as int],
    {
        let voxel = &self.voxels[v];
        let count: usize = voxel.count();
        let mut points: Vec<[A; K]> = Vec::with_capacity(count);
        let mut i: usize = 0;
        while i < count
            invariant
                i <= count,
                voxel.wf(),
                count == voxel.points().len(),
                cloud(points@) =~= voxel.points().take(i as int),
            decreases count - i,
        {
            let p: [A; K] = voxel.point(i);
            let ghost earlier = points@;
            points.push(p);
            proof {
                assert(cloud(points@) =~= cloud(earlier).push(p@));
                assert(voxel.points().take(i + 1) =~= voxel.points().take(i as int).push(p@));
            }
            i += 1;
        }
        assert(voxel.points().take(count as int) =~= voxel.points());
        (voxel.aabb, points)
    }

    /// Look up the voxel containing grid coordinates `coords`, if it is occupied.
    pub(crate) fn lookup_voxel(&self, coords: &[usize; K]) -> (r: Option<usize>)
        requires
            self.wf(),
            is_cell(self@.widths, coords@),
        ensures
            match r {
                Some(v) => v < self@.voxels.len() && self@.cells()[v as int] == coords@,
                None => !self@.cells().contains(coords@),
            },
    {
        let r: Option<usize> = find_voxel(&self.tables, Ghost(self@.widths), coords);
        proof {
            let cells = self@.cells();
            if cells.contains(coords@) {
                let j = choose|j: int| 0 <= j < cells.len() && cells[j] == coords@;
                assert(find(self.tables@, cells[j]) == Some(j as usize));
            }
        }
        r
    }

    /// Search the block of voxels that could contain a point within `r` (already including
    /// `r_point`) of `center`, scanning each voxel whose local AABB could contain such a point,
    /// `BLOCK` points at a time.
    fn search_block<const BLOCK: usize>(&self, center: &[A; K], r: A) -> (found: bool)
        requires
            self.wf(),
            BLOCK > 0,
        ensures
            found == self@.finds(center@, r),
    {
        let rsq = r.square();
        let (first, last) = self.window_around(center, r);
        let ghost grid = self@;
        let mut coords: [usize; K] = first;
        proof {
            lemma_first_rank(first@, last@, K as nat);
            assert(between(first@, last@, coords@));
            lemma_rank_bound(first@, last@, coords@, K as nat);
        }
        loop
            invariant
                self.wf(),
                BLOCK > 0,
                grid == self@,
                rsq == r.square_spec(),
                first@ == grid.window_first(center@, r),
                last@ == grid.window_last(center@, r),
                between(first@, last@, coords@),
                rank(first@, last@, coords@, K as nat) < volume(first@, last@, K as nat),
                forall|v: int|
                    0 <= v < grid.voxels.len() && #[trigger] grid.finds_in(v, center@, r) ==> rank(
                        first@,
                        last@,
                        grid.cells()[v],
                        K as nat,
                    ) >= rank(first@, last@, coords@, K as nat),
            decreases
                    volume(first@, last@, K as nat) - rank(first@, last@, coords@, K as nat),
        {
            proof {
                A::total_operators();
                self.lemma_window_cell(first@, last@, coords@, center@, r);
            }
            let ghost here = coords@;
            if let Some(v) = self.lookup_voxel(&coords) {
                assert(grid.voxels[v as int] == self.voxels@[v as int].points());
                if self.voxels[v].aabb.closest_distsq_to(center) <= rsq && self.voxels[v].scan::<
                    BLOCK,
                >(center, rsq) {
                    assert(grid.finds_in(v as int, center@, r));
                    return true;
                }
            }
            proof {
                assert forall|v: int|
                    0 <= v < grid.voxels.len() && #[trigger] grid.finds_in(
                        v,
                        center@,
                        r,
                    ) implies rank(first@, last@, grid.cells()[v], K as nat) > rank(
                    first@,
                    last@,
                    here,
                    K as nat,
                ) by {
                    let cell = grid.cells()[v];
                    if rank(first@, last@, cell, K as nat) == rank(first@, last@, here, K as nat) {
                        lemma_rank_injective(first@, last@, cell, here, K as nat);
                        assert(cell =~= here);
                        assert(grid.cells().contains(here));
                    }
                }
            }
            if !next_cell(&mut coords, &first, &last) {
                proof {
                    assert forall|v: int| 0 <= v < grid.voxels.len() implies !#[trigger]
                    grid.finds_in(v, center@, r) by {
                        if grid.finds_in(v, center@, r) {
                            lemma_rank_bound(first@, last@, grid.cells()[v], K as nat);
                        }
                    }
                }
                return false;
            }
        }
    }

    /// Determine whether any point in this tree is within a distance of `radius` to `center`.
    #[must_use]
    pub fn collides(&self, center: &[A; K], radius: A) -> (r: bool)
        requires
            self.wf(),
        ensures
            r == self@.hit(center@, radius),
    {
        if self.voxels.len() == 0 {
            return false;
        }
        proof {
            A::total_operators();
        }
        let r = radius + self.r_point;
        let rsq = r.square();
        if self.global_aabb.closest_distsq_to(center) > rsq {
            return false;
        }
        self.search_block::<SCAN_BLOCK>(center, r)
    }

    /// Get the points stored in this `MutableMvt`.
    /// It makes no guarantee of iteration order beyond that of its view: voxel by voxel.
    pub fn points(&self) -> (r: Vec<[A; K]>)
        requires
            self.wf(),
        ensures
            cloud(r@) == self@.points(),
    {
        let ghost grid = self@;
        let mut out: Vec<[A; K]> = Vec::new();
        let mut v: usize = 0;
        assert(grid.voxels.take(0) =~= Seq::<Seq<Seq<A>>>::empty());
        while v < self.voxels.len()
            invariant
                v <= self.voxels.len(),
                self.wf(),
                grid == self@,
                cloud(out@) =~= grid.voxels.take(v as int).flatten(),
            decreases self.voxels.len() - v,
        {
            let (_aabb, mut points) = self.voxel(v);
            let ghost voxel = points@;
            let ghost earlier = out@;
            out.append(&mut points);
            proof {
                assert(cloud(out@) =~= cloud(earlier) + cloud(voxel));
                let taken = grid.voxels.take(v + 1);
                assert(taken.drop_last() =~= grid.voxels.take(v as int));
                taken.lemma_flatten_and_flatten_alt_are_equivalent();
                taken.drop_last().lemma_flatten_and_flatten_alt_are_equivalent();
            }
            v += 1;
        }
        assert(grid.voxels.take(v as int) =~= grid.voxels);
        out
    }

    /// Compute the total memory (stack + heap), measured in bytes, of a table whose vectors have
    /// allocated space for `tables` table entries, for `voxels` voxels, for the given numbers of
    /// axes (one for each voxel) and for the given numbers of coordinates (one for each axis of
    /// each voxel), or `usize::MAX` if that is larger.
    #[must_use]
    pub fn memory_of(
        tables: usize,
        voxels: usize,
        axes: &Vec<usize>,
        coordinates: &Vec<Vec<usize>>,
    ) -> (r: usize)
        ensures
            r == saturated(
                footprint::<K, A, I>(
                    tables as nat,
                    voxels as nat,
                    sum_of(axes@),
                    sum_of_lists(lists(coordinates@)),
                ) as int,
            ),
    {
        core::mem::size_of::<Self>().saturating_add(bytes_of::<I>(tables)).saturating_add(
            bytes_of::<MutableVoxel<A, K>>(voxels),
        ).saturating_add(bytes_of_all::<Vec<A>>(axes)).saturating_add(
            bytes_of_lists::<A>(coordinates),
        )
    }

    /// Get the total memory used (stack + heap) by this structure, measured in bytes, or
    /// `usize::MAX` if that is larger.
    /// This function should not be considered stable; it is only used internally for benchmarks.
    ///
    /// Vectors may have allocated more space than they use; how much more is up to the allocator.
    #[must_use]
    pub fn memory_used(&self) -> (r: usize)
        requires
            self.wf(),
        ensures
            exists|tables: usize, voxels: usize, axes: Seq<usize>, coordinates: Seq<Seq<usize>>|
                #[trigger] has_capacities::<K, A, I>(self@, tables, voxels, axes, coordinates) && r
                    == saturated(
                    footprint::<K, A, I>(
                        tables as nat,
                        voxels as nat,
                        sum_of(axes),
                        sum_of_lists(coordinates),
                    ) as int,
                ),
    {
        let ghost grid = self@;
        let tables: usize = capacity_of(&self.tables);
        let voxels: usize = capacity_of(&self.voxels);
        let mut axes: Vec<usize> = Vec::new();
        let mut coordinates: Vec<Vec<usize>> = Vec::new();
        let mut v: usize = 0;
        while v < self.voxels.len()
            invariant
                v <= self.voxels.len(),
                self.wf(),
                grid == self@,
                axes@.len() == v,
                forall|u: int|
                    0 <= u < v ==> holds::<Vec<A>>(#[trigger] axes@[u], K as nat),
                coordinates@.len() == v,
                forall|u: int|
                    0 <= u < v ==> has_space::<A>(
                        (#[trigger] coordinates@[u])@,
                        K as nat,
                        grid.voxels[u].len(),
                    ),
            decreases self.voxels.len() - v,
        {
            let voxel = &self.voxels[v];
            axes.push(capacity_of(&voxel.axes));
            let mut space: Vec<usize> = Vec::new();
            let mut k: usize = 0;
            while k < K
                invariant
                    k <= K,
                    voxel.wf(),
                    space@.len() == k,
                    forall|j: int|
                        0 <= j < k ==> holds::<A>(#[trigger] space@[j], voxel.points().len()),
                decreases K - k,
            {
                assert(voxel.axes@[k as int]@.len() == voxel.points().len());
                space.push(capacity_of(&voxel.axes[k]));
                k += 1;
            }
            assert(grid.voxels[v as int] == voxel.points());
            coordinates.push(space);
            v += 1;
        }
        proof {
            let space = lists(coordinates@);
            assert forall|u: int| 0 <= u < space.len() implies has_space::<A>(
                #[trigger] space[u],
                K as nat,
                grid.voxels[u].len(),
            ) by {
                assert(space[u] == coordinates@[u]@);
            }
            assert(has_capacities::<K, A, I>(grid, tables, voxels, axes@, space));
        }
        Self::memory_of(tables, voxels, &axes, &coordinates)
    }
}

/// The memory (stack + heap), in bytes, of a table whose vectors have space for so many table
/// entries, voxels, axes of voxels and coordinates.
pub open spec fn footprint<const K: usize, A: Axis, I: Index>(
    tables: nat,
    voxels: nat,
    axes: nat,
    coordinates: nat,
) -> nat {
    size_of::<MutableMvt<K, A, I>>() + tables * size_of::<I>() + voxels * size_of::<
        MutableVoxel<A, K>,
    >() + axes * size_of::<Vec<A>>() + coordinates * size_of::<A>()
}

/// Whether a vector of `len` values of type `T` can have space for `n` of them: at least for those
/// that it holds, and for no more than `isize::MAX` bytes.
pub open spec fn holds<T>(n: usize, len: nat) -> bool {
    len <= n && n * size_of::<T>() <= isize::MAX
}

/// Whether the vectors of a voxel with `len` points in `k` dimensions can have space for so many
/// coordinates, one number for each axis.
pub open spec fn has_space<A>(space: Seq<usize>, k: nat, len: nat) -> bool {
    &&& space.len() == k
    &&& forall|j: int| 0 <= j < k ==> holds::<A>(#[trigger] space[j], len)
}

/// Whether the vectors of a table that holds `grid` can have space for so many elements. `axes` has
/// the space for axes in each voxel, and `coordinates` the space for coordinates on each axis of
/// each voxel.
pub open spec fn has_capacities<const K: usize, A: Axis, I: Index>(
    grid: VoxelGrid<A>,
    tables: usize,
    voxels: usize,
    axes: Seq<usize>,
    coordinates: Seq<Seq<usize>>,
) -> bool {
    &&& holds::<I>(tables, table_len(grid.widths, grid.cells()))
    &&& holds::<MutableVoxel<A, K>>(voxels, grid.voxels.len())
    &&& axes.len() == grid.voxels.len()
    &&& forall|v: int| 0 <= v < axes.len() ==> holds::<Vec<A>>(#[trigger] axes[v], K as nat)
    &&& coordinates.len() == grid.voxels.len()
    &&& forall|v: int|
        0 <= v < coordinates.len() ==> has_space::<A>(
            #[trigger] coordinates[v],
            K as nat,
            grid.voxels[v].len(),
        )
}

impl<const K: usize, A: AxisSimdElement, I: Index> MutableMvt<K, A, I> {
    /// Determine whether any sphere in a SIMD batch of `L` spheres intersects a point in this
    /// table.
    #[must_use]
    pub fn collides_simd<const L: usize>(&self, centers: &[[A; L]; K], radii: [A; L]) -> (r: bool)
        requires
            self.wf(),
            L > 0,
        ensures
            r == exists|l: int|
                0 <= l < L && self@.lane_hit(#[trigger] lane(*centers, l), radii@[l]),
            // Some sphere collides on its own, unless its distance to the bounding box compares
            // with nothing.
            r == exists|l: int|
                0 <= l < L && self@.hit(#[trigger] lane(*centers, l), radii@[l]) && self@.compares(
                    lane(*centers, l),
                    radii@[l],
                ),
    {
        if self.voxels.len() == 0 {
            return false;
        }
        let r: [A; L] = lanes_plus(&radii, &[self.r_point; L]);
        let rsq: [A; L] = lanes_times(&r, &r);
        let inbounds: [bool; L] = lanes_in_reach(&self.global_aabb, centers, &rsq);
        proof {
            A::square_is_product();
            assert forall|l: int| 0 <= l < L implies #[trigger] inbounds@[l] == le(
                self@.bounds.closest_distsq(lane(*centers, l), K as nat),
                plus(radii@[l], self@.r_point).square_spec(),
            ) by {
                assert(r@[l] == plus(radii@[l], self@.r_point));
                assert(rsq@[l] == times(r@[l], r@[l]));
            }
        }
        if !<[A; L]>::mask_any(inbounds) {
            proof {
                assert forall|l: int| 0 <= l < L implies !self@.lane_hit(
                    #[trigger] lane(*centers, l),
                    radii@[l],
                ) by {
                    assert(!inbounds@[l]);
                }
            }
            return false;
        }
        let mut l: usize = 0;
        while l < L
            invariant
                l <= L,
                L > 0,
                self.wf(),
                forall|i: int| 0 <= i < L ==> #[trigger] r@[i] == plus(radii@[i], self@.r_point),
                forall|i: int|
                    0 <= i < L ==> #[trigger] inbounds@[i] == le(
                        self@.bounds.closest_distsq(lane(*centers, i), K as nat),
                        plus(radii@[i], self@.r_point).square_spec(),
                    ),
                forall|i: int|
                    0 <= i < l ==> !self@.lane_hit(#[trigger] lane(*centers, i), radii@[i]),
            decreases L - l,
        {
            assert(r@[l as int] == plus(radii@[l as int], self@.r_point));
            // a lane that is not in bounds was already ruled out by the batched cull above
            if inbounds[l] {
                let center: [A; K] = take_lane(centers, l);
                if self.search_block::<L>(&center, r[l]) {
                    assert(self@.lane_hit(lane(*centers, l as int), radii@[l as int]));
                    return true;
                }
            }
            l += 1;
        }
        false
    }
}

/// Inserting `points` into `grid` gets as far as `points[n]`, which fails with `e`.
pub open spec fn stops_at<A: Axis, I: Index>(
    grid: VoxelGrid<A>,
    points: Seq<Seq<A>>,
    n: int,
    e: InsertError,
) -> bool {
    &&& all_finite(points.take(n))
    &&& grid.fits_all::<I>(points.take(n))
    &&& insert_error::<A, I>(grid.insert_all(points.take(n)), points[n]) == Some(e)
}

} // verus!

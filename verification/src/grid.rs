//! The table hierarchy shared by [`Mvt`](crate::Mvt) and [`MutableMvt`](crate::MutableMvt).
//!
//! A hierarchy is a pool of tables laid end to end. The root table starts at offset 0 and is
//! indexed by the first grid coordinate; an entry of a table on one of the first `K - 1` levels
//! is the offset of the table for the next coordinate, and an entry of a table on the last level
//! is the index of a voxel. Empty entries hold [`Index::SENTINEL`].

use crate::aabb::{Aabb, Bounds};
use crate::axis::{gt, minus, over, times, Axis};
use crate::index::Index;
use crate::memory::{product, saturated};
use vstd::prelude::*;

verus! {

/// Marker for "ran out of index space building the grid", returned by this module's functions.
#[derive(Clone, Copy, Debug, PartialEq, Eq, Structural)]
pub struct TooManyVoxels;

/// The result of [`size_grid`]: the per-axis grid width (in `usize` and `I` form) and the
/// coordinate scale factor used to map a point into grid indices.
pub type GridSizing<A, I, const K: usize> = ([usize; K], [I; K], [A; K]);

// ---------------------------------------------------------------------------------------------
// Sizing the grid
// ---------------------------------------------------------------------------------------------

/// The length of axis `k` of the grid: the extent of the box, or one voxel where the box is flat.
pub open spec fn extent_of<A: Axis>(b: Bounds<A>, cell_wd: A, k: int) -> A {
    let extent = minus(b.hi[k], b.lo[k]);
    if gt(extent, A::ZERO) {
        extent
    } else {
        cell_wd
    }
}

/// The number of voxels on axis `k`: as many as fit in its length, and at least one.
pub open spec fn width_of<A: Axis>(b: Bounds<A>, cell_wd: A, k: int) -> usize {
    let fitting = over(extent_of(b, cell_wd, k), cell_wd).to_index_spec();
    if fitting < 1 {
        1
    } else {
        fitting
    }
}

/// The number of voxels on each axis of the grid over `b`.
pub open spec fn widths_of<A: Axis>(b: Bounds<A>, cell_wd: A) -> Seq<usize> {
    Seq::new(b.lo.len(), |k: int| width_of(b, cell_wd, k))
}

/// The number of voxels per unit length on each axis of the grid over `b`.
pub open spec fn scales_of<A: Axis>(b: Bounds<A>, cell_wd: A) -> Seq<A> {
    Seq::new(
        b.lo.len(),
        |k: int| over(A::from_usize_spec(width_of(b, cell_wd, k)), extent_of(b, cell_wd, k)),
    )
}

/// Whether the index type can represent each of `widths`.
pub open spec fn widths_fit<I: Index>(widths: Seq<usize>) -> bool {
    forall|k: int| 0 <= k < widths.len() ==> I::from_usize_spec(#[trigger] widths[k]) is Some
}

/// The coordinate on one axis of the cell that `x` falls into: the voxel that holds it, or the
/// nearest one where it lies outside of the grid.
pub open spec fn coord_of<A: Axis>(x: A, lo: A, scale: A, width: usize) -> usize {
    let i = times(minus(x, lo), scale).to_index_spec();
    if i < width {
        i
    } else {
        (width - 1) as usize
    }
}

/// The cell that the point `p` falls into.
pub open spec fn cell_of<A: Axis>(
    p: Seq<A>,
    lo: Seq<A>,
    scale: Seq<A>,
    widths: Seq<usize>,
) -> Seq<usize> {
    Seq::new(widths.len(), |k: int| coord_of(p[k], lo[k], scale[k], widths[k]))
}

/// Given a bounding box over a point cloud and a voxel width `cell_wd`, compute the per-axis grid
/// width (in both `usize` and `I` form) and the coordinate scale factor used to map a point into
/// grid indices.
pub fn size_grid<A: Axis, I: Index, const K: usize>(aabb: &Aabb<A, K>, cell_wd: A) -> (r: Result<
    GridSizing<A, I, K>,
    TooManyVoxels,
>)
    ensures
        r is Ok <==> widths_fit::<I>(widths_of(aabb@, cell_wd)),
        r matches Ok((width, width_i, scale)) ==> {
            &&& width@ == widths_of(aabb@, cell_wd)
            &&& scale@ == scales_of(aabb@, cell_wd)
            &&& forall|k: int|
                0 <= k < K ==> I::from_usize_spec(#[trigger] width@[k]) == Some(width_i@[k])
            &&& forall|k: int| 0 <= k < K ==> #[trigger] width@[k] >= 1
        },
{
    let mut grid_width = [0usize; K];
    let mut grid_width_i = [I::ZERO; K];
    let mut scale = [A::ZERO; K];
    let mut k: usize = 0;
    while k < K
        invariant
            k <= K,
            forall|i: int|
                0 <= i < k ==> #[trigger] grid_width@[i] == widths_of(aabb@, cell_wd)[i],
            forall|i: int|
                0 <= i < k ==> I::from_usize_spec(#[trigger] grid_width@[i]) == Some(
                    grid_width_i@[i],
                ),
            forall|i: int| 0 <= i < k ==> #[trigger] scale@[i] == scales_of(aabb@, cell_wd)[i],
        decreases K - k,
    {
        proof {
            A::total_operators();
        }
        let extent = aabb.hi[k] - aabb.lo[k];
        // an extent of zero (e.g. every point shares this coordinate) would otherwise divide by
        // zero below, so round up to one voxel
        let extent = if extent > A::ZERO {
            extent
        } else {
            cell_wd
        };
        let fitting: usize = (extent / cell_wd).to_index();
        let gw: usize = if fitting < 1 {
            1
        } else {
            fitting
        };
        grid_width[k] = gw;
        match I::from_usize(gw) {
            Some(gw_i) => {
                grid_width_i[k] = gw_i;
            },
            None => {
                assert(I::from_usize_spec(widths_of(aabb@, cell_wd)[k as int]) is None);
                return Err(TooManyVoxels);
            },
        }
        scale[k] = A::from_usize(gw) / extent;
        k += 1;
    }
    proof {
        assert(grid_width@ =~= widths_of(aabb@, cell_wd));
        assert(scale@ =~= scales_of(aabb@, cell_wd));
    }
    Ok((grid_width, grid_width_i, scale))
}

/// Map point `p` into grid coordinates, given the grid's origin `lo`, `scale`, and `grid_width`.
///
/// A coordinate that would fall outside `0..grid_width[k]` (because `p` lies outside the box the
/// grid was originally sized for) is clamped to the nearest edge voxel along that axis.
/// The caller is still responsible for storing `p`'s true coordinates rather than
/// this clamped bucket, so query correctness is unaffected.
pub fn point_to_grid_coords<A: Axis, const K: usize>(
    p: &[A; K],
    lo: [A; K],
    scale: [A; K],
    grid_width: [usize; K],
) -> (coords: [usize; K])
    requires
        forall|k: int| 0 <= k < K ==> #[trigger] grid_width@[k] >= 1,
    ensures
        coords@ == cell_of(p@, lo@, scale@, grid_width@),
        is_cell(grid_width@, coords@),
{
    let mut coords = [0usize; K];
    let mut k: usize = 0;
    while k < K
        invariant
            k <= K,
            forall|k: int| 0 <= k < K ==> #[trigger] grid_width@[k] >= 1,
            forall|i: int|
                0 <= i < k ==> #[trigger] coords@[i] == coord_of(
                    p@[i],
                    lo@[i],
                    scale@[i],
                    grid_width@[i],
                ),
        decreases K - k,
    {
        proof {
            A::total_operators();
            assert(grid_width@[k as int] >= 1);
        }
        let v = (p[k] - lo[k]) * scale[k];
        let i: usize = v.to_index();
        coords[k] = if i < grid_width[k] {
            i
        } else {
            grid_width[k] - 1
        };
        k += 1;
    }
    assert(coords@ =~= cell_of(p@, lo@, scale@, grid_width@));
    coords
}

// ---------------------------------------------------------------------------------------------
// Paths through the hierarchy
// ---------------------------------------------------------------------------------------------

/// Whether `path` is a sequence of at most `widths.len()` grid coordinates, each within the width
/// of its axis.
pub open spec fn is_path(widths: Seq<usize>, path: Seq<usize>) -> bool {
    &&& path.len() <= widths.len()
    &&& forall|k: int| 0 <= k < path.len() ==> #[trigger] path[k] < widths[k]
}

/// Whether `cell` holds one grid coordinate for each axis.
pub open spec fn is_cell(widths: Seq<usize>, cell: Seq<usize>) -> bool {
    &&& cell.len() == widths.len()
    &&& is_path(widths, cell)
}

/// Where the entries along `path` lead: to the offset of a table, or, if `path` has a coordinate
/// for every axis, to the index of a voxel. `None` if an entry on the way is empty.
pub open spec fn find<I: Index>(tables: Seq<I>, path: Seq<usize>) -> Option<usize>
    decreases path.len(),
{
    if path.len() == 0 {
        Some(0)
    } else {
        match find(tables, path.drop_last()) {
            None => None,
            Some(offset) => {
                let entry = tables[offset + path.last()];
                if entry == I::SENTINEL {
                    None
                } else {
                    Some(entry.to_usize_spec())
                }
            },
        }
    }
}

/// Whether every table that can be reached lies within the pool and no two of them overlap.
pub open spec fn tables_wf<I: Index>(tables: Seq<I>, widths: Seq<usize>) -> bool {
    &&& forall|p: Seq<usize>|
        #![trigger find(tables, p)]
        is_path(widths, p) && p.len() < widths.len() && find(tables, p) is Some ==> find(tables, p)->0
            + widths[p.len() as int] <= tables.len()
    &&& forall|p: Seq<usize>, q: Seq<usize>|
        #![trigger find(tables, p), find(tables, q)]
        is_path(widths, p) && p.len() < widths.len() && find(tables, p) is Some && is_path(
            widths,
            q,
        ) && q.len() < widths.len() && find(tables, q) is Some && p != q ==> {
            ||| find(tables, p)->0 + widths[p.len() as int] <= find(tables, q)->0
            ||| find(tables, q)->0 + widths[q.len() as int] <= find(tables, p)->0
        }
}

/// Whether the index type and the address space have room for the tables that are missing on the
/// way to `cell`, laid end to end from offset `len`: one for each level from `level` on, except
/// the last.
pub open spec fn has_room<I: Index>(
    tables: Seq<I>,
    widths: Seq<usize>,
    cell: Seq<usize>,
    level: int,
    len: int,
) -> bool
    decreases widths.len() - level,
{
    if level >= widths.len() {
        true
    } else if find(tables, cell.take(level)) is Some {
        has_room(tables, widths, cell, level + 1, len)
    } else {
        &&& len + widths[level] <= usize::MAX
        &&& I::from_usize_spec(len as usize) is Some
        &&& has_room(tables, widths, cell, level + 1, len + widths[level])
    }
}

/// The number of entries in the tables that are missing on the way to `cell`, from `level` on.
pub open spec fn missing<I: Index>(
    tables: Seq<I>,
    widths: Seq<usize>,
    cell: Seq<usize>,
    level: int,
) -> nat
    decreases widths.len() - level,
{
    if level >= widths.len() {
        0
    } else if find(tables, cell.take(level)) is Some {
        missing(tables, widths, cell, level + 1)
    } else {
        widths[level] as nat + missing(tables, widths, cell, level + 1)
    }
}

// ---------------------------------------------------------------------------------------------
// Setting an entry
// ---------------------------------------------------------------------------------------------

/// The hierarchy `after` is `before` with the empty entry `coord` of the table at `path` set to
/// `entry` and `fresh` empty entries appended.
pub open spec fn attached<I: Index>(
    before: Seq<I>,
    after: Seq<I>,
    widths: Seq<usize>,
    path: Seq<usize>,
    coord: usize,
    entry: I,
    fresh: int,
) -> bool {
    &&& tables_wf(before, widths)
    &&& is_path(widths, path)
    &&& path.len() < widths.len()
    &&& coord < widths[path.len() as int]
    &&& find(before, path) is Some
    &&& before[find(before, path)->0 + coord] == I::SENTINEL
    &&& entry != I::SENTINEL
    &&& fresh >= 0
    &&& after.len() == before.len() + fresh
    &&& forall|i: int|
        #![trigger after[i]]
        0 <= i < after.len() ==> after[i] == if i == find(before, path)->0 + coord {
            entry
        } else if i < before.len() {
            before[i]
        } else {
            I::SENTINEL
        }
    &&& path.len() + 1 < widths.len() ==> {
        &&& entry.to_usize_spec() == before.len()
        &&& fresh == widths[path.len() as int + 1]
    }
    &&& path.len() + 1 == widths.len() ==> fresh == 0
}

proof fn lemma_attached_find<I: Index>(
    before: Seq<I>,
    after: Seq<I>,
    widths: Seq<usize>,
    path: Seq<usize>,
    coord: usize,
    entry: I,
    fresh: int,
    q: Seq<usize>,
)
    requires
        attached(before, after, widths, path, coord, entry, fresh),
        is_path(widths, q),
    ensures
        find(after, q) == if q == path.push(coord) {
            Some(entry.to_usize_spec())
        } else {
            find(before, q)
        },
    decreases q.len(),
{
    let slot = find(before, path)->0 + coord;
    if q.len() == 0 {
        assert(q != path.push(coord));
    } else {
        let parent = q.drop_last();
        let d = q.last();
        assert(is_path(widths, parent));
        lemma_attached_find(before, after, widths, path, coord, entry, fresh, parent);
        assert(q == parent.push(d));
        assert(q[parent.len() as int] < widths[parent.len() as int]);
        if parent == path.push(coord) {
            assert(path.push(coord).drop_last() == path);
            assert(find(before, parent) is None);
            assert(find(after, q) is None);
            assert(q != path.push(coord));
        } else if find(before, parent) is Some {
            let o = find(before, parent)->0;
            assert(o + d < before.len());
            if parent == path {
                if d == coord {
                    assert(q == path.push(coord));
                } else {
                    assert(q != path.push(coord)) by {
                        assert(path.push(coord).last() == coord);
                    }
                }
            } else {
                assert(o + d != slot);
                assert(q != path.push(coord)) by {
                    assert(path.push(coord).drop_last() == path);
                }
            }
        } else {
            assert(q != path.push(coord)) by {
                assert(path.push(coord).drop_last() == path);
            }
        }
    }
}

pub proof fn lemma_attached<I: Index>(
    before: Seq<I>,
    after: Seq<I>,
    widths: Seq<usize>,
    path: Seq<usize>,
    coord: usize,
    entry: I,
    fresh: int,
)
    requires
        attached(before, after, widths, path, coord, entry, fresh),
    ensures
        tables_wf(after, widths),
        forall|q: Seq<usize>|
            #![trigger find(after, q)]
            #![trigger find(before, q)]
            is_path(widths, q) ==> find(after, q) == if q == path.push(coord) {
                Some(entry.to_usize_spec())
            } else {
                find(before, q)
            },
{
    assert forall|q: Seq<usize>|
        #![trigger find(after, q)]
        #![trigger find(before, q)]
        is_path(widths, q) implies find(after, q) == if q == path.push(coord) {
        Some(entry.to_usize_spec())
    } else {
        find(before, q)
    } by {
        lemma_attached_find(before, after, widths, path, coord, entry, fresh, q);
    }
}

// ---------------------------------------------------------------------------------------------
// Building the hierarchy
// ---------------------------------------------------------------------------------------------

/// Append `n` empty entries.
fn push_empty<I: Index>(tables: &mut Vec<I>, n: usize)
    requires
        old(tables).len() + n <= usize::MAX,
    ensures
        final(tables)@ == old(tables)@ + Seq::new(n as nat, |i: int| I::SENTINEL),
{
    let mut i: usize = 0;
    while i < n
        invariant
            i <= n,
            tables@ == old(tables)@ + Seq::new(i as nat, |i: int| I::SENTINEL),
        decreases n - i,
    {
        tables.push(I::SENTINEL);
        i += 1;
    }
}

/// Build a fresh root table, sized to `grid_width[0]` entries and filled with
/// [`Index::SENTINEL`].
pub fn new_root_table<I: Index, const K: usize>(grid_width: [usize; K]) -> (tables: Vec<I>)
    requires
        K > 0,
    ensures
        tables@ == Seq::new(grid_width[0] as nat, |i: int| I::SENTINEL),
        tables_wf(tables@, grid_width@),
        forall|q: Seq<usize>|
            is_path(grid_width@, q) && q.len() > 0 ==> (#[trigger] find(tables@, q)) is None,
{
    let mut tables: Vec<I> = Vec::with_capacity(grid_width[0]);
    push_empty(&mut tables, grid_width[0]);
    assert(tables@ == Seq::new(grid_width[0] as nat, |i: int| I::SENTINEL));
    proof {
        lemma_root_table(tables@, grid_width@);
    }
    tables
}

/// A fresh root table is a well-formed hierarchy that leads nowhere.
pub(crate) proof fn lemma_root_table<I: Index>(tables: Seq<I>, widths: Seq<usize>)
    requires
        widths.len() > 0,
        tables == Seq::new(widths[0] as nat, |i: int| I::SENTINEL),
    ensures
        tables_wf(tables, widths),
        forall|q: Seq<usize>|
            is_path(widths, q) && q.len() > 0 ==> (#[trigger] find(tables, q)) is None,
{
    assert forall|q: Seq<usize>|
        is_path(widths, q) && q.len() > 0 implies (#[trigger] find(tables, q)) is None by {
        lemma_root_is_empty(tables, widths, q);
    }
    assert forall|p: Seq<usize>|
        #![trigger find(tables, p)]
        is_path(widths, p) && find(tables, p) is Some implies p == Seq::<usize>::empty() by {
        if p.len() == 0 {
            assert(p == Seq::<usize>::empty());
        }
    }
}

proof fn lemma_root_is_empty<I: Index>(tables: Seq<I>, widths: Seq<usize>, q: Seq<usize>)
    requires
        widths.len() > 0,
        tables == Seq::new(widths[0] as nat, |i: int| I::SENTINEL),
        is_path(widths, q),
        q.len() > 0,
    ensures
        find(tables, q) is None,
    decreases q.len(),
{
    if q.len() == 1 {
        assert(find(tables, q.drop_last()) == Some(0usize));
        assert(q[0] < widths[0]);
    } else {
        lemma_root_is_empty(tables, widths, q.drop_last());
    }
}

/// What it means that the slot of `cell` in the pool `before` is `slot` in the pool `after`: the
/// tables that were missing on the way to it have been appended, in the order of their levels, and
/// nothing else has changed.
pub open spec fn leaf_taken<I: Index>(
    before: Seq<I>,
    after: Seq<I>,
    widths: Seq<usize>,
    cell: Seq<usize>,
    slot: int,
) -> bool {
    let leaf = cell.take(widths.len() - 1);
    &&& tables_wf(after, widths)
    &&& after.len() == before.len() + missing(before, widths, cell, 1)
    &&& find(after, leaf) is Some
    &&& slot == find(after, leaf)->0 + cell[widths.len() - 1]
    &&& 0 <= slot < after.len()
    // Every path that led somewhere still leads there.
    &&& forall|q: Seq<usize>|
        #![trigger find(after, q)]
        #![trigger find(before, q)]
        is_path(widths, q) && find(before, q) is Some ==> find(after, q) == find(before, q)
    // The new paths are those to the tables on the way to `cell`.
    &&& forall|q: Seq<usize>|
        #![trigger find(after, q)]
        is_path(widths, q) && find(before, q) is None ==> (find(after, q) is Some <==> 1 <= q.len()
            < widths.len() && q == cell.take(q.len() as int))
    // The new tables lie behind the old ones, end to end.
    &&& forall|l: int|
        #![trigger cell.take(l)]
        1 <= l < widths.len() && find(before, cell.take(l)) is None ==> find(after, cell.take(l))
            == Some(
            (before.len() + missing(before, widths, cell, 1) - missing(
                before,
                widths,
                cell,
                l,
            )) as usize,
        )
    // Entries that were in use are kept.
    &&& forall|i: int|
        0 <= i < before.len() && before[i] != I::SENTINEL ==> #[trigger] after[i] == before[i]
    &&& if find(before, leaf) is Some {
        // Nothing was missing.
        after == before
    } else {
        // One empty entry now leads to the first of the new tables, which are empty.
        &&& after[slot] == I::SENTINEL
        &&& exists|f: int|
            #![trigger before[f]]
            0 <= f < before.len() && before[f] == I::SENTINEL && I::from_usize_spec(
                before.len() as usize,
            ) == Some(after[f]) && (forall|i: int|
                0 <= i < before.len() && i != f ==> #[trigger] after[i] == before[i])
    }
}

/// Descend the sparse table hierarchy for grid coordinates `coords`, allocating new subtables
/// (filled with [`Index::SENTINEL`]) as needed, and return the offset of the leaf-level table
/// slot that indexes into voxel storage.
///
/// `tables` must already contain at least `grid_width[0]` entries (the root table) before the
/// first call.
///
/// If this returns `Err`, `tables` is left exactly as it was before the call.
pub fn get_leaf<I: Index, const K: usize>(
    tables: &mut Vec<I>,
    grid_width: [usize; K],
    coords: [usize; K],
) -> (r: Result<usize, TooManyVoxels>)
    requires
        K > 0,
        tables_wf(old(tables)@, grid_width@),
        is_cell(grid_width@, coords@),
    ensures
        r is Ok <==> has_room(old(tables)@, grid_width@, coords@, 1, old(tables)@.len() as int),
        r is Err ==> final(tables)@ == old(tables)@,
        r matches Ok(slot) ==> leaf_taken(
            old(tables)@,
            final(tables)@,
            grid_width@,
            coords@,
            slot as int,
        ),
{
    proof {
        I::index_laws();
    }
    let ghost before = tables@;
    let ghost widths = grid_width@;
    let ghost cell = coords@;
    let len: usize = tables.len();
    let mut offset: usize = 0;
    let mut level: usize = 0;
    let mut grown: bool = false;
    let mut first_slot: usize = 0;
    assert(coords@.take(0) == Seq::<usize>::empty());
    while level + 1 < K
        invariant
            level < K,
            K > 0,
            widths == grid_width@,
            cell == coords@,
            len == before.len(),
            is_cell(widths, cell),
            tables_wf(before, widths),
            tables_wf(tables@, widths),
            find(tables@, cell.take(level as int)) == Some(offset),
            tables@.len() + missing(before, widths, cell, level + 1) == before.len() + missing(
                before,
                widths,
                cell,
                1,
            ),
            has_room(before, widths, cell, 1, before.len() as int) == has_room(
                before,
                widths,
                cell,
                level + 1,
                tables@.len() as int,
            ),
            before == old(tables)@,
            !grown ==> tables@ == before,
            grown ==> {
                &&& before.len() <= tables@.len()
                &&& before.len() <= offset
                &&& first_slot < before.len()
                &&& before[first_slot as int] == I::SENTINEL
                &&& I::from_usize_spec(before.len() as usize) == Some(tables@[first_slot as int])
                &&& find(before, cell.take(level as int)) is None
                &&& forall|i: int|
                    0 <= i < before.len() && i != first_slot ==> tables@[i] == before[i]
                &&& forall|i: int| offset <= i < tables@.len() ==> tables@[i] == I::SENTINEL
            },
            forall|q: Seq<usize>|
                #![trigger find(tables@, q)]
                #![trigger find(before, q)]
                is_path(widths, q) && find(before, q) is Some ==> find(tables@, q) == find(
                    before,
                    q,
                ),
            forall|q: Seq<usize>|
                #![trigger find(tables@, q)]
                is_path(widths, q) && find(before, q) is None ==> (find(tables@, q) is Some <==> 1
                    <= q.len() <= level && q == cell.take(q.len() as int)),
            forall|l: int|
                #![trigger cell.take(l)]
                1 <= l <= level && find(before, cell.take(l)) is None ==> find(
                    tables@,
                    cell.take(l),
                ) == Some(
                    (before.len() + missing(before, widths, cell, 1) - missing(
                        before,
                        widths,
                        cell,
                        l,
                    )) as usize,
                ),
        decreases K - level,
    {
        proof {
            I::index_laws();
        }
        let ghost path = cell.take(level as int);
        let ghost next = cell.take(level + 1);
        let ghost current = tables@;
        assert(is_path(widths, path));
        assert(next == path.push(cell[level as int]));
        assert(next.drop_last() == path);
        assert(is_path(widths, next));
        assert(next.len() == level + 1);
        assert(cell[level as int] < widths[level as int]);
        assert(tables@.len() == tables.len());
        let slot: usize = offset + coords[level];
        assert(find(current, next) is Some <==> find(before, next) is Some);
        if tables[slot] == I::SENTINEL {
            let new_offset: usize = tables.len();
            let width: usize = grid_width[level + 1];
            let end: Option<usize> = new_offset.checked_add(width);
            let entry: Option<I> = I::from_usize(new_offset);
            if end.is_none() || entry.is_none() {
                if grown {
                    tables.truncate(len);
                    tables[first_slot] = I::SENTINEL;
                    assert(tables@ == before);
                }
                return Err(TooManyVoxels);
            }
            let new_entry: I = entry.unwrap();
            push_empty(tables, width);
            tables[slot] = new_entry;
            if !grown {
                grown = true;
                first_slot = slot;
            }
            proof {
                assert(attached(
                    current,
                    tables@,
                    widths,
                    path,
                    cell[level as int],
                    new_entry,
                    width as int,
                ));
                lemma_attached(
                    current,
                    tables@,
                    widths,
                    path,
                    cell[level as int],
                    new_entry,
                    width as int,
                );
            }
        }
        offset = tables[slot].to_usize();
        level += 1;
        proof {
            assert(find(tables@, next) == Some(offset));
            assert forall|q: Seq<usize>|
                #![trigger find(tables@, q)]
                is_path(widths, q) && find(before, q) is None implies (find(tables@, q) is Some <==> 1
                <= q.len() <= level && q == cell.take(q.len() as int)) by {
                assert(q == next <==> q.len() == level && q == cell.take(q.len() as int));
            }
            assert forall|l: int|
                #![trigger cell.take(l)]
                1 <= l <= level && find(before, cell.take(l)) is None implies find(
                tables@,
                cell.take(l),
            ) == Some(
                (before.len() + missing(before, widths, cell, 1) - missing(
                    before,
                    widths,
                    cell,
                    l,
                )) as usize,
            ) by {
                assert(is_path(widths, cell.take(l)));
                if l < level {
                    assert(cell.take(l).len() != next.len());
                    assert(find(current, cell.take(l)) is Some);
                }
            }
        }
    }
    proof {
        assert(is_path(widths, cell.take(K - 1)));
        assert(cell[K - 1] < widths[K - 1]);
        assert(tables@.len() == tables.len());
        if grown {
            assert(before[first_slot as int] == I::SENTINEL);
        }
    }
    Ok(offset + coords[K - 1])
}

/// A cell whose table is already there needs no more tables: looking for its slot again changes
/// nothing and cannot fail.
pub proof fn present_leaf_needs_nothing<I: Index>(
    tables: Seq<I>,
    widths: Seq<usize>,
    cell: Seq<usize>,
    level: int,
    len: int,
)
    requires
        is_cell(widths, cell),
        widths.len() > 0,
        find(tables, cell.take(widths.len() - 1)) is Some,
        0 <= level,
    ensures
        missing(tables, widths, cell, level) == 0,
        has_room(tables, widths, cell, level, len),
    decreases widths.len() - level,
{
    if level < widths.len() {
        present_leaf_needs_nothing(tables, widths, cell, level + 1, len);
        let leaf = cell.take(widths.len() - 1);
        assert(leaf.take(level) =~= cell.take(level));
        if find(tables, cell.take(level)) is None {
            lemma_none_below(tables, leaf, level);
        }
    }
}

/// Look up the index of the voxel at grid coordinates `coords`, if it is occupied.
pub(crate) fn find_voxel<I: Index, const K: usize>(
    tables: &Vec<I>,
    Ghost(widths): Ghost<Seq<usize>>,
    coords: &[usize; K],
) -> (r: Option<usize>)
    requires
        K > 0,
        widths.len() == K,
        tables_wf(tables@, widths),
        is_cell(widths, coords@),
    ensures
        r == find(tables@, coords@),
{
    let mut offset: usize = 0;
    let mut level: usize = 0;
    assert(coords@.take(0) == Seq::<usize>::empty());
    while level < K
        invariant
            level <= K,
            widths.len() == K,
            tables_wf(tables@, widths),
            is_cell(widths, coords@),
            find(tables@, coords@.take(level as int)) == Some(offset),
        decreases K - level,
    {
        proof {
            I::index_laws();
            let path = coords@.take(level as int);
            let next = coords@.take(level + 1);
            assert(next.drop_last() == path);
            assert(is_path(widths, path));
            assert(coords@[level as int] < widths[level as int]);
            assert(tables@.len() == tables.len());
        }
        let next: I = tables[offset + coords[level]];
        if next == I::SENTINEL {
            proof {
                lemma_none_below(tables@, coords@, level + 1);
            }
            return None;
        }
        offset = next.to_usize();
        level += 1;
    }
    assert(coords@.take(K as int) == coords@);
    Some(offset)
}

proof fn lemma_none_below<I: Index>(tables: Seq<I>, cell: Seq<usize>, level: int)
    requires
        0 <= level <= cell.len(),
        find(tables, cell.take(level)) is None,
    ensures
        find(tables, cell) is None,
    decreases cell.len() - level,
{
    if level < cell.len() {
        assert(cell.take(level + 1).drop_last() == cell.take(level));
        lemma_none_below(tables, cell, level + 1);
    } else {
        assert(cell.take(level) == cell);
    }
}

// ---------------------------------------------------------------------------------------------
// Bounding the hierarchy
// ---------------------------------------------------------------------------------------------

/// An upper bound on the table entries from `level` on, for `n` points: each level has at most one
/// table per point, and at most one per entry (`slots` of them) on the level above.
pub open spec fn dense_from(widths: Seq<usize>, n: nat, level: int, slots: nat) -> nat
    decreases widths.len() - level,
{
    if level >= widths.len() {
        0
    } else {
        let tables = if slots <= n {
            slots
        } else {
            n
        };
        let entries = tables * widths[level] as nat;
        entries + dense_from(widths, n, level + 1, entries)
    }
}

/// An upper bound on the table entries that `n` points can need.
pub open spec fn dense_len(widths: Seq<usize>, n: nat) -> nat {
    widths[0] as nat + dense_from(widths, n, 1, widths[0] as nat)
}

/// A cheap, safe upper bound on how large the `tables` hierarchy (root plus every subtable
/// [`get_leaf`] might allocate) can grow while assigning `n_points` points, without an extra pass
/// over the points themselves.
///
/// A subtable is created at most once per distinct coordinate prefix, so the number of new
/// subtables at each level is bounded both by `n_points` (at most one new subtable per point) and
/// by the number of parent slots that could hold them (at most one subtable per already-reachable
/// slot); this tracks the tighter of the two at each level, so it stays small for sparse point
/// clouds and only approaches the fully-dense grid size when the cloud is dense enough to need it.
#[must_use]
pub fn reserve_bound<const K: usize>(grid_width: [usize; K], n_points: usize) -> (total: usize)
    requires
        K > 0,
    ensures
        total == saturated(dense_len(grid_width@, n_points as nat) as int),
{
    let mut total: usize = grid_width[0];
    let mut reachable: usize = grid_width[0];
    let mut level: usize = 1;
    let ghost mut sum: nat = total as nat;
    let ghost mut slots: nat = reachable as nat;
    while level < K
        invariant
            1 <= level <= K,
            dense_len(grid_width@, n_points as nat) == sum + dense_from(
                grid_width@,
                n_points as nat,
                level as int,
                slots,
            ),
            total == saturated(sum as int),
            reachable == saturated(slots as int),
        decreases K - level,
    {
        let distinct: usize = if reachable <= n_points {
            reachable
        } else {
            n_points
        };
        reachable = product(distinct, grid_width[level]);
        total = total.saturating_add(reachable);
        proof {
            slots = distinct as nat * grid_width@[level as int] as nat;
            sum = sum + slots;
        }
        level += 1;
    }
    total
}

} // verus!

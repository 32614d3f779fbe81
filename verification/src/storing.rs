//! Where a grid stores the points that are put into it.

use crate::aabb::{box_over, Bounds};
use crate::axis::Axis;
use crate::immutable::grid_over;
use crate::voxel_grid::VoxelGrid;
use vstd::prelude::*;

verus! {

/// Those of `points` that fall into `cell` of the grid, in order.
pub open spec fn points_in<A: Axis>(
    grid: VoxelGrid<A>,
    points: Seq<Seq<A>>,
    cell: Seq<usize>,
) -> Seq<Seq<A>> {
    points.filter(|p: Seq<A>| grid.cell_of(p) == cell)
}

/// Whether `points[i]` is the first of `points` that falls into `cell` of the grid.
pub open spec fn is_first_in<A: Axis>(
    grid: VoxelGrid<A>,
    points: Seq<Seq<A>>,
    cell: Seq<usize>,
    i: int,
) -> bool {
    &&& 0 <= i < points.len()
    &&& grid.cell_of(points[i]) == cell
    &&& forall|j: int| 0 <= j < i ==> grid.cell_of(#[trigger] points[j]) != cell
}

proof fn lemma_points_in_next<A: Axis>(
    grid: VoxelGrid<A>,
    points: Seq<Seq<A>>,
    p: Seq<A>,
    cell: Seq<usize>,
)
    ensures
        points_in(grid, points.push(p), cell) == if grid.cell_of(p) == cell {
            points_in(grid, points, cell).push(p)
        } else {
            points_in(grid, points, cell)
        },
{
    reveal(Seq::filter);
    assert(points.push(p).drop_last() =~= points);
}

proof fn lemma_none_in<A: Axis>(grid: VoxelGrid<A>, points: Seq<Seq<A>>, cell: Seq<usize>)
    requires
        forall|i: int| 0 <= i < points.len() ==> grid.cell_of(#[trigger] points[i]) != cell,
    ensures
        points_in(grid, points, cell) == Seq::<Seq<A>>::empty(),
    decreases points.len(),
{
    reveal(Seq::filter);
    if points.len() > 0 {
        let fewer = points.drop_last();
        assert forall|i: int| 0 <= i < fewer.len() implies grid.cell_of(#[trigger] fewer[i])
            != cell by {
            assert(fewer[i] == points[i]);
        }
        lemma_none_in(grid, fewer, cell);
        assert(grid.cell_of(points[points.len() - 1]) != cell);
    }
}

/// A grid that points are put into holds in each voxel the points that fall into its cell, in the
/// order in which they came; there is a voxel for every cell that a point falls into, and the voxels
/// are in the order in which their first points came.
pub proof fn voxels_hold_their_points_in_order<A: Axis>(
    grid: VoxelGrid<A>,
    points: Seq<Seq<A>>,
) -> (firsts: Seq<int>)
    requires
        grid.wf(),
        grid.voxels.len() == 0,
        forall|i: int| 0 <= i < points.len() ==> (#[trigger] points[i]).len() == grid.dim(),
    ensures
        firsts.len() == grid.insert_all(points).voxels.len(),
        grid.insert_all(points).cells().len() == firsts.len(),
        forall|v: int|
            #![trigger firsts[v]]
            0 <= v < firsts.len() ==> {
                let after = grid.insert_all(points);
                &&& is_first_in(grid, points, after.cells()[v], firsts[v])
                &&& after.voxels[v] == points_in(grid, points, after.cells()[v])
            },
        forall|u: int, v: int|
            #![trigger firsts[u], firsts[v]]
            0 <= u < v < firsts.len() ==> firsts[u] < firsts[v],
        forall|i: int|
            0 <= i < points.len() ==> grid.insert_all(points).cells().contains(
                grid.cell_of(#[trigger] points[i]),
            ),
    decreases points.len(),
{
    let after = grid.insert_all(points);
    if points.len() == 0 {
        assert(after.cells() =~= Seq::<Seq<usize>>::empty());
        Seq::empty()
    } else {
        let fewer = points.drop_last();
        let last = points.len() - 1;
        let p = points[last];
        assert(fewer.push(p) =~= points);
        assert forall|i: int| 0 <= i < fewer.len() implies (#[trigger] fewer[i]).len()
            == grid.dim() by {
            assert(fewer[i] == points[i]);
            assert(points[i].len() == grid.dim());
        }
        let sofar = voxels_hold_their_points_in_order(grid, fewer);
        grid.insert_all_preserves_wf(fewer);
        let before = grid.insert_all(fewer);
        assert(p.len() == grid.dim());
        before.insert_preserves_wf(p);
        assert(after == before.insert(p));
        let cell = grid.cell_of(p);
        assert(before.cell_of(p) == cell);
        let old_cells = before.cells();
        let cells = after.cells();
        let known = old_cells.contains(cell);
        let firsts = if known {
            sofar
        } else {
            sofar.push(last)
        };
        assert forall|c: Seq<usize>| old_cells.contains(c) implies cells.contains(c) by {
            let u = choose|u: int| 0 <= u < old_cells.len() && old_cells[u] == c;
            assert(cells[u] == c);
        }
        assert(cells.contains(cell)) by {
            if !known {
                assert(cells[old_cells.len() as int] == cell);
            }
        }
        assert forall|i: int| 0 <= i < points.len() implies cells.contains(
            grid.cell_of(#[trigger] points[i]),
        ) by {
            if i < last {
                assert(fewer[i] == points[i]);
            }
        }
        assert forall|v: int| #![trigger firsts[v]] 0 <= v < firsts.len() implies {
            &&& is_first_in(grid, points, cells[v], firsts[v])
            &&& after.voxels[v] == points_in(grid, points, cells[v])
        } by {
            lemma_points_in_next(grid, fewer, p, cells[v]);
            if v < sofar.len() {
                assert(cells[v] == old_cells[v] && firsts[v] == sofar[v]);
                assert(is_first_in(grid, fewer, old_cells[v], sofar[v]));
                assert forall|j: int| 0 <= j < firsts[v] implies grid.cell_of(
                    #[trigger] points[j],
                ) != cells[v] by {
                    assert(fewer[j] == points[j]);
                }
                assert(fewer[sofar[v]] == points[firsts[v]]);
                if known {
                    let s = old_cells.index_of(cell);
                    assert(old_cells[s] == cell);
                    assert(cells[v] == cell <==> v == s);
                } else {
                    assert(cells[v] != cell) by {
                        assert(old_cells.contains(old_cells[v]));
                    }
                }
            } else {
                assert forall|j: int| 0 <= j < fewer.len() implies grid.cell_of(
                    #[trigger] fewer[j],
                ) != cell by {
                    assert(old_cells.contains(grid.cell_of(fewer[j])));
                }
                assert forall|j: int| 0 <= j < last implies grid.cell_of(#[trigger] points[j])
                    != cell by {
                    assert(fewer[j] == points[j]);
                }
                lemma_none_in(grid, fewer, cell);
                assert(after.voxels[v] =~= seq![p]);
                assert(points_in(grid, points, cell) =~= seq![p]);
            }
        }
        assert forall|u: int, v: int|
            #![trigger firsts[u], firsts[v]]
            0 <= u < v < firsts.len() implies firsts[u] < firsts[v] by {
            assert(firsts[u] == sofar[u]);
            assert(is_first_in(grid, fewer, old_cells[u], sofar[u]));
        }
        firsts
    }
}

/// A table that is built over a cloud holds in each voxel the points of the cloud that fall into its
/// cell, in the order of the cloud, and its voxels are in the order in which their first points come
/// in the cloud.
pub proof fn table_holds_its_points_in_order<A: Axis>(
    points: Seq<Seq<A>>,
    voxel_width: A,
    r_point: A,
    k: nat,
) -> (firsts: Seq<int>)
    requires
        k > 0,
        points.len() > 0,
        forall|i: int| 0 <= i < points.len() ==> (#[trigger] points[i]).len() == k,
    ensures
        ({
            let grid = grid_over(points, voxel_width, r_point, k);
            &&& firsts.len() == grid.voxels.len()
            &&& forall|v: int|
                #![trigger firsts[v]]
                0 <= v < firsts.len() ==> {
                    let cell = grid.cell_of(points[firsts[v]]);
                    &&& is_first_in(grid, points, cell, firsts[v])
                    &&& grid.voxels[v] == points_in(grid, points, cell)
                }
            &&& forall|u: int, v: int|
                #![trigger firsts[u], firsts[v]]
                0 <= u < v < firsts.len() ==> firsts[u] < firsts[v]
            &&& forall|i: int|
                #![trigger points[i]]
                0 <= i < points.len() ==> exists|v: int|
                    0 <= v < firsts.len() && grid.cell_of(points[#[trigger] firsts[v]])
                        == grid.cell_of(points[i])
            &&& grid.r_point == r_point
            &&& grid.lo == box_over(points).lo
            &&& grid.bounds == box_over(points)
        }),
{
    let b = box_over(points);
    let start = VoxelGrid::sized(b, voxel_width, r_point);
    let grid = grid_over(points, voxel_width, r_point, k);
    assert(points[0].len() == k);
    lemma_box_len(Bounds::at(points[0]), points.drop_first());
    assert(start.wf());
    start.insert_all_preserves_wf(points);
    let after = start.insert_all(points);
    let firsts = voxels_hold_their_points_in_order(start, points);
    let cells = after.cells();
    assert forall|p: Seq<A>| #[trigger] grid.cell_of(p) == start.cell_of(p) by {}
    assert forall|v: int| #![trigger firsts[v]] 0 <= v < firsts.len() implies {
        let cell = grid.cell_of(points[firsts[v]]);
        &&& is_first_in(grid, points, cell, firsts[v])
        &&& grid.voxels[v] == points_in(grid, points, cell)
        &&& cell == cells[v]
    } by {
        assert(is_first_in(start, points, cells[v], firsts[v]));
        let cell = grid.cell_of(points[firsts[v]]);
        assert forall|j: int| 0 <= j < firsts[v] implies grid.cell_of(#[trigger] points[j])
            != cell by {
            assert(start.cell_of(points[j]) != cells[v]);
        }
        lemma_same_points_in(start, grid, points, cell);
    }
    assert forall|i: int| #![trigger points[i]] 0 <= i < points.len() implies exists|v: int|
        0 <= v < firsts.len() && grid.cell_of(points[#[trigger] firsts[v]]) == grid.cell_of(
            points[i],
        ) by {
        assert(cells.contains(start.cell_of(points[i])));
        let v = choose|v: int| 0 <= v < cells.len() && cells[v] == start.cell_of(points[i]);
        assert(is_first_in(start, points, cells[v], firsts[v]));
    }
    firsts
}

proof fn lemma_box_len<A: Axis>(b: Bounds<A>, points: Seq<Seq<A>>)
    ensures
        b.extend_all(points).lo.len() == b.lo.len(),
        b.extend_all(points).hi.len() == b.hi.len(),
    decreases points.len(),
{
    if points.len() > 0 {
        lemma_box_len(b, points.drop_last());
    }
}

proof fn lemma_same_points_in<A: Axis>(
    a: VoxelGrid<A>,
    b: VoxelGrid<A>,
    points: Seq<Seq<A>>,
    cell: Seq<usize>,
)
    requires
        forall|p: Seq<A>| #[trigger] b.cell_of(p) == a.cell_of(p),
    ensures
        points_in(a, points, cell) == points_in(b, points, cell),
    decreases points.len(),
{
    reveal(Seq::filter);
    if points.len() > 0 {
        lemma_same_points_in(a, b, points.drop_last(), cell);
        assert(b.cell_of(points.last()) == a.cell_of(points.last()));
    }
}

} // verus!

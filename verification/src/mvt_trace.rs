//! A query against a voxel table, step by step: the test of the bounding box, the window of cells,
//! and what is found in each of them.

use crate::aabb::cloud;
use crate::axis::{gt, le, plus, Axis};
use crate::index::Index;
use crate::kd_search::{check_in_order, checked_of, first_within, lemma_first_within};
use crate::laws::{boxes_lose_nothing, covered, rounds_monotonically};
use crate::mutable::MutableMvt;
use crate::scan::{any_within, distsq};
use crate::voxel_grid::VoxelGrid;
use crate::window::{
    between, lemma_first_rank, lemma_rank_bound, lemma_rank_injective, next_cell, rank, volume,
};
use vstd::prelude::*;

verus! {

/// What a query finds in a cell.
#[derive(Clone, Copy, Debug, PartialEq, Eq, Structural)]
pub enum CellState {
    /// No points.
    Empty,
    /// Points, but their bounding box is out of range.
    OutOfRange,
    /// So many points, whose bounding box is in range; they are checked.
    Checked(usize),
}

/// A cell that a query visits.
#[derive(Clone, Copy, Debug)]
pub struct CellVisit {
    pub coords: [usize; 3],
    pub state: CellState,
}

/// What a query with center `c` and radius `r` finds in a cell of `grid`.
pub open spec fn state_of<A: Axis>(grid: VoxelGrid<A>, cell: Seq<usize>, c: Seq<A>, r: A) -> CellState {
    if !grid.cells().contains(cell) {
        CellState::Empty
    } else {
        let v = grid.cells().index_of(cell);
        if gt(grid.voxel_bounds(v).closest_distsq(c, 3), r.square_spec()) {
            CellState::OutOfRange
        } else {
            CellState::Checked(grid.voxels[v].len() as usize)
        }
    }
}

/// Whether a step-by-step search with center `c` and radius `r` finds a point in voxel `v`: its
/// cell lies in the window, its box is not out of range and one of its points is close enough.
pub open spec fn turns_up<A: Axis>(grid: VoxelGrid<A>, v: int, c: Seq<A>, r: A) -> bool {
    &&& grid.in_window(grid.cells()[v], c, r)
    &&& !gt(grid.voxel_bounds(v).closest_distsq(c, 3), r.square_spec())
    &&& any_within(grid.voxels[v], c, r.square_spec())
}

/// What a step-by-step query answers.
pub open spec fn trace_hit<A: Axis>(grid: VoxelGrid<A>, c: Seq<A>, radius: A) -> bool {
    let r = plus(radius, grid.r_point);
    &&& !gt(grid.bounds.closest_distsq(c, 3), r.square_spec())
    &&& exists|v: int| 0 <= v < grid.voxels.len() && #[trigger] turns_up(grid, v, c, r)
}

/// A step-by-step query answers what the query itself does.
pub proof fn trace_is_a_query<A: Axis>(grid: VoxelGrid<A>, c: Seq<A>, radius: A)
    requires
        rounds_monotonically::<A>(),
        grid.wf(),
        covered(grid),
        grid.dim() == 3,
        c.len() == 3,
    ensures
        trace_hit(grid, c, radius) == grid.hit(c, radius),
{
    let r = plus(radius, grid.r_point);
    boxes_lose_nothing(grid, c, radius);
    if grid.hit(c, radius) {
        let v = choose|v: int| 0 <= v < grid.voxels.len() && #[trigger] grid.finds_in(v, c, r);
        assert(turns_up(grid, v, c, r));
    }
    if trace_hit(grid, c, radius) {
        let v = choose|v: int| 0 <= v < grid.voxels.len() && #[trigger] turns_up(grid, v, c, r);
        let i = choose|i: int|
            0 <= i < grid.voxels[v].len() && le(
                distsq(#[trigger] grid.voxels[v][i], c),
                r.square_spec(),
            );
        assert(grid.cell_of(grid.voxels[v][i]) == grid.cells()[v]);
    }
}

/// The steps of a query.
#[derive(Clone, Debug)]
pub struct QueryTrace<A> {
    /// Whether the bounding box of all points is out of range; then there are no further steps.
    pub culled: bool,
    /// The first cell of the window.
    pub first: [usize; 3],
    /// The last cell of the window.
    pub last: [usize; 3],
    /// The cells that were visited, in order.
    pub visits: Vec<CellVisit>,
    /// The points that were checked, in order.
    pub checked: Vec<[A; 3]>,
    /// The point that was found.
    pub hit: Option<[A; 3]>,
}

/// Whether `visits` are the first cells of the window from `first` to `last`, in the order of the
/// walk, each with what is found in it.
pub open spec fn visits_in_order<A: Axis>(
    visits: Seq<CellVisit>,
    grid: VoxelGrid<A>,
    c: Seq<A>,
    r: A,
) -> bool {
    forall|i: int|
        #![trigger visits[i]]
        0 <= i < visits.len() ==> {
            &&& grid.in_window(visits[i].coords@, c, r)
            &&& rank(
                grid.window_first(c, r),
                grid.window_last(c, r),
                visits[i].coords@,
                3,
            ) == i
            &&& visits[i].state == state_of(grid, visits[i].coords@, c, r)
        }
}

/// The points that are checked in a cell: up to the first that is close enough.
pub open spec fn checked_rows<A: Axis>(points: Seq<Seq<A>>, c: Seq<A>, rsq: A) -> Seq<Seq<A>>
    decreases points.len(),
{
    if points.len() == 0 {
        Seq::empty()
    } else if le(distsq(points[0], c), rsq) {
        seq![points[0]]
    } else {
        seq![points[0]] + checked_rows(points.skip(1), c, rsq)
    }
}

/// The points that are checked in the visited cells, in order.
pub open spec fn checked_in<A: Axis>(
    visits: Seq<CellVisit>,
    grid: VoxelGrid<A>,
    c: Seq<A>,
    r: A,
) -> Seq<Seq<A>>
    decreases visits.len(),
{
    if visits.len() == 0 {
        Seq::empty()
    } else {
        let sofar = checked_in(visits.drop_last(), grid, c, r);
        match visits.last().state {
            CellState::Checked(_) => {
                let v = grid.cells().index_of(visits.last().coords@);
                sofar + checked_rows(grid.voxels[v], c, r.square_spec())
            },
            _ => sofar,
        }
    }
}

proof fn lemma_checked_rows<A: Axis>(points: Seq<[A; 3]>, c: Seq<A>, rsq: A)
    ensures
        cloud(checked_of(points, c, rsq)) == checked_rows(cloud(points), c, rsq),
    decreases points.len(),
{
    if points.len() == 0 {
        assert(cloud(checked_of(points, c, rsq)) =~= Seq::<Seq<A>>::empty());
    } else {
        lemma_checked_rows(points.skip(1), c, rsq);
        assert(cloud(points.skip(1)) =~= cloud(points).skip(1));
        assert(cloud(checked_of(points, c, rsq)) =~= checked_rows(cloud(points), c, rsq));
    }
}

/// Query `mvt` for a point within `radius` of `center`, recording every step.
pub fn run_query<A: Axis, I: Index>(mvt: &MutableMvt<3, A, I>, center: &[A; 3], radius: A) -> (t:
    QueryTrace<A>)
    requires
        mvt.wf(),
    ensures
        t.hit is Some == trace_hit(mvt@, center@, radius),
        ({
            let r = plus(radius, mvt@.r_point);
            let first = mvt@.window_first(center@, r);
            let last = mvt@.window_last(center@, r);
            &&& t.culled == gt(mvt@.bounds.closest_distsq(center@, 3), r.square_spec())
            &&& t.culled ==> t.visits@.len() == 0 && t.checked@.len() == 0
            &&& !t.culled ==> {
                &&& t.first@ == first
                &&& t.last@ == last
                &&& visits_in_order(t.visits@, mvt@, center@, r)
                &&& cloud(t.checked@) == checked_in(t.visits@, mvt@, center@, r)
                // Without a hit the walk ends with the last cell, otherwise with the first cell in
                // which a point turns up.
                &&& t.hit is None ==> t.visits@.len() == volume(first, last, 3)
                &&& t.hit is Some ==> {
                    &&& t.visits@.len() > 0
                    &&& exists|v: int|
                        0 <= v < mvt@.voxels.len() && #[trigger] turns_up(mvt@, v, center@, r)
                            && mvt@.cells()[v] == t.visits@.last().coords@
                    &&& forall|v: int|
                        0 <= v < mvt@.voxels.len() && #[trigger] turns_up(mvt@, v, center@, r)
                            ==> rank(first, last, mvt@.cells()[v], 3) >= t.visits@.len() - 1
                }
            }
            &&& t.hit matches Some(p) ==> le(distsq(p@, center@), r.square_spec()) && t.checked@.len()
                > 0 && t.checked@.last() == p
        }),
{
    let ghost grid = mvt@;
    let ghost c = center@;
    proof {
        A::total_operators();
        mvt.view_is_wf();
    }
    let r = radius + mvt.point_radius();
    let rsq = r.square();
    let mut visits: Vec<CellVisit> = Vec::new();
    let mut checked: Vec<[A; 3]> = Vec::new();
    if mvt.bounding_box().closest_distsq_to(center) > rsq {
        return QueryTrace {
            culled: true,
            first: [0; 3],
            last: [0; 3],
            visits,
            checked,
            hit: None,
        };
    }
    let (first, last) = mvt.window_around(center, r);
    let mut coords: [usize; 3] = first;
    proof {
        lemma_first_rank(first@, last@, 3);
        assert(between(first@, last@, coords@));
        lemma_rank_bound(first@, last@, coords@, 3);
        assert(cloud(checked@) =~= checked_in(visits@, grid, c, r));
    }
    loop
        invariant
            mvt.wf(),
            grid == mvt@,
            grid.wf(),
            grid.dim() == 3,
            c == center@,
            rsq == r.square_spec(),
            r == plus(radius, grid.r_point),
            !gt(grid.bounds.closest_distsq(c, 3), rsq),
            first@ == grid.window_first(c, r),
            last@ == grid.window_last(c, r),
            between(first@, last@, coords@),
            rank(first@, last@, coords@, 3) < volume(first@, last@, 3),
            visits@.len() == rank(first@, last@, coords@, 3),
            visits_in_order(visits@, grid, c, r),
            cloud(checked@) == checked_in(visits@, grid, c, r),
            forall|v: int|
                0 <= v < grid.voxels.len() && #[trigger] turns_up(grid, v, c, r) ==> rank(
                    first@,
                    last@,
                    grid.cells()[v],
                    3,
                ) >= rank(first@, last@, coords@, 3),
        decreases volume(first@, last@, 3) - rank(first@, last@, coords@, 3),
    {
        proof {
            A::total_operators();
            mvt.lemma_window_cell(first@, last@, coords@, c, r);
        }
        let ghost here = coords@;
        let ghost checked_before = checked@;
        let found: Option<usize> = mvt.lookup_voxel(&coords);
        let mut state: CellState = CellState::Empty;
        let mut hit: Option<[A; 3]> = None;
        if let Some(v) = found {
            let (aabb, points) = mvt.voxel(v);
            proof {
                assert(grid.cells()[v as int] == here);
                assert(grid.cells().contains(here));
                let s = grid.cells().index_of(here);
                assert(grid.cells()[s] == here);
                assert(s == v);
            }
            if aabb.closest_distsq_to(center) > rsq {
                state = CellState::OutOfRange;
            } else {
                state = CellState::Checked(points.len());
                let (mut checked_here, hit_here) = check_in_order(&points, center, rsq);
                proof {
                    lemma_first_within(points@, c, rsq);
                    lemma_last_checked(points@, c, rsq);
                    lemma_checked_rows(points@, c, rsq);
                    assert(cloud(points@) == grid.voxels[v as int]);
                }
                let ghost more = checked_here@;
                checked.append(&mut checked_here);
                assert(cloud(checked@) =~= cloud(checked_before) + cloud(more));
                hit = hit_here;
                assert(hit is Some <==> turns_up(grid, v as int, c, r));
            }
        }
        let ghost before = visits@;
        visits.push(CellVisit { coords, state });
        proof {
            assert(state == state_of(grid, here, c, r));
            assert(visits@.drop_last() =~= before);
            assert(cloud(checked@) == checked_in(visits@, grid, c, r));
            assert forall|i: int|
                #![trigger visits@[i]]
                0 <= i < visits@.len() implies {
                &&& grid.in_window(visits@[i].coords@, c, r)
                &&& rank(first@, last@, visits@[i].coords@, 3) == i
                &&& visits@[i].state == state_of(grid, visits@[i].coords@, c, r)
            } by {
                if i < before.len() {
                    assert(visits@[i] == before[i]);
                }
            }
        }
        if hit.is_some() {
            assert(turns_up(grid, found->0 as int, c, r));
            return QueryTrace { culled: false, first, last, visits, checked, hit };
        }
        proof {
            assert forall|v: int|
                0 <= v < grid.voxels.len() && #[trigger] turns_up(grid, v, c, r) implies rank(
                first@,
                last@,
                grid.cells()[v],
                3,
            ) > rank(first@, last@, here, 3) by {
                let cell = grid.cells()[v];
                if rank(first@, last@, cell, 3) == rank(first@, last@, here, 3) {
                    lemma_rank_injective(first@, last@, cell, here, 3);
                    assert(cell =~= here);
                    assert(grid.cells().contains(here));
                    let f = found->0 as int;
                    assert(grid.cells()[f] == here);
                    assert(f == v);
                }
            }
        }
        if !next_cell(&mut coords, &first, &last) {
            proof {
                assert forall|v: int| 0 <= v < grid.voxels.len() implies !#[trigger] turns_up(
                    grid,
                    v,
                    c,
                    r,
                ) by {
                    if turns_up(grid, v, c, r) {
                        lemma_rank_bound(first@, last@, grid.cells()[v], 3);
                    }
                }
            }
            return QueryTrace { culled: false, first, last, visits, checked, hit: None };
        }
    }
}

/// The point that is found is the last that is checked.
proof fn lemma_last_checked<A: Axis>(points: Seq<[A; 3]>, c: Seq<A>, rsq: A)
    ensures
        first_within(points, c, rsq) matches Some(p) ==> checked_of(points, c, rsq).len() > 0
            && checked_of(points, c, rsq).last() == p,
    decreases points.len(),
{
    if points.len() > 0 {
        lemma_last_checked(points.skip(1), c, rsq);
    }
}

} // verus!

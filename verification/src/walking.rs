//! How a query walks through its window, and what it meets there.

use crate::axis::{gt, le, Axis};
use crate::mvt_trace::{
    checked_in, checked_rows, state_of, visits_in_order, CellState, CellVisit,
};
use crate::scan::distsq;
use crate::voxel_grid::VoxelGrid;
use crate::window::{between, lemma_rank_bound, lemma_rank_injective, rank, volume};
use vstd::prelude::*;

verus! {

// ---------------------------------------------------------------------------------------------
// The order of the walk
// ---------------------------------------------------------------------------------------------

/// Whether `a` differs from `b` on one of the first `n` axes, and is below it on the last of those
/// on which they differ.
pub open spec fn comes_before(a: Seq<usize>, b: Seq<usize>, n: nat) -> bool
    decreases n,
{
    n > 0 && (a[n - 1] < b[n - 1] || (a[n - 1] == b[n - 1] && comes_before(a, b, (n - 1) as nat)))
}

proof fn lemma_rank_below(
    first: Seq<usize>,
    last: Seq<usize>,
    a: Seq<usize>,
    b: Seq<usize>,
    m: nat,
)
    requires
        between(first, last, a),
        between(first, last, b),
        m < first.len(),
        a[m as int] < b[m as int],
    ensures
        rank(first, last, a, m + 1) < rank(first, last, b, m + 1),
{
    lemma_rank_bound(first, last, a, m);
    assert(first[m as int] <= a[m as int] && first[m as int] <= b[m as int]);
    let v = volume(first, last, m);
    let ra = rank(first, last, a, m);
    let rb = rank(first, last, b, m);
    let da = (a[m as int] - first[m as int]) as nat;
    let db = (b[m as int] - first[m as int]) as nat;
    assert(ra + v * da < rb + v * db) by (nonlinear_arith)
        requires
            ra < v,
            da + 1 <= db,
    ;
}

/// The walk steps along axis 0 fastest: of two cells, the one that is below on the last axis on which
/// they differ comes first.
pub proof fn walk_steps_along_the_first_axis_fastest(
    first: Seq<usize>,
    last: Seq<usize>,
    a: Seq<usize>,
    b: Seq<usize>,
    n: nat,
)
    requires
        between(first, last, a),
        between(first, last, b),
        n <= first.len(),
    ensures
        rank(first, last, a, n) < rank(first, last, b, n) <==> comes_before(a, b, n),
    decreases n,
{
    if n > 0 {
        let m = (n - 1) as nat;
        walk_steps_along_the_first_axis_fastest(first, last, a, b, m);
        if a[m as int] < b[m as int] {
            lemma_rank_below(first, last, a, b, m);
        } else if b[m as int] < a[m as int] {
            lemma_rank_below(first, last, b, a, m);
        }
    }
}

/// The walk visits every cell of the window: there is one at each of its steps, of which there are as
/// many as the widths of the window multiply to.
pub proof fn walk_has_a_cell_at_every_step(
    first: Seq<usize>,
    last: Seq<usize>,
    step: nat,
    n: nat,
) -> (cell: Seq<usize>)
    requires
        first.len() == n,
        last.len() == n,
        forall|k: int| 0 <= k < n ==> #[trigger] first[k] <= last[k],
        step < volume(first, last, n),
    ensures
        between(first, last, cell),
        rank(first, last, cell, n) == step,
    decreases n,
{
    if n == 0 {
        Seq::empty()
    } else {
        let m = (n - 1) as nat;
        let f = first.drop_last();
        let l = last.drop_last();
        lemma_same_volume(first, last, f, l, m);
        let v = volume(first, last, m);
        assert(first[m as int] <= last[m as int]);
        let s = (last[m as int] - first[m as int] + 1) as nat;
        assert(v > 0) by (nonlinear_arith)
            requires
                step < v * s,
        ;
        let d = step / v;
        let r = step % v;
        assert(step == v * d + r) by {
            vstd::arithmetic::div_mod::lemma_fundamental_div_mod(step as int, v as int);
        }
        assert(d < s) by (nonlinear_arith)
            requires
                step == v * d + r,
                step < v * s,
                v > 0,
        ;
        assert(r < v) by {
            vstd::arithmetic::div_mod::lemma_mod_bound(step as int, v as int);
        }
        assert forall|k: int| 0 <= k < m implies #[trigger] f[k] <= l[k] by {
            assert(first[k] <= last[k]);
        }
        let below = walk_has_a_cell_at_every_step(f, l, r, m);
        let cell = below.push((first[m as int] + d) as usize);
        lemma_same_rank(first, last, cell, f, l, below, m);
        assert forall|k: int| 0 <= k < first.len() implies first[k] <= #[trigger] cell[k]
            <= last[k] by {
            if k < m {
                assert(f[k] <= below[k] <= l[k]);
            }
        }
        assert(rank(first, last, cell, n) == rank(first, last, cell, m) + v * d);
        cell
    }
}

proof fn lemma_same_volume(
    first: Seq<usize>,
    last: Seq<usize>,
    f: Seq<usize>,
    l: Seq<usize>,
    n: nat,
)
    requires
        n <= f.len() <= first.len(),
        n <= l.len() <= last.len(),
        forall|k: int| 0 <= k < n ==> #[trigger] f[k] == first[k],
        forall|k: int| 0 <= k < n ==> #[trigger] l[k] == last[k],
    ensures
        volume(f, l, n) == volume(first, last, n),
    decreases n,
{
    if n > 0 {
        lemma_same_volume(first, last, f, l, (n - 1) as nat);
        assert(f[n - 1] == first[n - 1] && l[n - 1] == last[n - 1]);
    }
}

proof fn lemma_same_rank(
    first: Seq<usize>,
    last: Seq<usize>,
    cell: Seq<usize>,
    f: Seq<usize>,
    l: Seq<usize>,
    c: Seq<usize>,
    n: nat,
)
    requires
        n <= f.len() <= first.len(),
        n <= l.len() <= last.len(),
        forall|k: int| 0 <= k < n ==> #[trigger] f[k] == first[k],
        forall|k: int| 0 <= k < n ==> #[trigger] l[k] == last[k],
        forall|k: int| 0 <= k < n ==> #[trigger] c[k] == cell[k],
    ensures
        rank(f, l, c, n) == rank(first, last, cell, n),
    decreases n,
{
    if n > 0 {
        lemma_same_rank(first, last, cell, f, l, c, (n - 1) as nat);
        lemma_same_volume(first, last, f, l, (n - 1) as nat);
        assert(f[n - 1] == first[n - 1] && c[n - 1] == cell[n - 1]);
    }
}

// ---------------------------------------------------------------------------------------------
// What is found in a cell
// ---------------------------------------------------------------------------------------------

/// Whether point `i` of voxel `v` is stored and falls into `cell`.
pub open spec fn is_stored_in<A: Axis>(
    grid: VoxelGrid<A>,
    cell: Seq<usize>,
    v: int,
    i: int,
) -> bool {
    &&& 0 <= v < grid.voxels.len()
    &&& 0 <= i < grid.voxels[v].len()
    &&& grid.cell_of(grid.voxels[v][i]) == cell
}

/// A query finds a cell empty exactly if no stored point falls into it. Otherwise it leaves the cell
/// out exactly if the box over its points is out of range, and checks all of its points if not.
pub proof fn cell_is_empty_or_checked<A: Axis>(
    grid: VoxelGrid<A>,
    cell: Seq<usize>,
    c: Seq<A>,
    r: A,
)
    requires
        grid.wf(),
        forall|v: int| 0 <= v < grid.voxels.len() ==> (#[trigger] grid.voxels[v]).len()
            <= usize::MAX,
    ensures
        state_of(grid, cell, c, r) == CellState::Empty <==> forall|v: int, i: int|
            !is_stored_in(grid, cell, v, i),
        forall|v: int, i: int| #[trigger]
            is_stored_in(grid, cell, v, i) ==> {
                let out_of_range = gt(
                    grid.voxel_bounds(v).closest_distsq(c, 3),
                    r.square_spec(),
                );
                &&& out_of_range <==> state_of(grid, cell, c, r) == CellState::OutOfRange
                &&& !out_of_range <==> state_of(grid, cell, c, r) == CellState::Checked(
                    grid.voxels[v].len() as usize,
                )
            },
{
    let cells = grid.cells();
    assert forall|v: int, i: int| #[trigger] is_stored_in(grid, cell, v, i) implies cells.contains(
        cell,
    ) && cells.index_of(cell) == v by {
        assert(grid.cell_of(grid.voxels[v][i]) == cells[v]);
        assert(cells[v] == cell);
        let u = cells.index_of(cell);
        assert(cells[u] == cells[v]);
    }
    if cells.contains(cell) {
        let v = cells.index_of(cell);
        assert(cells[v] == cell);
        assert(grid.voxels[v].len() > 0);
        assert(is_stored_in(grid, cell, v, 0));
    }
}

/// Points are checked in order up to the first that is close enough; where there is none, all of
/// them are checked.
pub proof fn checking_stops_at_the_first_hit<A: Axis>(
    points: Seq<Seq<A>>,
    c: Seq<A>,
    rsq: A,
) -> (n: int)
    ensures
        0 <= n <= points.len(),
        forall|i: int| 0 <= i < n ==> !le(distsq(#[trigger] points[i], c), rsq),
        n < points.len() ==> le(distsq(points[n], c), rsq) && checked_rows(points, c, rsq)
            == points.take(n + 1),
        n == points.len() ==> checked_rows(points, c, rsq) == points,
    decreases points.len(),
{
    if points.len() == 0 {
        assert(checked_rows(points, c, rsq) =~= points);
        0
    } else if le(distsq(points[0], c), rsq) {
        assert(checked_rows(points, c, rsq) =~= points.take(1));
        0
    } else {
        let rest = points.skip(1);
        let m = checking_stops_at_the_first_hit(rest, c, rsq);
        assert forall|i: int| 0 <= i < m + 1 implies !le(
            distsq(#[trigger] points[i], c),
            rsq,
        ) by {
            if i > 0 {
                assert(rest[i - 1] == points[i]);
            }
        }
        if m < rest.len() {
            assert(rest[m] == points[m + 1]);
            assert(checked_rows(points, c, rsq) =~= points.take(m + 2));
        } else {
            assert(checked_rows(points, c, rsq) =~= points);
        }
        m + 1
    }
}

/// The points that are checked are put together visit by visit. A visit to a cell that is checked
/// adds the points stored there, up to the first that is close enough; any other adds none.
pub proof fn visits_add_what_they_check<A: Axis>(
    a: Seq<CellVisit>,
    b: Seq<CellVisit>,
    visit: CellVisit,
    grid: VoxelGrid<A>,
    v: int,
    c: Seq<A>,
    r: A,
)
    requires
        grid.wf(),
    ensures
        checked_in(a + b, grid, c, r) == checked_in(a, grid, c, r) + checked_in(b, grid, c, r),
        !(visit.state is Checked) ==> checked_in(seq![visit], grid, c, r) == Seq::<
            Seq<A>,
        >::empty(),
        visit.state is Checked && is_stored_in(grid, visit.coords@, v, 0) ==> checked_in(
            seq![visit],
            grid,
            c,
            r,
        ) == checked_rows(grid.voxels[v], c, r.square_spec()),
    decreases b.len(),
{
    let one = seq![visit];
    assert(one.drop_last() =~= Seq::<CellVisit>::empty());
    assert(checked_in(one.drop_last(), grid, c, r) == Seq::<Seq<A>>::empty());
    if visit.state is Checked && is_stored_in(grid, visit.coords@, v, 0) {
        let cells = grid.cells();
        assert(cells[v] == visit.coords@);
        assert(cells.contains(visit.coords@));
        let u = cells.index_of(visit.coords@);
        assert(cells[u] == cells[v]);
        assert(checked_in(one, grid, c, r) =~= checked_rows(grid.voxels[v], c, r.square_spec()));
    }
    if b.len() == 0 {
        assert(a + b =~= a);
        assert(checked_in(a, grid, c, r) + Seq::<Seq<A>>::empty() =~= checked_in(a, grid, c, r));
    } else {
        visits_add_what_they_check(a, b.drop_last(), visit, grid, v, c, r);
        assert((a + b).drop_last() =~= a + b.drop_last());
        assert((a + b).last() == b.last());
        assert(checked_in(a + b, grid, c, r) =~= checked_in(a, grid, c, r) + checked_in(
            b,
            grid,
            c,
            r,
        ));
    }
}

/// The cells that a query visits lie in its window, and come in the order of the walk, without a gap
/// and without repetition.
pub proof fn visits_come_in_the_order_of_the_walk<A: Axis>(
    visits: Seq<CellVisit>,
    grid: VoxelGrid<A>,
    c: Seq<A>,
    r: A,
    i: int,
    j: int,
)
    requires
        visits_in_order(visits, grid, c, r),
        grid.dim() == 3,
        0 <= i < j < visits.len(),
    ensures
        comes_before(visits[i].coords@, visits[j].coords@, 3),
        grid.in_window(visits[i].coords@, c, r),
        forall|cell: Seq<usize>| #[trigger]
            grid.in_window(cell, c, r) && comes_before(visits[i].coords@, cell, 3) && comes_before(
                cell,
                visits[j].coords@,
                3,
            ) ==> exists|m: int| i < m < j && (#[trigger] visits[m]).coords@ == cell,
{
    let first = grid.window_first(c, r);
    let last = grid.window_last(c, r);
    let a = visits[i].coords@;
    let b = visits[j].coords@;
    walk_steps_along_the_first_axis_fastest(first, last, a, b, 3);
    assert forall|cell: Seq<usize>| #[trigger]
        grid.in_window(cell, c, r) && comes_before(a, cell, 3) && comes_before(
            cell,
            b,
            3,
        ) implies exists|m: int| i < m < j && (#[trigger] visits[m]).coords@ == cell by {
        walk_steps_along_the_first_axis_fastest(first, last, a, cell, 3);
        walk_steps_along_the_first_axis_fastest(first, last, cell, b, 3);
        let m = rank(first, last, cell, 3) as int;
        assert(i < m < j);
        let there = visits[m].coords@;
        assert(rank(first, last, there, 3) == m);
        lemma_rank_injective(first, last, there, cell, 3);
        assert(there =~= cell);
    }
}

} // verus!

//! How much room a table needs.
//!
//! An index has to stand for the start of every table of the hierarchy, for every voxel, and in an
//! `Mvt` for the start of every voxel's points and their number. Nothing else has to fit.

use crate::aabb::{all_finite, box_over, finite, Bounds};
use crate::axis::{gt, Axis};
use crate::construction::some_coordinate_is_not_finite;
use crate::grid::{is_cell, widths_fit, widths_of};
use crate::immutable::{new_error, points_before, pool_fits};
use crate::index::Index;
use crate::laws::{box_contains_its_points, cloud_has_a_valid_workspace, orders_values};
use crate::mutable::{cloud_error, insert_error};
use crate::occupancy::{
    growth, known, prefix_entries, table_len, table_len_is_one_table_per_prefix, tables_fit,
};
use crate::voxel_grid::VoxelGrid;
use vstd::prelude::*;

verus! {

/// Whether the index type represents the numbers up to `cap`, and no others.
pub open spec fn counts_exactly_to<I: Index>(cap: int) -> bool {
    forall|x: usize| (#[trigger] I::from_usize_spec(x)) is Some <==> x <= cap
}

// ---------------------------------------------------------------------------------------------
// Tables
// ---------------------------------------------------------------------------------------------

/// A prefix of a known path is known.
proof fn lemma_known_prefix(cells: Seq<Seq<usize>>, cell: Seq<usize>, a: int, b: int)
    requires
        0 <= a <= b <= cell.len(),
        known(cells, cell.take(b)),
        forall|j: int| 0 <= j < cells.len() ==> (#[trigger] cells[j]).len() == cell.len(),
    ensures
        known(cells, cell.take(a)),
{
    let j = choose|j: int|
        0 <= j < cells.len() && (#[trigger] cells[j]).take(cell.take(b).len() as int)
            == cell.take(b);
    assert(cells[j].take(b).take(a) =~= cells[j].take(a));
    assert(cell.take(b).take(a) =~= cell.take(a));
    assert(cells[j].take(cell.take(a).len() as int) == cell.take(a));
}

proof fn lemma_growth_below(
    widths: Seq<usize>,
    cells: Seq<Seq<usize>>,
    cell: Seq<usize>,
    level: int,
)
    requires
        0 <= level < widths.len(),
        cell.len() == widths.len(),
        forall|j: int| 0 <= j < cells.len() ==> (#[trigger] cells[j]).len() == cell.len(),
        !known(cells, cell.take(level)),
    ensures
        growth(widths, cells, cell, level) >= widths.last(),
    decreases widths.len() - level,
{
    if level + 1 < widths.len() {
        if known(cells, cell.take(level + 1)) {
            lemma_known_prefix(cells, cell, level, level + 1);
        }
        lemma_growth_below(widths, cells, cell, level + 1);
    }
}

/// The tables that a cell adds fit exactly if the address space has room for all of them, and the
/// index type represents where the last of them starts.
proof fn lemma_tables_fit<I: Index>(
    widths: Seq<usize>,
    cells: Seq<Seq<usize>>,
    cell: Seq<usize>,
    level: int,
    len: int,
    cap: int,
)
    requires
        counts_exactly_to::<I>(cap),
        0 <= level,
        0 <= len,
        cell.len() == widths.len(),
        forall|j: int| 0 <= j < cells.len() ==> (#[trigger] cells[j]).len() == cell.len(),
        forall|k: int| 0 <= k < widths.len() ==> #[trigger] widths[k] >= 1,
    ensures
        ({
            let g = growth(widths, cells, cell, level);
            tables_fit::<I>(widths, cells, cell, level, len) <==> g == 0 || (len + g <= usize::MAX
                && len + g - widths.last() <= cap)
        }),
    decreases widths.len() - level,
{
    if level < widths.len() {
        assert(widths[level] >= 1);
        if known(cells, cell.take(level)) {
            lemma_tables_fit::<I>(widths, cells, cell, level + 1, len, cap);
        } else {
            lemma_tables_fit::<I>(widths, cells, cell, level + 1, len + widths[level], cap);
            if level + 1 < widths.len() {
                if known(cells, cell.take(level + 1)) {
                    lemma_known_prefix(cells, cell, level, level + 1);
                }
                lemma_growth_below(widths, cells, cell, level + 1);
                assert(widths[widths.len() - 1] >= 1);
            }
        }
    }
}

/// Whether there is room for a hierarchy over `cells`: the address space holds all of its tables, the
/// index type represents where the last of them starts, if there is one beside the root table, and
/// it represents every voxel.
pub open spec fn tables_have_room(widths: Seq<usize>, cells: Seq<Seq<usize>>, cap: int) -> bool {
    let entries = widths[0] + prefix_entries(widths, cells, 1);
    &&& entries <= usize::MAX
    &&& entries == widths[0] || entries - widths.last() <= cap
    &&& cells.len() - 1 <= cap
}

proof fn lemma_inserts_have_room<A: Axis, I: Index>(
    grid: VoxelGrid<A>,
    points: Seq<Seq<A>>,
    cap: int,
)
    requires
        counts_exactly_to::<I>(cap),
        0 <= cap,
        grid.wf(),
        grid.voxels.len() == 0,
        points.len() <= usize::MAX,
        forall|i: int| 0 <= i < points.len() ==> (#[trigger] points[i]).len() == grid.dim(),
    ensures
        grid.fits_all::<I>(points) <==> tables_have_room(
            grid.widths,
            grid.insert_all(points).cells(),
            cap,
        ),
        grid.insert_all(points).cells().len() <= points.len(),
        forall|j: int|
            0 <= j < grid.insert_all(points).cells().len() ==> is_cell(
                grid.widths,
                #[trigger] grid.insert_all(points).cells()[j],
            ),
    decreases points.len(),
{
    let widths = grid.widths;
    let after = grid.insert_all(points);
    let cells = after.cells();
    assert(widths[0] >= 1);
    grid.insert_all_preserves_wf(points);
    assert forall|j: int| 0 <= j < cells.len() implies is_cell(widths, #[trigger] cells[j]) by {
        assert(cells[j] == after.cell_of(after.voxels[j][0]));
        assert forall|a: int| 0 <= a < widths.len() implies #[trigger] cells[j][a] < widths[a] by {
            assert(grid.widths[a] >= 1);
        }
    }
    table_len_is_one_table_per_prefix(widths, cells);
    if points.len() == 0 {
        assert(cells =~= Seq::<Seq<usize>>::empty());
    } else {
        let fewer = points.drop_last();
        let p = points[points.len() - 1];
        assert forall|i: int| 0 <= i < fewer.len() implies (#[trigger] fewer[i]).len()
            == grid.dim() by {
            assert(fewer[i] == points[i]);
            assert(points[i].len() == grid.dim());
        }
        lemma_inserts_have_room::<A, I>(grid, fewer, cap);
        grid.insert_all_preserves_wf(fewer);
        let before = grid.insert_all(fewer);
        assert(p.len() == grid.dim());
        before.insert_preserves_wf(p);
        let known_cells = before.cells();
        let cell = before.cell_of(p);
        table_len_is_one_table_per_prefix(widths, known_cells);
        if known_cells.contains(cell) {
            assert(cells == known_cells);
        } else {
            assert(cells == known_cells.push(cell));
            assert(cells.drop_last() =~= known_cells);
            assert(cells.last() == cell);
            assert forall|j: int| 0 <= j < known_cells.len() implies (
            #[trigger] known_cells[j]).len() == cell.len() by {
                assert(is_cell(widths, known_cells[j]));
            }
            lemma_tables_fit::<I>(
                widths,
                known_cells,
                cell,
                1,
                table_len(widths, known_cells) as int,
                cap,
            );
            assert(before.fits::<I>(p) <==> known_cells.len() <= cap && tables_fit::<I>(
                widths,
                known_cells,
                cell,
                1,
                table_len(widths, known_cells) as int,
            ));
        }
    }
}

// ---------------------------------------------------------------------------------------------
// The pool
// ---------------------------------------------------------------------------------------------

/// Whether there is room for the pool of the points of `voxels`: the address space holds `k`
/// coordinates for each point, and the index type represents where the points of the last voxel start
/// and how many points each voxel has.
pub open spec fn pool_has_room<A>(voxels: Seq<Seq<Seq<A>>>, k: nat, cap: int) -> bool {
    &&& voxels.flatten().len() * k <= usize::MAX
    &&& voxels.len() > 0 ==> (voxels.flatten().len() - voxels.last().len()) * k <= cap
    &&& forall|v: int| 0 <= v < voxels.len() ==> (#[trigger] voxels[v]).len() <= cap
}

proof fn lemma_flatten_parts<T>(seqs: Seq<Seq<T>>, v: int)
    requires
        0 <= v < seqs.len(),
    ensures
        seqs.take(v).flatten().len() + seqs[v].len() <= seqs.flatten().len(),
        seqs.take(v).flatten().len() <= seqs.drop_last().flatten().len(),
        seqs.flatten().len() == seqs.drop_last().flatten().len() + seqs.last().len(),
    decreases seqs.len(),
{
    let fewer = seqs.drop_last();
    seqs.lemma_flatten_and_flatten_alt_are_equivalent();
    fewer.lemma_flatten_and_flatten_alt_are_equivalent();
    if v < fewer.len() {
        lemma_flatten_parts(fewer, v);
        assert(fewer.take(v) =~= seqs.take(v));
    } else {
        assert(seqs.take(v) =~= fewer);
    }
}

proof fn lemma_pool_room<A, I: Index>(voxels: Seq<Seq<Seq<A>>>, k: nat, cap: int)
    requires
        counts_exactly_to::<I>(cap),
        k > 0,
        0 <= cap,
    ensures
        pool_fits::<A, I>(voxels, k) <==> pool_has_room(voxels, k, cap),
{
    let total = voxels.flatten().len();
    assert(voxels.take(voxels.len() as int) =~= voxels);
    assert(points_before(voxels, voxels.len() as int) == total);
    if total * k <= usize::MAX && voxels.len() > 0 {
        let last = voxels.len() - 1;
        lemma_flatten_parts(voxels, last);
        assert(voxels.take(last) =~= voxels.drop_last());
        assert(points_before(voxels, last) == total - voxels.last().len());
        assert(total <= total * k) by (nonlinear_arith)
            requires
                k >= 1,
        ;
        assert forall|v: int| 0 <= v < voxels.len() implies points_before(voxels, v) * k
            <= points_before(voxels, last) * k && points_before(voxels, last) * k <= total * k && (
        #[trigger] voxels[v]).len() <= total by {
            lemma_flatten_parts(voxels, v);
            let a = points_before(voxels, v);
            let b = points_before(voxels, last);
            assert(a * k <= b * k) by (nonlinear_arith)
                requires
                    a <= b,
            ;
            assert(b * k <= total * k) by (nonlinear_arith)
                requires
                    b <= total,
            ;
        }
        if pool_fits::<A, I>(voxels, k) {
            assert(I::from_usize_spec((points_before(voxels, last) * k) as usize) is Some) by {
                assert(voxels[last] == voxels.last());
            }
            assert forall|v: int| 0 <= v < voxels.len() implies (#[trigger] voxels[v]).len()
                <= cap by {
                assert(I::from_usize_spec(voxels[v].len() as usize) is Some);
            }
        }
        if pool_has_room(voxels, k, cap) {
            assert forall|v: int|
                #![trigger voxels[v]]
                0 <= v < voxels.len() implies {
                &&& I::from_usize_spec((points_before(voxels, v) * k) as usize) is Some
                &&& I::from_usize_spec(voxels[v].len() as usize) is Some
            } by {
                assert(voxels[v].len() <= cap);
            }
        }
    }
}

// ---------------------------------------------------------------------------------------------
// Whole tables
// ---------------------------------------------------------------------------------------------

/// A table over a finite cloud that has points is built, with a positive voxel width, exactly if the
/// index type represents the number of voxels along each axis and there is room for the hierarchy;
/// an `Mvt` needs room for the pool of its points as well.
pub proof fn table_is_built_exactly_where_there_is_room<A: Axis, I: Index>(
    points: Seq<Seq<A>>,
    voxel_width: A,
    r_point: A,
    k: nat,
    cap: int,
)
    requires
        orders_values::<A>(),
        k > 0,
        0 < points.len() <= usize::MAX,
        forall|i: int| 0 <= i < points.len() ==> (#[trigger] points[i]).len() == k,
        !some_coordinate_is_not_finite(points),
        gt(voxel_width, A::ZERO),
        counts_exactly_to::<I>(cap),
        0 <= cap,
    ensures
        ({
            let b = box_over(points);
            let widths = widths_of(b, voxel_width);
            let grid = VoxelGrid::sized(b, voxel_width, r_point).insert_all(points);
            let narrow = forall|a: int| 0 <= a < k ==> #[trigger] widths[a] <= cap;
            let room = narrow && tables_have_room(widths, grid.cells(), cap);
            &&& cloud_error::<A, I>(points, voxel_width, r_point) is None <==> room
            &&& new_error::<A, I>(points, voxel_width, r_point, k) is None <==> room
                && pool_has_room(grid.voxels, k, cap)
        }),
{
    let b = box_over(points);
    let widths = widths_of(b, voxel_width);
    let start = VoxelGrid::sized(b, voxel_width, r_point);
    let grid = start.insert_all(points);
    assert(all_finite(points)) by {
        assert forall|i: int| 0 <= i < points.len() implies finite(
            #[trigger] points[i],
        ) by {
            assert forall|a: int| 0 <= a < points[i].len() implies (
            #[trigger] points[i][a]).is_finite_spec() by {}
        }
    }
    assert(points[0].len() == k);
    lemma_box_len(Bounds::at(points[0]), points.drop_first());
    assert(start.wf());
    assert(widths.len() == k);
    assert(widths_fit::<I>(widths) <==> forall|a: int|
        0 <= a < k ==> #[trigger] widths[a] <= cap) by {
        if widths_fit::<I>(widths) {
            assert forall|a: int| 0 <= a < k implies #[trigger] widths[a] <= cap by {
                assert(I::from_usize_spec(widths[a]) is Some);
            }
        }
    }
    lemma_inserts_have_room::<A, I>(start, points, cap);
    lemma_pool_room::<A, I>(grid.voxels, k, cap);
    cloud_has_a_valid_workspace::<A, I>(points, voxel_width, r_point, k);
    box_contains_its_points(points, k);
}

/// A finite point is inserted exactly if its cell is occupied already, or there is room: the index
/// type represents one more voxel, and, where the cell adds tables, the address space holds all of
/// them and the index type represents where the last of them starts.
pub proof fn point_is_inserted_exactly_where_there_is_room<A: Axis, I: Index>(
    grid: VoxelGrid<A>,
    p: Seq<A>,
    cap: int,
)
    requires
        counts_exactly_to::<I>(cap),
        0 <= cap,
        grid.wf(),
        grid.voxels.len() <= usize::MAX,
        p.len() == grid.dim(),
        finite(p),
    ensures
        ({
            let widths = grid.widths;
            let cells = grid.cells();
            let cell = grid.cell_of(p);
            let before = widths[0] + prefix_entries(widths, cells, 1);
            let after = widths[0] + prefix_entries(widths, cells.push(cell), 1);
            insert_error::<A, I>(grid, p) is None <==> {
                ||| cells.contains(cell)
                ||| {
                    &&& cells.len() <= cap
                    &&& after == before || (after <= usize::MAX && after - widths.last() <= cap)
                }
            }
        }),
{
    let widths = grid.widths;
    let cells = grid.cells();
    let cell = grid.cell_of(p);
    let more = cells.push(cell);
    assert forall|k: int| 0 <= k < widths.len() implies #[trigger] cell[k] < widths[k] by {
        assert(grid.widths[k] >= 1);
    }
    assert(is_cell(widths, cell));
    assert forall|j: int| 0 <= j < cells.len() implies is_cell(widths, #[trigger] cells[j])
        && cells[j].len() == cell.len() by {
        assert(cells[j] == grid.cell_of(grid.voxels[j][0]));
        assert forall|k: int| 0 <= k < widths.len() implies #[trigger] cells[j][k] < widths[k] by {
            assert(grid.widths[k] >= 1);
        }
    }
    assert forall|j: int| 0 <= j < more.len() implies is_cell(widths, #[trigger] more[j]) by {
        if j < cells.len() {
            assert(more[j] == cells[j]);
        }
    }
    table_len_is_one_table_per_prefix(widths, cells);
    table_len_is_one_table_per_prefix(widths, more);
    assert(more.drop_last() =~= cells);
    assert(more.last() == cell);
    lemma_tables_fit::<I>(widths, cells, cell, 1, table_len(widths, cells) as int, cap);
}

proof fn lemma_box_len<A: Axis>(b: Bounds<A>, points: Seq<Seq<A>>)
    ensures
        b.extend_all(points).lo.len() == b.lo.len(),
        b.extend_all(points).hi.len() == b.hi.len(),
    decreases points.len(),
{
    if points.len() > 0 {
        lemma_box_len(b, points.drop_last());
    }
}

} // verus!

//! The voxels of the voxel-grid filter.
//!
//! Where nothing rounds, the cells of [`filter`](crate::filter) are the half-open cubes of a regular
//! grid, and the point that is kept in each is the one closest to the middle of its cube.

use crate::axis::{gt, le, lt, minus, over, plus, times, Axis};
use crate::exact::{
    compares_numbers, exact_count, exact_distance, exact_minus, exact_over, exact_plus,
    exact_times, lemma_true_distsq, stands_for, truncates, true_distsq,
};
use crate::filter::{
    cell_at, center_at, centervox_keeps_one_point_per_voxel, floor_spec, from_cell, highest,
    kept_in, kept_points, lowest, middle_of, occupied_cells, offset_of, quantized, Cell,
};
use crate::laws::orders_values;
use vstd::prelude::*;

verus! {

/// Nothing rounds in finding the largest integer that is not above `q`, which fits in 32 bits.
pub open spec fn exact_floor<A: Axis>(value: spec_fn(A) -> real, q: A) -> bool {
    &&& q.is_finite_spec()
    &&& i32::MIN as real <= value(q)
    &&& value(q) < (i32::MAX + 1) as real
    &&& value(q) < 0 as real ==> {
        &&& exact_minus(value, A::ZERO, q)
        &&& exact_count(value, minus(A::ZERO, q).to_index_spec())
    }
}

/// The floor of a number is the integer that is not above it while the next integer is.
pub proof fn floor_is_just_below<A: Axis>(value: spec_fn(A) -> real, q: A)
    requires
        compares_numbers(value),
        truncates(value),
        exact_floor(value, q),
    ensures
        floor_spec(q) as real <= value(q),
        value(q) < (floor_spec(q) + 1) as real,
{
    if lt(q, A::ZERO) {
        let m = minus(A::ZERO, q);
        let n = m.to_index_spec();
        assert(value(m) == -value(q));
        assert(n as real <= value(m) && value(m) < (n + 1) as real);
    } else {
        let n = q.to_index_spec();
        assert(n as real <= value(q) && value(q) < (n + 1) as real);
    }
}

/// Whether the coordinate `x` lies in the cell with number `c` on an axis whose cells begin at `lo`
/// and are `size` wide.
pub open spec fn in_cell(x: real, lo: real, size: real, c: int) -> bool {
    lo + (c as real) * size <= x && x < lo + ((c + 1) as real) * size
}

/// Nothing rounds in placing the coordinate `x`.
pub open spec fn exact_place<A: Axis>(value: spec_fn(A) -> real, x: A, lo: A, size: A) -> bool {
    &&& exact_minus(value, x, lo)
    &&& exact_over(value, minus(x, lo), size)
    &&& exact_floor(value, over(minus(x, lo), size))
}

proof fn lemma_in_cell(q: real, d: real, size: real, c: int, n: int)
    requires
        size > 0 as real,
        q * size == d,
        n as real <= q,
        q < (n + 1) as real,
    ensures
        ((c as real) * size <= d && d < ((c + 1) as real) * size) <==> c == n,
{
    let cr = c as real;
    let nr = n as real;
    assert((c + 1) as real == cr + 1 as real);
    assert((n + 1) as real == nr + 1 as real);
    assert(cr * size <= d <==> cr <= q) by (nonlinear_arith)
        requires
            size > 0 as real,
            q * size == d,
    ;
    let next = cr + 1 as real;
    assert(d < next * size <==> q < next) by (nonlinear_arith)
        requires
            size > 0 as real,
            q * size == d,
    ;
}

proof fn lemma_place<A: Axis>(value: spec_fn(A) -> real, x: A, lo: A, size: A, c: i32)
    requires
        compares_numbers(value),
        truncates(value),
        value(size) > 0 as real,
        exact_place(value, x, lo, size),
    ensures
        floor_spec(over(minus(x, lo), size)) == c <==> in_cell(
            value(x),
            value(lo),
            value(size),
            c as int,
        ),
{
    let q = over(minus(x, lo), size);
    floor_is_just_below(value, q);
    lemma_in_cell(
        value(q),
        value(x) - value(lo),
        value(size),
        c as int,
        floor_spec(q) as int,
    );
}

/// A point falls into the cell `(i, j, k)` exactly if on each axis it lies from `lo` plus that many
/// voxel widths on, and before the next such place.
pub proof fn cell_is_a_cube<A: Axis>(
    value: spec_fn(A) -> real,
    p: Seq<A>,
    lo: Seq<A>,
    size: A,
    i: i32,
    j: i32,
    k: i32,
)
    requires
        compares_numbers(value),
        truncates(value),
        value(size) > 0 as real,
        exact_place(value, p[0], lo[0], size),
        exact_place(value, p[1], lo[1], size),
        exact_place(value, p[2], lo[2], size),
    ensures
        cell_at(p, lo, size) == (i, j, k) <==> {
            &&& in_cell(value(p[0]), value(lo[0]), value(size), i as int)
            &&& in_cell(value(p[1]), value(lo[1]), value(size), j as int)
            &&& in_cell(value(p[2]), value(lo[2]), value(size), k as int)
        },
{
    lemma_place(value, p[0], lo[0], size, i);
    lemma_place(value, p[1], lo[1], size, j);
    lemma_place(value, p[2], lo[2], size, k);
}

proof fn lemma_in_cell_apart(x: real, y: real, lo: real, size: real, c: int)
    requires
        in_cell(x, lo, size, c),
        in_cell(y, lo, size, c),
    ensures
        x - y < size,
        y - x < size,
{
    let cr = c as real;
    assert((c + 1) as real == cr + 1 as real);
    assert((cr + 1 as real) * size == cr * size + size) by (nonlinear_arith);
}

/// Two points in the same cell are less than a voxel width apart on each axis.
pub proof fn points_of_a_cell_are_close<A: Axis>(
    value: spec_fn(A) -> real,
    p: Seq<A>,
    q: Seq<A>,
    lo: Seq<A>,
    size: A,
)
    requires
        compares_numbers(value),
        truncates(value),
        value(size) > 0 as real,
        forall|k: int|
            #![trigger lo[k]]
            0 <= k < 3 ==> exact_place(value, p[k], lo[k], size) && exact_place(
                value,
                q[k],
                lo[k],
                size,
            ),
        cell_at(p, lo, size) == cell_at(q, lo, size),
    ensures
        forall|k: int|
            #![trigger p[k]]
            0 <= k < 3 ==> value(p[k]) - value(q[k]) < value(size) && value(q[k]) - value(p[k])
                < value(size),
{
    let (i, j, k) = cell_at(p, lo, size);
    assert(exact_place(value, p[0], lo[0], size) && exact_place(value, q[0], lo[0], size));
    assert(exact_place(value, p[1], lo[1], size) && exact_place(value, q[1], lo[1], size));
    assert(exact_place(value, p[2], lo[2], size) && exact_place(value, q[2], lo[2], size));
    cell_is_a_cube(value, p, lo, size, i, j, k);
    cell_is_a_cube(value, q, lo, size, i, j, k);
    lemma_in_cell_apart(value(p[0]), value(q[0]), value(lo[0]), value(size), i as int);
    lemma_in_cell_apart(value(p[1]), value(q[1]), value(lo[1]), value(size), j as int);
    lemma_in_cell_apart(value(p[2]), value(q[2]), value(lo[2]), value(size), k as int);
}

/// Nothing rounds in placing any of `points`.
pub open spec fn exact_places<A: Axis>(
    value: spec_fn(A) -> real,
    points: Seq<[A; 3]>,
    lo: Seq<A>,
    size: A,
) -> bool {
    forall|i: int, k: int|
        #![trigger points[i], lo[k]]
        0 <= i < points.len() && 0 <= k < 3 ==> exact_place(value, points[i][k], lo[k], size)
}

/// Whether `p` and `q` are less than `size` apart on each axis.
pub open spec fn is_close<A: Axis>(
    value: spec_fn(A) -> real,
    p: [A; 3],
    q: [A; 3],
    size: A,
) -> bool {
    forall|k: int|
        #![trigger p[k]]
        0 <= k < 3 ==> value(p[k]) - value(q[k]) < value(size) && value(q[k]) - value(p[k])
            < value(size)
}

/// Whether one of `kept` is less than `size` away from `p` on each axis.
pub open spec fn has_close<A: Axis>(
    value: spec_fn(A) -> real,
    kept: Seq<[A; 3]>,
    p: [A; 3],
    size: A,
) -> bool {
    exists|j: int| 0 <= j < kept.len() && is_close(value, #[trigger] kept[j], p, size)
}

proof fn lemma_close<A: Axis>(
    value: spec_fn(A) -> real,
    points: Seq<[A; 3]>,
    lo: Seq<A>,
    size: A,
    n: int,
    i: int,
)
    requires
        compares_numbers(value),
        truncates(value),
        value(size) > 0 as real,
        exact_places(value, points, lo, size),
        0 <= n < points.len(),
        0 <= i < points.len(),
        cell_at(points[n]@, lo, size) == cell_at(points[i]@, lo, size),
    ensures
        is_close(value, points[n], points[i], size),
{
    let q = points[n];
    let p = points[i];
    assert forall|k: int| #![trigger lo[k]] 0 <= k < 3 implies exact_place(
        value,
        q@[k],
        lo[k],
        size,
    ) && exact_place(value, p@[k], lo[k], size) by {
        assert(exact_place(value, points[n][k], lo[k], size));
        assert(exact_place(value, points[i][k], lo[k], size));
    }
    points_of_a_cell_are_close(value, q@, p@, lo, size);
    assert forall|k: int| #![trigger q[k]] 0 <= k < 3 implies value(q[k]) - value(p[k]) < value(
        size,
    ) && value(p[k]) - value(q[k]) < value(size) by {
        assert(q@[k] == q[k] && p@[k] == p[k]);
    }
}

/// The filter keeps a point less than a voxel width away, on each axis, from every point.
pub proof fn every_point_has_a_kept_one_close<A: Axis>(
    value: spec_fn(A) -> real,
    points: Seq<[A; 3]>,
    lo: Seq<A>,
    size: A,
)
    requires
        compares_numbers(value),
        truncates(value),
        value(size) > 0 as real,
        exact_places(value, points, lo, size),
    ensures
        forall|i: int|
            0 <= i < points.len() ==> has_close(
                value,
                kept_points(points, lo, size),
                #[trigger] points[i],
                size,
            ),
{
    let kept = kept_points(points, lo, size);
    centervox_keeps_one_point_per_voxel(points, lo, size);
    assert forall|i: int| 0 <= i < points.len() implies has_close(
        value,
        kept,
        #[trigger] points[i],
        size,
    ) by {
        let p = points[i];
        assert(points.contains(p));
        let j = choose|j: int|
            0 <= j < kept.len() && cell_at((#[trigger] kept[j])@, lo, size) == cell_at(
                p@,
                lo,
                size,
            );
        let q = kept[j];
        assert(points.contains(q));
        let n = choose|n: int| 0 <= n < points.len() && points[n] == q;
        lemma_close(value, points, lo, size, n, i);
    }
}

// ---------------------------------------------------------------------------------------------
// The point that is kept
// ---------------------------------------------------------------------------------------------

/// The middle of the cell with number `c`, on an axis whose cells begin at `lo` and are `size` wide.
pub open spec fn true_middle(lo: real, size: real, c: int) -> real {
    lo + (c as real) * size + size / (2 as real)
}

/// Nothing rounds in computing the middle of the cell with number `c`.
pub open spec fn exact_middle<A: Axis>(value: spec_fn(A) -> real, c: i32, lo: A, size: A) -> bool {
    let one = A::from_usize_spec(1);
    let two = A::from_usize_spec(2);
    let half = over(one, two);
    let n = (if c < 0 {
        -c
    } else {
        c as int
    }) as usize;
    &&& exact_count(value, 1)
    &&& exact_count(value, 2)
    &&& exact_over(value, one, two)
    &&& exact_count(value, n)
    &&& exact_minus(value, A::ZERO, A::from_usize_spec(n))
    &&& exact_plus(value, from_cell(c), half)
    &&& exact_times(value, plus(from_cell(c), half), size)
    &&& exact_plus(value, lo, times(plus(from_cell(c), half), size))
}

/// The center of a cell is halfway between its ends on each axis.
pub proof fn middle_is_halfway<A: Axis>(value: spec_fn(A) -> real, c: i32, lo: A, size: A)
    requires
        stands_for(value),
        exact_middle(value, c, lo, size),
    ensures
        value(middle_of(c, lo, size)) == true_middle(value(lo), value(size), c as int),
{
    let half = over(A::from_usize_spec(1), A::from_usize_spec(2));
    let h = value(half);
    let s = value(size);
    let cr = c as real;
    assert(h * (2 as real) == 1 as real);
    assert(value(from_cell(c)) == cr);
    assert((cr + h) * s == cr * s + s / (2 as real)) by (nonlinear_arith)
        requires
            h * (2 as real) == 1 as real,
    ;
}

/// The squared distance from `p` to the middle of `cell`.
pub open spec fn true_offset<A: Axis>(
    value: spec_fn(A) -> real,
    p: [A; 3],
    lo: Seq<A>,
    size: A,
    cell: Cell,
) -> real {
    let x = value(p[0]) - true_middle(value(lo[0]), value(size), cell.0 as int);
    let y = value(p[1]) - true_middle(value(lo[1]), value(size), cell.1 as int);
    let z = value(p[2]) - true_middle(value(lo[2]), value(size), cell.2 as int);
    x * x + y * y + z * z
}

/// Nothing rounds in computing the distance of `p` from the middle of `cell`.
pub open spec fn exact_offset<A: Axis>(
    value: spec_fn(A) -> real,
    p: [A; 3],
    lo: Seq<A>,
    size: A,
    cell: Cell,
) -> bool {
    &&& exact_middle(value, cell.0, lo[0], size)
    &&& exact_middle(value, cell.1, lo[1], size)
    &&& exact_middle(value, cell.2, lo[2], size)
    &&& exact_distance(value, p@, center_at(cell, lo, size))
}

proof fn lemma_offset<A: Axis>(
    value: spec_fn(A) -> real,
    p: [A; 3],
    lo: Seq<A>,
    size: A,
    cell: Cell,
)
    requires
        stands_for(value),
        cell_at(p@, lo, size) == cell,
        exact_offset(value, p, lo, size, cell),
    ensures
        offset_of(p@, lo, size).is_finite_spec(),
        value(offset_of(p@, lo, size)) == true_offset(value, p, lo, size, cell),
{
    let c = center_at(cell, lo, size);
    middle_is_halfway(value, cell.0, lo[0], size);
    middle_is_halfway(value, cell.1, lo[1], size);
    middle_is_halfway(value, cell.2, lo[2], size);
    lemma_true_distsq(value, p@, c, 3);
    reveal_with_fuel(true_distsq, 4);
    assert(c[0] == middle_of(cell.0, lo[0], size));
    assert(c[1] == middle_of(cell.1, lo[1], size));
    assert(c[2] == middle_of(cell.2, lo[2], size));
}

/// Whether position `i` of `points` is in `cell`.
pub open spec fn falls_into<A: Axis>(
    points: Seq<[A; 3]>,
    i: int,
    lo: Seq<A>,
    size: A,
    cell: Cell,
) -> bool {
    0 <= i < points.len() && cell_at(points[i]@, lo, size) == cell
}

/// The point that is kept in a cell is the first of those that lie closest to its middle.
pub proof fn kept_point_is_the_first_closest<A: Axis>(
    value: spec_fn(A) -> real,
    points: Seq<[A; 3]>,
    lo: Seq<A>,
    size: A,
    cell: Cell,
) -> (n: int)
    requires
        compares_numbers(value),
        forall|i: int| #[trigger]
            falls_into(points, i, lo, size, cell) ==> exact_offset(
                value,
                points[i],
                lo,
                size,
                cell,
            ),
        exists|i: int| falls_into(points, i, lo, size, cell),
    ensures
        falls_into(points, n, lo, size, cell),
        kept_in(points, lo, size, cell) == Some(points[n]),
        forall|i: int| #[trigger]
            falls_into(points, i, lo, size, cell) ==> true_offset(
                value,
                points[n],
                lo,
                size,
                cell,
            ) <= true_offset(value, points[i], lo, size, cell),
        forall|i: int| #[trigger]
            falls_into(points, i, lo, size, cell) && i < n ==> true_offset(
                value,
                points[n],
                lo,
                size,
                cell,
            ) < true_offset(value, points[i], lo, size, cell),
    decreases points.len(),
{
    let fewer = points.drop_last();
    let last = points.len() - 1;
    assert forall|i: int| falls_into(fewer, i, lo, size, cell) implies #[trigger] falls_into(
        points,
        i,
        lo,
        size,
        cell,
    ) by {}
    assert forall|i: int| #[trigger] falls_into(fewer, i, lo, size, cell) implies exact_offset(
        value,
        fewer[i],
        lo,
        size,
        cell,
    ) by {
        assert(falls_into(points, i, lo, size, cell));
    }
    assert forall|i: int| #[trigger]
        falls_into(points, i, lo, size, cell) && i < last implies falls_into(
        fewer,
        i,
        lo,
        size,
        cell,
    ) by {}
    if falls_into(points, last, lo, size, cell) {
        lemma_offset(value, points[last], lo, size, cell);
    }
    if exists|i: int| falls_into(fewer, i, lo, size, cell) {
        let n = kept_point_is_the_first_closest(value, fewer, lo, size, cell);
        assert(falls_into(points, n, lo, size, cell));
        lemma_offset(value, points[n], lo, size, cell);
        if falls_into(points, last, lo, size, cell) && true_offset(
            value,
            points[last],
            lo,
            size,
            cell,
        ) < true_offset(value, points[n], lo, size, cell) {
            last
        } else {
            n
        }
    } else {
        let i = choose|i: int| falls_into(points, i, lo, size, cell);
        assert(i == last);
        lemma_nothing_kept(fewer, lo, size, cell);
        last
    }
}

proof fn lemma_nothing_kept<A: Axis>(points: Seq<[A; 3]>, lo: Seq<A>, size: A, cell: Cell)
    requires
        forall|i: int| !falls_into(points, i, lo, size, cell),
    ensures
        kept_in(points, lo, size, cell) is None,
    decreases points.len(),
{
    if points.len() > 0 {
        let fewer = points.drop_last();
        assert forall|i: int| !falls_into(fewer, i, lo, size, cell) by {
            if falls_into(fewer, i, lo, size, cell) {
                assert(falls_into(points, i, lo, size, cell));
            }
        }
        assert(!falls_into(points, points.len() - 1, lo, size, cell));
        lemma_nothing_kept(fewer, lo, size, cell);
    }
}

/// The cells come in the order in which the points first fall into them: `firsts` are the positions
/// of those points.
pub proof fn cells_come_in_order_of_appearance<A: Axis>(
    points: Seq<[A; 3]>,
    lo: Seq<A>,
    size: A,
) -> (firsts: Seq<int>)
    ensures
        firsts.len() == occupied_cells(points, lo, size).len(),
        forall|j: int|
            #![trigger firsts[j]]
            0 <= j < firsts.len() ==> {
                let cell = occupied_cells(points, lo, size)[j];
                &&& falls_into(points, firsts[j], lo, size, cell)
                &&& forall|i: int| #[trigger]
                    falls_into(points, i, lo, size, cell) ==> firsts[j] <= i
            },
        forall|i: int, j: int|
            #![trigger firsts[i], firsts[j]]
            0 <= i < j < firsts.len() ==> firsts[i] < firsts[j],
        forall|i: int|
            0 <= i < points.len() ==> occupied_cells(points, lo, size).contains(
                cell_at((#[trigger] points[i])@, lo, size),
            ),
    decreases points.len(),
{
    let cells = occupied_cells(points, lo, size);
    if points.len() == 0 {
        Seq::empty()
    } else {
        let fewer = points.drop_last();
        let last = points.len() - 1;
        let sofar = occupied_cells(fewer, lo, size);
        let before = cells_come_in_order_of_appearance(fewer, lo, size);
        let cell = cell_at(points[last]@, lo, size);
        let firsts = if sofar.contains(cell) {
            before
        } else {
            before.push(last)
        };
        assert forall|c: Cell| sofar.contains(c) implies cells.contains(c) by {
            let u = choose|u: int| 0 <= u < sofar.len() && sofar[u] == c;
            assert(cells[u] == c);
        }
        assert forall|i: int| 0 <= i < points.len() implies cells.contains(
            cell_at((#[trigger] points[i])@, lo, size),
        ) by {
            if i < last {
                assert(fewer[i] == points[i]);
            } else if !sofar.contains(cell) {
                assert(cells[cells.len() - 1] == cell);
            }
        }
        assert forall|j: int| #![trigger firsts[j]] 0 <= j < firsts.len() implies {
            &&& falls_into(points, firsts[j], lo, size, cells[j])
            &&& forall|i: int| #[trigger]
                falls_into(points, i, lo, size, cells[j]) ==> firsts[j] <= i
        } by {
            if j < before.len() {
                assert(cells[j] == sofar[j] && firsts[j] == before[j]);
                assert(falls_into(fewer, before[j], lo, size, sofar[j]));
                assert forall|i: int| #[trigger]
                    falls_into(points, i, lo, size, cells[j]) implies firsts[j] <= i by {
                    if i < last {
                        assert(falls_into(fewer, i, lo, size, cells[j]));
                    }
                }
            } else {
                assert forall|i: int| #[trigger]
                    falls_into(points, i, lo, size, cells[j]) implies firsts[j] <= i by {
                    if i < last {
                        assert(fewer[i] == points[i]);
                        assert(sofar.contains(cell_at(fewer[i]@, lo, size)));
                    }
                }
            }
        }
        assert forall|i: int, j: int|
            #![trigger firsts[i], firsts[j]]
            0 <= i < j < firsts.len() implies firsts[i] < firsts[j] by {
            assert(firsts[i] == before[i]);
            assert(falls_into(fewer, before[i], lo, size, sofar[i]));
        }
        firsts
    }
}

/// Nothing rounds in computing the distance of any point from the middle of its cell.
pub open spec fn exact_offsets<A: Axis>(
    value: spec_fn(A) -> real,
    points: Seq<[A; 3]>,
    lo: Seq<A>,
    size: A,
) -> bool {
    forall|i: int|
        #![trigger points[i]]
        0 <= i < points.len() ==> exact_offset(
            value,
            points[i],
            lo,
            size,
            cell_at(points[i]@, lo, size),
        )
}

/// Whether `points[n]` is the first of those in its cell that lie closest to the middle of it.
pub open spec fn is_first_closest<A: Axis>(
    value: spec_fn(A) -> real,
    points: Seq<[A; 3]>,
    lo: Seq<A>,
    size: A,
    n: int,
) -> bool {
    let cell = cell_at(points[n]@, lo, size);
    let offset = |i: int| true_offset(value, points[i], lo, size, cell);
    &&& 0 <= n < points.len()
    &&& forall|i: int| #[trigger]
        falls_into(points, i, lo, size, cell) ==> offset(n) <= offset(i) && (i < n ==> offset(n)
            < offset(i))
}

/// The filter keeps one point for each cell that points fall into, in the order in which the cells
/// first appear: the first of those that lie closest to the middle of the cell. `r.0` are the
/// positions of the points with which the cells appear, and `r.1` those of the points that are kept.
pub proof fn filter_keeps_the_closest_of_each_cell<A: Axis>(
    value: spec_fn(A) -> real,
    points: Seq<[A; 3]>,
    lo: Seq<A>,
    size: A,
) -> (r: (Seq<int>, Seq<int>))
    requires
        compares_numbers(value),
        exact_offsets(value, points, lo, size),
    ensures
        r.0.len() == kept_points(points, lo, size).len(),
        r.1.len() == kept_points(points, lo, size).len(),
        forall|j: int|
            #![trigger r.1[j]]
            0 <= j < r.1.len() ==> {
                &&& is_first_closest(value, points, lo, size, r.1[j])
                &&& kept_points(points, lo, size)[j] == points[r.1[j]]
                &&& falls_into(points, r.0[j], lo, size, cell_at(points[r.1[j]]@, lo, size))
                &&& forall|i: int| #[trigger]
                    falls_into(points, i, lo, size, cell_at(points[r.1[j]]@, lo, size)) ==> r.0[j]
                        <= i
            },
        forall|i: int, j: int|
            #![trigger r.0[i], r.0[j]]
            0 <= i < j < r.0.len() ==> r.0[i] < r.0[j],
{
    let cells = occupied_cells(points, lo, size);
    let kept = kept_points(points, lo, size);
    let firsts = cells_come_in_order_of_appearance(points, lo, size);
    let closest = lemma_closest(value, points, lo, size, cells, firsts);
    assert forall|j: int| #![trigger closest[j]] 0 <= j < closest.len() implies {
        &&& is_first_closest(value, points, lo, size, closest[j])
        &&& kept[j] == points[closest[j]]
        &&& falls_into(points, firsts[j], lo, size, cell_at(points[closest[j]]@, lo, size))
        &&& forall|i: int| #[trigger]
            falls_into(points, i, lo, size, cell_at(points[closest[j]]@, lo, size)) ==> firsts[j]
                <= i
    } by {
        assert(falls_into(points, firsts[j], lo, size, cells[j]));
        assert(cell_at(points[closest[j]]@, lo, size) == cells[j]);
    }
    (firsts, closest)
}

proof fn lemma_closest<A: Axis>(
    value: spec_fn(A) -> real,
    points: Seq<[A; 3]>,
    lo: Seq<A>,
    size: A,
    cells: Seq<Cell>,
    firsts: Seq<int>,
) -> (closest: Seq<int>)
    requires
        compares_numbers(value),
        exact_offsets(value, points, lo, size),
        firsts.len() == cells.len(),
        forall|j: int|
            #![trigger firsts[j]]
            0 <= j < firsts.len() ==> falls_into(points, firsts[j], lo, size, cells[j]),
    ensures
        closest.len() == cells.len(),
        forall|j: int|
            #![trigger closest[j]]
            0 <= j < closest.len() ==> {
                &&& falls_into(points, closest[j], lo, size, cells[j])
                &&& kept_in(points, lo, size, cells[j]) == Some(points[closest[j]])
                &&& is_first_closest(value, points, lo, size, closest[j])
            },
    decreases cells.len(),
{
    if cells.len() == 0 {
        Seq::empty()
    } else {
        let last = cells.len() - 1;
        let cell = cells[last];
        assert forall|j: int| #![trigger firsts.drop_last()[j]] 0 <= j < firsts.drop_last().len()
            implies falls_into(
            points,
            firsts.drop_last()[j],
            lo,
            size,
            cells.drop_last()[j],
        ) by {
            assert(falls_into(points, firsts[j], lo, size, cells[j]));
        }
        let before = lemma_closest(
            value,
            points,
            lo,
            size,
            cells.drop_last(),
            firsts.drop_last(),
        );
        assert(falls_into(points, firsts[last], lo, size, cell));
        assert forall|i: int| #[trigger] falls_into(
            points,
            i,
            lo,
            size,
            cell,
        ) implies exact_offset(value, points[i], lo, size, cell) by {
            assert(points[i] == points[i]);
        }
        let n = kept_point_is_the_first_closest(value, points, lo, size, cell);
        let closest = before.push(n);
        assert forall|j: int| #![trigger closest[j]] 0 <= j < closest.len() implies {
            &&& falls_into(points, closest[j], lo, size, cells[j])
            &&& kept_in(points, lo, size, cells[j]) == Some(points[closest[j]])
            &&& is_first_closest(value, points, lo, size, closest[j])
        } by {
            if j < last {
                assert(closest[j] == before[j]);
                assert(cells.drop_last()[j] == cells[j]);
            }
        }
        closest
    }
}

// ---------------------------------------------------------------------------------------------
// Extremes and positions
// ---------------------------------------------------------------------------------------------

/// Whether one of `points` has the coordinate `x` on axis `k`.
pub open spec fn has_coordinate<A: Axis>(points: Seq<[A; 3]>, k: int, x: A) -> bool {
    exists|i: int| 0 <= i < points.len() && #[trigger] points[i][k] == x
}

/// The extremes of finite points bound them on each axis, and each is the coordinate of some point.
pub proof fn extremes_are_reached<A: Axis>(points: Seq<[A; 3]>, k: int)
    requires
        orders_values::<A>(),
        points.len() > 0,
        0 <= k < 3,
        forall|i: int|
            0 <= i < points.len() ==> (#[trigger] points[i][k]).is_finite_spec(),
    ensures
        forall|i: int|
            0 <= i < points.len() ==> le(lowest(points)[k], #[trigger] points[i][k]) && le(
                points[i][k],
                highest(points)[k],
            ),
        has_coordinate(points, k, lowest(points)[k]),
        has_coordinate(points, k, highest(points)[k]),
    decreases points.len(),
{
    let fewer = points.drop_last();
    let last = points.len() - 1;
    let x = points[last][k];
    assert(x.is_finite_spec());
    assert(points.last() == points[last]);
    if fewer.len() == 0 {
        assert(lt(x, A::INFINITY));
        assert(lt(A::NEG_INFINITY, x));
        assert(lowest(fewer)[k] == A::INFINITY);
        assert(highest(fewer)[k] == A::NEG_INFINITY);
        assert(gt(x, A::NEG_INFINITY));
        assert(lowest(points)[k] == x);
        assert(highest(points)[k] == x);
        assert(points[last][k] == x);
        assert(le(x, x));
    } else {
        assert forall|i: int| 0 <= i < fewer.len() implies (
        #[trigger] fewer[i][k]).is_finite_spec() by {
            assert(fewer[i] == points[i]);
            assert(points[i][k].is_finite_spec());
        }
        extremes_are_reached(fewer, k);
        let a = choose|a: int|
            0 <= a < fewer.len() && #[trigger] fewer[a][k] == lowest(fewer)[k];
        let b = choose|b: int|
            0 <= b < fewer.len() && #[trigger] fewer[b][k] == highest(fewer)[k];
        assert(points[a][k] == lowest(fewer)[k] && points[b][k] == highest(fewer)[k]);
        let low = lowest(fewer)[k];
        let high = highest(fewer)[k];
        assert(low.is_finite_spec() && high.is_finite_spec());
        assert(le(low, low) && le(high, high) && le(x, x));
        assert(gt(x, high) <==> lt(high, x));
        assert(points[last][k] == x);
        assert forall|i: int| 0 <= i < points.len() implies le(
            lowest(points)[k],
            #[trigger] points[i][k],
        ) && le(points[i][k], highest(points)[k]) by {
            if i < last {
                assert(fewer[i][k] == points[i][k]);
                assert(le(low, fewer[i][k]) && le(fewer[i][k], high));
            }
        }
    }
}

/// Nothing rounds in finding the position of `x` between `lo` and `hi`.
pub open spec fn exact_position<A: Axis>(value: spec_fn(A) -> real, x: A, lo: A, hi: A) -> bool {
    let extent = minus(hi, lo);
    let steps = A::from_usize_spec(1024);
    &&& exact_minus(value, hi, lo)
    &&& exact_minus(value, x, lo)
    &&& exact_over(value, minus(x, lo), extent)
    &&& exact_count(value, 1024)
    &&& exact_times(value, over(minus(x, lo), extent), steps)
    &&& exact_times(value, A::ZERO, steps)
}

/// A position counts the whole 1024ths of the extent that lie between the lower end and `x`; where
/// there is no extent, it is zero.
pub proof fn position_counts_steps<A: Axis>(value: spec_fn(A) -> real, x: A, lo: A, hi: A)
    requires
        compares_numbers(value),
        truncates(value),
        value(lo) <= value(x),
        value(x) <= value(hi),
        exact_position(value, x, lo, hi),
    ensures
        value(lo) < value(hi) ==> ({
            let n = quantized(x, lo, hi) as real;
            let extent = value(hi) - value(lo);
            &&& n * extent <= (1024 as real) * (value(x) - value(lo))
            &&& (1024 as real) * (value(x) - value(lo)) < (n + 1 as real) * extent
        }),
        value(lo) == value(hi) ==> quantized(x, lo, hi) == 0,
{
    let extent = minus(hi, lo);
    let e = value(extent);
    let d = value(x) - value(lo);
    let steps = 1024 as real;
    assert(gt(extent, A::ZERO) <==> e > 0 as real);
    if e > 0 as real {
        let q = over(minus(x, lo), extent);
        let v = value(q);
        let t = times(q, A::from_usize_spec(1024));
        assert(v * e == d);
        assert(v * steps >= 0 as real && v * steps <= steps) by (nonlinear_arith)
            requires
                v * e == d,
                0 as real <= d,
                d <= e,
                e > 0 as real,
                steps == 1024 as real,
        ;
        assert(value(t) == v * steps);
        let n = t.to_index_spec();
        let nr = n as real;
        assert(nr <= v * steps && v * steps < (n + 1) as real);
        assert((n + 1) as real == nr + 1 as real);
        assert(nr * e <= steps * d && steps * d < (nr + 1 as real) * e) by (nonlinear_arith)
            requires
                nr <= v * steps,
                v * steps < nr + 1 as real,
                v * e == d,
                e > 0 as real,
        ;
        assert(n <= 1024);
    } else {
        let t = times(A::ZERO, A::from_usize_spec(1024));
        assert((0 as real) * steps == 0 as real) by (nonlinear_arith);
        assert(value(t) == 0 as real);
        let n = t.to_index_spec();
        assert((n as real) <= 0 as real);
    }
}

} // verus!

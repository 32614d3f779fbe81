//! Spatial point-cloud downsampling filters.
//!
//! - [`centervox_filter`], a voxel-grid filter that keeps the point closest to each voxel's center.
//! - [`morton_filter`], a Morton-order proximity filter.

use crate::axis::{gt, lt, max, max_spec, min, min_spec, minus, over, plus, times, Axis};
use crate::scan::distsq_upto;
use crate::sorting::{order_by, stable_order, stable_order_keeps_items};
use std::collections::HashMap;
use vstd::prelude::*;

verus! {

broadcast use vstd::std_specs::hash::group_hash_axioms;

/// A cell of the voxel grid of [`centervox_filter`].
pub type Cell = (i32, i32, i32);

// ---------------------------------------------------------------------------------------------
// Extremes
// ---------------------------------------------------------------------------------------------

/// The smallest coordinates of `points`.
pub open spec fn lowest<A: Axis>(points: Seq<[A; 3]>) -> Seq<A>
    decreases points.len(),
{
    if points.len() == 0 {
        Seq::new(3, |k: int| A::INFINITY)
    } else {
        let sofar = lowest(points.drop_last());
        Seq::new(3, |k: int| min_spec(sofar[k], points.last()[k]))
    }
}

/// The largest coordinates of `points`.
pub open spec fn highest<A: Axis>(points: Seq<[A; 3]>) -> Seq<A>
    decreases points.len(),
{
    if points.len() == 0 {
        Seq::new(3, |k: int| A::NEG_INFINITY)
    } else {
        let sofar = highest(points.drop_last());
        Seq::new(3, |k: int| max_spec(sofar[k], points.last()[k]))
    }
}

/// Compute the smallest and largest coordinates of `points`.
fn extremes<A: Axis>(points: &Vec<[A; 3]>) -> (r: ([A; 3], [A; 3]))
    ensures
        r.0@ == lowest(points@),
        r.1@ == highest(points@),
{
    let mut lo = [A::INFINITY; 3];
    let mut hi = [A::NEG_INFINITY; 3];
    let mut i: usize = 0;
    assert(points@.take(0) =~= Seq::<[A; 3]>::empty());
    assert(lo@ =~= lowest(points@.take(0)));
    assert(hi@ =~= highest(points@.take(0)));
    while i < points.len()
        invariant
            i <= points.len(),
            lo@ == lowest(points@.take(i as int)),
            hi@ == highest(points@.take(i as int)),
        decreases points.len() - i,
    {
        let p: [A; 3] = points[i];
        lo = [min(lo[0], p[0]), min(lo[1], p[1]), min(lo[2], p[2])];
        hi = [max(hi[0], p[0]), max(hi[1], p[1]), max(hi[2], p[2])];
        proof {
            let taken = points@.take(i + 1);
            assert(taken.drop_last() =~= points@.take(i as int));
            assert(taken.last() == p);
            assert(lo@ =~= lowest(taken));
            assert(hi@ =~= highest(taken));
        }
        i += 1;
    }
    assert(points@.take(i as int) =~= points@);
    (lo, hi)
}

// ---------------------------------------------------------------------------------------------
// The voxel-grid filter
// ---------------------------------------------------------------------------------------------

/// The largest integer that is not above `q`, as far as `i32` reaches.
pub open spec fn floor_spec<A: Axis>(q: A) -> i32 {
    if lt(q, A::ZERO) {
        let m = minus(A::ZERO, q);
        let n = m.to_index_spec();
        if n > i32::MAX {
            i32::MIN
        } else if lt(A::from_usize_spec(n), m) {
            (-n - 1) as i32
        } else {
            (-n) as i32
        }
    } else {
        let n = q.to_index_spec();
        if n > i32::MAX {
            i32::MAX
        } else {
            n as i32
        }
    }
}

fn floor<A: Axis>(q: A) -> (r: i32)
    ensures
        r == floor_spec(q),
{
    proof {
        A::total_operators();
    }
    if q < A::ZERO {
        let m = A::ZERO - q;
        let n: usize = m.to_index();
        if n > i32::MAX as usize {
            i32::MIN
        } else if A::from_usize(n) < m {
            -(n as i32) - 1
        } else {
            -(n as i32)
        }
    } else {
        let n: usize = q.to_index();
        if n > i32::MAX as usize {
            i32::MAX
        } else {
            n as i32
        }
    }
}

/// The value that stands for a cell coordinate.
pub open spec fn from_cell<A: Axis>(c: i32) -> A {
    if c < 0 {
        minus(A::ZERO, A::from_usize_spec((-c) as usize))
    } else {
        A::from_usize_spec(c as usize)
    }
}

/// The cell of the voxel grid with corner `lo` that `p` falls into.
pub open spec fn cell_at<A: Axis>(p: Seq<A>, lo: Seq<A>, size: A) -> Cell {
    (
        floor_spec(over(minus(p[0], lo[0]), size)),
        floor_spec(over(minus(p[1], lo[1]), size)),
        floor_spec(over(minus(p[2], lo[2]), size)),
    )
}

/// The coordinate of a cell's center on one axis.
pub open spec fn middle_of<A: Axis>(c: i32, lo: A, size: A) -> A {
    let half = over(A::from_usize_spec(1), A::from_usize_spec(2));
    plus(lo, times(plus(from_cell(c), half), size))
}

/// The center of a cell.
pub open spec fn center_at<A: Axis>(cell: Cell, lo: Seq<A>, size: A) -> Seq<A> {
    seq![
        middle_of(cell.0, lo[0], size),
        middle_of(cell.1, lo[1], size),
        middle_of(cell.2, lo[2], size),
    ]
}

/// The squared distance from `p` to the center of its own cell.
pub open spec fn offset_of<A: Axis>(p: Seq<A>, lo: Seq<A>, size: A) -> A {
    distsq_upto(p, center_at(cell_at(p, lo, size), lo, size), 3)
}

/// The cells that `points` fall into, each once, in order of first appearance.
pub open spec fn occupied_cells<A: Axis>(points: Seq<[A; 3]>, lo: Seq<A>, size: A) -> Seq<Cell>
    decreases points.len(),
{
    if points.len() == 0 {
        Seq::empty()
    } else {
        let sofar = occupied_cells(points.drop_last(), lo, size);
        let cell = cell_at(points.last()@, lo, size);
        if sofar.contains(cell) {
            sofar
        } else {
            sofar.push(cell)
        }
    }
}

/// The point of `cell` that is kept: the first, unless a later one is closer to the center.
pub open spec fn kept_in<A: Axis>(
    points: Seq<[A; 3]>,
    lo: Seq<A>,
    size: A,
    cell: Cell,
) -> Option<[A; 3]>
    decreases points.len(),
{
    if points.len() == 0 {
        None
    } else {
        let p = points.last();
        let sofar = kept_in(points.drop_last(), lo, size, cell);
        if cell_at(p@, lo, size) != cell {
            sofar
        } else {
            match sofar {
                None => Some(p),
                Some(q) => if lt(offset_of(p@, lo, size), offset_of(q@, lo, size)) {
                    Some(p)
                } else {
                    Some(q)
                },
            }
        }
    }
}

/// The points that are kept, one for each occupied cell.
pub open spec fn kept_points<A: Axis>(points: Seq<[A; 3]>, lo: Seq<A>, size: A) -> Seq<[A; 3]> {
    let cells = occupied_cells(points, lo, size);
    Seq::new(cells.len(), |i: int| kept_in(points, lo, size, cells[i])->0)
}

/// A number that stands for a cell.
spec fn key_of(cell: Cell) -> int {
    (cell.0 + 0x8000_0000) * 0x1_0000_0000_0000_0000 + (cell.1 + 0x8000_0000) * 0x1_0000_0000 + (
    cell.2 + 0x8000_0000)
}

fn pack(cell: Cell) -> (r: u128)
    ensures
        r == key_of(cell),
{
    let x: u128 = (cell.0 as i64 + 0x8000_0000) as u128;
    let y: u128 = (cell.1 as i64 + 0x8000_0000) as u128;
    let z: u128 = (cell.2 as i64 + 0x8000_0000) as u128;
    x * 0x1_0000_0000_0000_0000 + y * 0x1_0000_0000 + z
}

proof fn lemma_key_injective(a: Cell, b: Cell)
    requires
        key_of(a) == key_of(b),
    ensures
        a == b,
{
}

/// Downsample `points` to at most one point per cubic voxel of edge length `voxel_size`, keeping
/// whichever point in each occupied voxel lies closest to that voxel's center.
///
/// The points come in the order in which their voxels first appear.
#[must_use]
pub fn centervox_filter<A: Axis>(points: &[[A; 3]], voxel_size: A) -> (r: Vec<[A; 3]>)
    ensures
        r@ == kept_points(points@, lowest(points@), voxel_size),
{
    let all: Vec<[A; 3]> = copy_of(points);
    let (low, _high) = extremes(&all);
    let ghost lo = lowest(points@);
    let mut index: HashMap<u128, usize> = HashMap::new();
    let mut kept: Vec<[A; 3]> = Vec::new();
    let mut offsets: Vec<A> = Vec::new();
    let mut i: usize = 0;
    let ghost mut cells = Seq::<Cell>::empty();
    assert(points@.take(0) =~= Seq::<[A; 3]>::empty());
    while i < points.len()
        invariant
            i <= points.len(),
            low@ == lo,
            cells == occupied_cells(points@.take(i as int), lo, voxel_size),
            kept@.len() == cells.len(),
            offsets@.len() == cells.len(),
            forall|j: int|
                0 <= j < cells.len() ==> kept_in(
                    points@.take(i as int),
                    lo,
                    voxel_size,
                    #[trigger] cells[j],
                ) == Some(kept@[j]),
            forall|j: int|
                0 <= j < cells.len() ==> #[trigger] offsets@[j] == offset_of(
                    kept@[j]@,
                    lo,
                    voxel_size,
                ),
            forall|j: int|
                0 <= j < cells.len() ==> index@.contains_key(key_of(#[trigger] cells[j]) as u128)
                    && index@[key_of(cells[j]) as u128] == j,
            forall|k: u128| #[trigger]
                index@.contains_key(k) ==> index@[k] < cells.len() && key_of(
                    cells[index@[k] as int],
                ) == k,
            forall|cell: Cell|
                !cells.contains(cell) ==> #[trigger] kept_in(
                    points@.take(i as int),
                    lo,
                    voxel_size,
                    cell,
                ) is None,
        decreases points.len() - i,
    {
        let p: [A; 3] = points[i];
        let cell: Cell = (
            floor_quotient(p[0], low[0], voxel_size),
            floor_quotient(p[1], low[1], voxel_size),
            floor_quotient(p[2], low[2], voxel_size),
        );
        let offset = offset_in(&p, cell, &low, voxel_size);
        let key: u128 = pack(cell);
        let ghost before = points@.take(i as int);
        let ghost after = points@.take(i + 1);
        let ghost old_cells = cells;
        let ghost old_kept = kept@;
        proof {
            assert(after.drop_last() =~= before);
            assert(after.last() == p);
            assert(cell == cell_at(p@, lo, voxel_size));
            assert(offset == offset_of(p@, lo, voxel_size));
            assert forall|c: Cell| #[trigger] key_of(c) == key_of(cell) implies c == cell by {
                lemma_key_injective(c, cell);
            }
        }
        let found: Option<usize> = match index.get(&key) {
            Some(j) => Some(*j),
            None => None,
        };
        match found {
            Some(j) => {
                assert(old_cells[j as int] == cell);
                assert(old_cells.contains(cell));
                if offset_less(offset, offsets[j]) {
                    kept[j] = p;
                    offsets[j] = offset;
                }
                proof {
                    assert forall|u: int| 0 <= u < cells.len() implies kept_in(
                        after,
                        lo,
                        voxel_size,
                        #[trigger] cells[u],
                    ) == Some(kept@[u]) by {
                        assert(kept_in(before, lo, voxel_size, cells[u]) == Some(old_kept[u]));
                        if u != j {
                            assert(index@[key_of(cells[u]) as u128] == u);
                            assert(cells[u] != cell);
                        }
                    }
                }
            },
            None => {
                proof {
                    assert(!old_cells.contains(cell)) by {
                        if old_cells.contains(cell) {
                            let u = choose|u: int| 0 <= u < old_cells.len() && old_cells[u] == cell;
                            assert(index@.contains_key(key_of(old_cells[u]) as u128));
                        }
                    }
                    cells = cells.push(cell);
                }
                index.insert(key, kept.len());
                kept.push(p);
                offsets.push(offset);
                proof {
                    assert forall|u: int| 0 <= u < cells.len() implies kept_in(
                        after,
                        lo,
                        voxel_size,
                        #[trigger] cells[u],
                    ) == Some(kept@[u]) by {
                        if u < old_cells.len() {
                            assert(cells[u] == old_cells[u]);
                            assert(kept_in(before, lo, voxel_size, old_cells[u]) == Some(
                                old_kept[u],
                            ));
                            assert(cells[u] != cell) by {
                                assert(old_cells.contains(old_cells[u]));
                            }
                        } else {
                            assert(kept_in(before, lo, voxel_size, cell) is None);
                        }
                    }
                    assert forall|u: int| 0 <= u < cells.len() implies index@.contains_key(
                        key_of(#[trigger] cells[u]) as u128,
                    ) && index@[key_of(cells[u]) as u128] == u by {
                        if u < old_cells.len() {
                            assert(cells[u] == old_cells[u]);
                            assert(old_cells.contains(old_cells[u]));
                            assert(key_of(old_cells[u]) != key_of(cell));
                        }
                    }
                    assert forall|k: u128| #[trigger] index@.contains_key(k) implies index@[k]
                        < cells.len() && key_of(cells[index@[k] as int]) == k by {
                        if k != key {
                            assert(cells[index@[k] as int] == old_cells[index@[k] as int]);
                        }
                    }
                }
            },
        }
        proof {
            assert forall|c: Cell| !cells.contains(c) implies #[trigger] kept_in(
                after,
                lo,
                voxel_size,
                c,
            ) is None by {
                if old_cells.contains(c) {
                    let u = choose|u: int| 0 <= u < old_cells.len() && old_cells[u] == c;
                    assert(cells[u] == c);
                }
                assert(kept_in(before, lo, voxel_size, c) is None);
                if c == cell {
                    assert(cells.contains(cell)) by {
                        if !old_cells.contains(cell) {
                            assert(cells[cells.len() - 1] == cell);
                        }
                    }
                }
            }
        }
        i += 1;
    }
    assert(points@.take(i as int) =~= points@);
    assert(kept@ =~= kept_points(points@, lo, voxel_size));
    kept
}

pub(crate) fn copy_of<A: Axis>(points: &[[A; 3]]) -> (r: Vec<[A; 3]>)
    ensures
        r@ == points@,
{
    let mut r: Vec<[A; 3]> = Vec::with_capacity(points.len());
    let mut i: usize = 0;
    while i < points.len()
        invariant
            i <= points.len(),
            r@ == points@.take(i as int),
        decreases points.len() - i,
    {
        r.push(points[i]);
        assert(points@.take(i + 1) =~= points@.take(i as int).push(points@[i as int]));
        i += 1;
    }
    assert(points@.take(i as int) =~= points@);
    r
}

fn floor_quotient<A: Axis>(x: A, lo: A, size: A) -> (r: i32)
    ensures
        r == floor_spec(over(minus(x, lo), size)),
{
    proof {
        A::total_operators();
    }
    floor((x - lo) / size)
}

fn offset_less<A: Axis>(a: A, b: A) -> (r: bool)
    ensures
        r == lt(a, b),
{
    proof {
        A::total_operators();
    }
    a < b
}

fn middle<A: Axis>(c: i32, lo: A, size: A) -> (r: A)
    ensures
        r == middle_of(c, lo, size),
{
    proof {
        A::total_operators();
    }
    let half = A::from_usize(1) / A::from_usize(2);
    let at = if c < 0 {
        A::ZERO - A::from_usize((-(c as i64)) as usize)
    } else {
        A::from_usize(c as usize)
    };
    lo + (at + half) * size
}

/// Compute the squared distance from `p` to the center of `cell`.
fn offset_in<A: Axis>(p: &[A; 3], cell: Cell, lo: &[A; 3], size: A) -> (r: A)
    ensures
        r == distsq_upto(p@, center_at(cell, lo@, size), 3),
{
    let center = [
        middle(cell.0, lo[0], size),
        middle(cell.1, lo[1], size),
        middle(cell.2, lo[2], size),
    ];
    assert(center@ =~= center_at(cell, lo@, size));
    squared_distance(p, &center)
}

/// Compute the squared distance between `a` and `b`.
pub(crate) fn squared_distance<A: Axis>(a: &[A; 3], b: &[A; 3]) -> (r: A)
    ensures
        r == distsq_upto(a@, b@, 3),
{
    proof {
        A::total_operators();
        reveal_with_fuel(distsq_upto, 4);
    }
    A::ZERO + (a[0] - b[0]).square() + (a[1] - b[1]).square() + (a[2] - b[2]).square()
}

proof fn lemma_kept_in<A: Axis>(points: Seq<[A; 3]>, lo: Seq<A>, size: A, cell: Cell)
    ensures
        kept_in(points, lo, size, cell) matches Some(q) ==> {
            &&& points.contains(q)
            &&& cell_at(q@, lo, size) == cell
        },
        kept_in(points, lo, size, cell) is Some <==> occupied_cells(points, lo, size).contains(
            cell,
        ),
        occupied_cells(points, lo, size).no_duplicates(),
    decreases points.len(),
{
    if points.len() > 0 {
        let fewer = points.drop_last();
        lemma_kept_in(fewer, lo, size, cell);
        let p = points.last();
        assert(points[points.len() - 1] == p);
        assert forall|q: [A; 3]| fewer.contains(q) implies points.contains(q) by {
            let i = choose|i: int| 0 <= i < fewer.len() && fewer[i] == q;
            assert(points[i] == q);
        }
        let sofar = occupied_cells(fewer, lo, size);
        let here = cell_at(p@, lo, size);
        let cells = occupied_cells(points, lo, size);
        if !sofar.contains(here) {
            assert(cells[cells.len() - 1] == here);
            assert forall|c: Cell| sofar.contains(c) implies cells.contains(c) by {
                let i = choose|i: int| 0 <= i < sofar.len() && sofar[i] == c;
                assert(cells[i] == c);
            }
            if cells.contains(cell) && cell != here {
                let i = choose|i: int| 0 <= i < cells.len() && cells[i] == cell;
                assert(sofar[i] == cell);
            }
        }
    }
}

/// The filter keeps only points that were there, at most one in each voxel, and one in each voxel
/// that holds any.
pub proof fn centervox_keeps_one_point_per_voxel<A: Axis>(
    points: Seq<[A; 3]>,
    lo: Seq<A>,
    size: A,
)
    ensures
        forall|i: int|
            0 <= i < kept_points(points, lo, size).len() ==> points.contains(
                #[trigger] kept_points(points, lo, size)[i],
            ),
        forall|i: int, j: int|
            #![trigger kept_points(points, lo, size)[i], kept_points(points, lo, size)[j]]
            0 <= i < kept_points(points, lo, size).len() && 0 <= j < kept_points(
                points,
                lo,
                size,
            ).len() && cell_at(kept_points(points, lo, size)[i]@, lo, size) == cell_at(
                kept_points(points, lo, size)[j]@,
                lo,
                size,
            ) ==> i == j,
        forall|p: [A; 3]| #[trigger]
            points.contains(p) ==> exists|i: int|
                0 <= i < kept_points(points, lo, size).len() && cell_at(
                    (#[trigger] kept_points(points, lo, size)[i])@,
                    lo,
                    size,
                ) == cell_at(p@, lo, size),
        kept_points(points, lo, size).len() <= points.len(),
{
    let kept = kept_points(points, lo, size);
    let cells = occupied_cells(points, lo, size);
    assert forall|i: int| 0 <= i < kept.len() implies points.contains(#[trigger] kept[i])
        && cell_at(kept[i]@, lo, size) == cells[i] by {
        lemma_kept_in(points, lo, size, cells[i]);
        assert(cells.contains(cells[i]));
    }
    assert(cells.no_duplicates()) by {
        lemma_kept_in(points, lo, size, (0, 0, 0));
    }
    assert forall|p: [A; 3]| #[trigger] points.contains(p) implies exists|i: int|
        0 <= i < kept.len() && cell_at((#[trigger] kept[i])@, lo, size) == cell_at(
            p@,
            lo,
            size,
        ) by {
        lemma_occupied(points, lo, size, p);
        let cell = cell_at(p@, lo, size);
        let i = choose|i: int| 0 <= i < cells.len() && cells[i] == cell;
        assert(cell_at(kept[i]@, lo, size) == cell);
    }
    lemma_occupied_len(points, lo, size);
}

proof fn lemma_occupied<A: Axis>(points: Seq<[A; 3]>, lo: Seq<A>, size: A, p: [A; 3])
    requires
        points.contains(p),
    ensures
        occupied_cells(points, lo, size).contains(cell_at(p@, lo, size)),
    decreases points.len(),
{
    let cell = cell_at(p@, lo, size);
    let fewer = points.drop_last();
    let sofar = occupied_cells(fewer, lo, size);
    let cells = occupied_cells(points, lo, size);
    let i = choose|i: int| 0 <= i < points.len() && points[i] == p;
    if i < fewer.len() {
        assert(fewer[i] == p);
        lemma_occupied(fewer, lo, size, p);
        let j = choose|j: int| 0 <= j < sofar.len() && sofar[j] == cell;
        assert(cells[j] == cell);
    } else if !sofar.contains(cell) {
        assert(cells[cells.len() - 1] == cell);
    }
}

proof fn lemma_occupied_len<A: Axis>(points: Seq<[A; 3]>, lo: Seq<A>, size: A)
    ensures
        occupied_cells(points, lo, size).len() <= points.len(),
    decreases points.len(),
{
    if points.len() > 0 {
        lemma_occupied_len(points.drop_last(), lo, size);
    }
}

/// Where the distances to the centers compare, no point lies closer to the center of its voxel
/// than the one that is kept there.
pub proof fn centervox_keeps_the_closest<A: Axis>(
    points: Seq<[A; 3]>,
    lo: Seq<A>,
    size: A,
    cell: Cell,
)
    requires
        crate::laws::orders_values::<A>(),
        forall|i: int|
            0 <= i < points.len() ==> crate::axis::ordered(
                offset_of((#[trigger] points[i])@, lo, size),
            ),
    ensures
        forall|i: int|
            #![trigger points[i]]
            0 <= i < points.len() && cell_at(points[i]@, lo, size) == cell ==> {
                &&& kept_in(points, lo, size, cell) is Some
                &&& crate::axis::le(
                    offset_of(kept_in(points, lo, size, cell)->0@, lo, size),
                    offset_of(points[i]@, lo, size),
                )
            },
    decreases points.len(),
{
    if points.len() > 0 {
        let fewer = points.drop_last();
        assert forall|i: int| 0 <= i < fewer.len() implies crate::axis::ordered(
            offset_of((#[trigger] fewer[i])@, lo, size),
        ) by {
            assert(fewer[i] == points[i]);
        }
        centervox_keeps_the_closest(fewer, lo, size, cell);
        lemma_kept_in(fewer, lo, size, cell);
        let last = points[points.len() - 1];
        assert forall|i: int|
            #![trigger points[i]]
            0 <= i < points.len() && cell_at(points[i]@, lo, size) == cell implies {
            &&& kept_in(points, lo, size, cell) is Some
            &&& crate::axis::le(
                offset_of(kept_in(points, lo, size, cell)->0@, lo, size),
                offset_of(points[i]@, lo, size),
            )
        } by {
            let d = offset_of(last@, lo, size);
            match kept_in(fewer, lo, size, cell) {
                Some(q) => {
                    let j = choose|j: int| 0 <= j < fewer.len() && fewer[j] == q;
                    assert(fewer[j] == points[j]);
                    let e = offset_of(q@, lo, size);
                    assert(crate::axis::ordered(d) && crate::axis::ordered(e));
                    if i < fewer.len() {
                        assert(fewer[i] == points[i]);
                        assert(crate::axis::le(e, offset_of(points[i]@, lo, size)));
                        if lt(d, e) {
                            assert(crate::axis::le(d, e));
                        }
                    } else if !lt(d, e) {
                        assert(crate::axis::le(e, d));
                    }
                },
                None => {
                    if i < fewer.len() {
                        assert(fewer[i] == points[i]);
                    }
                },
            }
        }
    }
}

// ---------------------------------------------------------------------------------------------
// The Morton-order filter
// ---------------------------------------------------------------------------------------------

/// Every third bit, from the lowest on.
pub const CODE_MASK: u32 = 0x0924_9249;

/// Whether bit `b` of `x` is set.
pub open spec fn bit(x: u32, b: nat) -> bool {
    (x >> (b as u32)) & 1u32 == 1u32
}

/// The number of bits of `mask` below bit `n` that are set.
pub open spec fn ones_below(mask: u32, n: nat) -> nat
    decreases n,
{
    if n == 0 {
        0
    } else if bit(mask, (n - 1) as nat) {
        ones_below(mask, (n - 1) as nat) + 1
    } else {
        ones_below(mask, (n - 1) as nat)
    }
}

/// The lowest bits of `a`, in ascending order, at those of the lowest `n` bit positions that are
/// set in `mask`.
pub open spec fn deposited(a: u32, mask: u32, n: nat) -> u32
    decreases n,
{
    if n == 0 {
        0
    } else {
        let b = (n - 1) as nat;
        let sofar = deposited(a, mask, b);
        if bit(mask, b) && bit(a, ones_below(mask, b)) {
            sofar | (1u32 << (b as u32))
        } else {
            sofar
        }
    }
}

/// Deposit the low `mask.count_ones()` bits of `a` into the bit positions set in `mask`, in
/// ascending order (a portable fallback for the `pdep` instruction).
pub fn pdep(a: u32, mask: u32) -> (r: u32)
    ensures
        r == deposited(a, mask, 32),
{
    let mut out: u32 = 0;
    let mut j: u32 = 0;
    let mut b: u32 = 0;
    while b < 32
        invariant
            b <= 32,
            j <= b,
            j == ones_below(mask, b as nat),
            out == deposited(a, mask, b as nat),
        decreases 32 - b,
    {
        if (mask >> b) & 1 == 1 {
            if (a >> j) & 1 == 1 {
                out = out | (1u32 << b);
            }
            j += 1;
        }
        b += 1;
    }
    out
}

/// A deposited word has exactly the bits that its description says: bit `b` is set if `mask` has
/// it and `a` has the bit with its rank among the bits of `mask`.
pub proof fn deposited_bits(a: u32, mask: u32, n: nat, b: nat)
    requires
        n <= 32,
        b < 32,
    ensures
        bit(deposited(a, mask, n), b) <==> b < n && bit(mask, b) && bit(a, ones_below(mask, b)),
    decreases n,
{
    if n == 0 {
        let s = b as u32;
        assert((0u32 >> s) & 1u32 == 0u32) by (bit_vector)
            requires
                s < 32,
        ;
    } else {
        let m = (n - 1) as nat;
        deposited_bits(a, mask, m, b);
        let sofar = deposited(a, mask, m);
        let s = b as u32;
        let t = m as u32;
        if b == m {
            assert(((sofar | (1u32 << t)) >> t) & 1u32 == 1u32) by (bit_vector)
                requires
                    t < 32,
            ;
        } else {
            assert(((sofar | (1u32 << t)) >> s) & 1u32 == (sofar >> s) & 1u32) by (bit_vector)
                requires
                    t < 32,
                    s < 32,
                    s != t,
            ;
        }
    }
}

/// The position of `x` between `lo` and `hi`, in steps of a 1024th of the extent.
pub open spec fn quantized<A: Axis>(x: A, lo: A, hi: A) -> u32 {
    let extent = minus(hi, lo);
    let normalized = if gt(extent, A::ZERO) {
        over(minus(x, lo), extent)
    } else {
        A::ZERO
    };
    let n = times(normalized, A::from_usize_spec(1024)).to_index_spec();
    if n > u32::MAX {
        u32::MAX
    } else {
        n as u32
    }
}

/// The Morton (Z-order) code of `p` between `lo` and `hi`: the bits of the axes interleaved in the
/// order of `permutation`.
pub open spec fn morton_code<A: Axis>(
    p: Seq<A>,
    lo: Seq<A>,
    hi: Seq<A>,
    permutation: Seq<usize>,
) -> u32 {
    let word = |i: int|
        deposited(
            quantized(
                p[permutation[i] as int],
                lo[permutation[i] as int],
                hi[permutation[i] as int],
            ),
            CODE_MASK << (i as u32),
            32,
        );
    word(0) | word(1) | word(2)
}

fn quantize<A: Axis>(x: A, lo: A, hi: A) -> (r: u32)
    ensures
        r == quantized(x, lo, hi),
{
    proof {
        A::total_operators();
    }
    let extent = hi - lo;
    let normalized = if extent > A::ZERO {
        (x - lo) / extent
    } else {
        A::ZERO
    };
    let n: usize = (normalized * A::from_usize(1024)).to_index();
    if n > u32::MAX as usize {
        u32::MAX
    } else {
        n as u32
    }
}

/// Compute the Morton (Z-order) code of `point` within `[aabb_min, aabb_max]`, interleaving each
/// axis's bits in the order given by `permutation` (a permutation of `[0, 1, 2]`).
fn morton_index<A: Axis>(
    point: &[A; 3],
    aabb_min: &[A; 3],
    aabb_max: &[A; 3],
    permutation: &[usize; 3],
) -> (r: u32)
    requires
        forall|i: int| 0 <= i < 3 ==> #[trigger] permutation@[i] < 3,
    ensures
        r == morton_code(point@, aabb_min@, aabb_max@, permutation@),
{
    assert(permutation@[0] < 3 && permutation@[1] < 3 && permutation@[2] < 3);
    let x: usize = permutation[0];
    let y: usize = permutation[1];
    let z: usize = permutation[2];
    let first: u32 = pdep(quantize(point[x], aabb_min[x], aabb_max[x]), CODE_MASK << 0u32);
    let second: u32 = pdep(quantize(point[y], aabb_min[y], aabb_max[y]), CODE_MASK << 1u32);
    let third: u32 = pdep(quantize(point[z], aabb_min[z], aabb_max[z]), CODE_MASK << 2u32);
    first | second | third
}

/// The Morton code of each of `points` within the box over all of them.
pub open spec fn codes<A: Axis>(points: Seq<[A; 3]>, permutation: Seq<usize>) -> Seq<u32> {
    Seq::new(
        points.len(),
        |i: int| morton_code(points[i]@, lowest(points), highest(points), permutation),
    )
}

/// `points` in ascending order of their Morton codes; points with equal codes keep their order.
pub open spec fn in_morton_order<A: Axis>(points: Seq<[A; 3]>, permutation: Seq<usize>) -> Seq<
    [A; 3],
> {
    let order = stable_order(codes(points, permutation));
    Seq::new(order.len(), |i: int| points[order[i] as int])
}

/// `points` without those that lie within a squared distance of `rsq` of the last one kept.
pub open spec fn thinned<A: Axis>(points: Seq<[A; 3]>, rsq: A) -> Seq<[A; 3]>
    decreases points.len(),
{
    if points.len() <= 1 {
        points
    } else {
        let kept = thinned(points.drop_last(), rsq);
        let p = points.last();
        if gt(distsq_upto(kept.last()@, p@, 3), rsq) {
            kept.push(p)
        } else {
            kept
        }
    }
}

/// What one pass of the filter leaves.
pub open spec fn filtered<A: Axis>(
    points: Seq<[A; 3]>,
    min_sep: A,
    permutation: Seq<usize>,
) -> Seq<[A; 3]> {
    if points.len() < 2 {
        points
    } else {
        thinned(in_morton_order(points, permutation), times(min_sep, min_sep))
    }
}

/// What the passes along all permutations of the axes leave, one after another.
pub open spec fn morton_filtered<A: Axis>(points: Seq<[A; 3]>, min_sep: A) -> Seq<[A; 3]> {
    let a = filtered(points, min_sep, seq![0usize, 1usize, 2usize]);
    let b = filtered(a, min_sep, seq![0usize, 2usize, 1usize]);
    let c = filtered(b, min_sep, seq![1usize, 0usize, 2usize]);
    let d = filtered(c, min_sep, seq![1usize, 2usize, 0usize]);
    let e = filtered(d, min_sep, seq![2usize, 0usize, 1usize]);
    filtered(e, min_sep, seq![2usize, 1usize, 0usize])
}

proof fn lemma_thinned_len<A: Axis>(points: Seq<[A; 3]>, rsq: A)
    ensures
        thinned(points, rsq).len() <= points.len(),
        points.len() > 0 ==> thinned(points, rsq).len() > 0,
    decreases points.len(),
{
    if points.len() > 1 {
        lemma_thinned_len(points.drop_last(), rsq);
    }
}

/// A single Morton-order filtering pass along one axis `permutation`; see [`morton_filter`].
fn filter_permutation<A: Axis>(points: &mut Vec<[A; 3]>, min_sep: A, permutation: [usize; 3])
    requires
        forall|i: int| 0 <= i < 3 ==> #[trigger] permutation@[i] < 3,
    ensures
        final(points)@ == filtered(old(points)@, min_sep, permutation@),
{
    if points.len() < 2 {
        return;
    }
    let ghost before = points@;
    let (aabb_min, aabb_max) = extremes(points);
    proof {
        A::total_operators();
    }
    let rsq = min_sep * min_sep;
    let mut keys: Vec<u32> = Vec::with_capacity(points.len());
    let mut n: usize = 0;
    while n < points.len()
        invariant
            n <= points.len(),
            points@ == before,
            aabb_min@ == lowest(before),
            aabb_max@ == highest(before),
            forall|i: int| 0 <= i < 3 ==> #[trigger] permutation@[i] < 3,
            keys@ == codes(before, permutation@).take(n as int),
        decreases points.len() - n,
    {
        keys.push(morton_index(&points[n], &aabb_min, &aabb_max, &permutation));
        assert(keys@ =~= codes(before, permutation@).take(n + 1));
        n += 1;
    }
    assert(keys@ =~= codes(before, permutation@));
    let order: Vec<usize> = order_by(&keys);
    let ghost arranged = in_morton_order(before, permutation@);
    let mut kept: Vec<[A; 3]> = Vec::with_capacity(points.len());
    kept.push(points[order[0]]);
    let mut j: usize = 1;
    assert(kept@ =~= thinned(arranged.take(1), rsq));
    while j < order.len()
        invariant
            1 <= j <= order.len(),
            points@ == before,
            order@ == stable_order(codes(before, permutation@)),
            arranged == in_morton_order(before, permutation@),
            forall|i: int| 0 <= i < order@.len() ==> #[trigger] order@[i] < before.len(),
            kept@ == thinned(arranged.take(j as int), rsq),
            kept@.len() > 0,
        decreases order.len() - j,
    {
        let p: [A; 3] = points[order[j]];
        let last: usize = kept.len() - 1;
        let d = squared_distance(&kept[last], &p);
        proof {
            A::total_operators();
            assert(arranged.take(j + 1).drop_last() =~= arranged.take(j as int));
            assert(arranged.take(j + 1).last() == p);
        }
        if d > rsq {
            kept.push(p);
        }
        j += 1;
    }
    assert(arranged.take(j as int) =~= arranged);
    *points = kept;
}

/// Downsample `points` in place by, for every permutation of the 3 axes, sorting by Morton
/// (Z-order) code along that permutation and greedily dropping any point that lands within
/// `min_sep` of the previous (Morton-adjacent) point kept.
///
/// A single Morton curve has locality gaps (points that are spatially close can land far apart in
/// Morton order at certain boundaries), so the sort-and-filter pass is repeated across all 6 axis
/// permutations to catch near-neighbors any single permutation's gaps would miss.
pub fn morton_filter<A: Axis>(points: &mut Vec<[A; 3]>, min_sep: A)
    ensures
        final(points)@ == morton_filtered(old(points)@, min_sep),
{
    let permutations: [[usize; 3]; 6] = [
        [0, 1, 2],
        [0, 2, 1],
        [1, 0, 2],
        [1, 2, 0],
        [2, 0, 1],
        [2, 1, 0],
    ];
    assert(permutations[0]@ =~= seq![0usize, 1usize, 2usize]);
    assert(permutations[1]@ =~= seq![0usize, 2usize, 1usize]);
    assert(permutations[2]@ =~= seq![1usize, 0usize, 2usize]);
    assert(permutations[3]@ =~= seq![1usize, 2usize, 0usize]);
    assert(permutations[4]@ =~= seq![2usize, 0usize, 1usize]);
    assert(permutations[5]@ =~= seq![2usize, 1usize, 0usize]);
    filter_permutation(points, min_sep, permutations[0]);
    filter_permutation(points, min_sep, permutations[1]);
    filter_permutation(points, min_sep, permutations[2]);
    filter_permutation(points, min_sep, permutations[3]);
    filter_permutation(points, min_sep, permutations[4]);
    filter_permutation(points, min_sep, permutations[5]);
}

/// A pass over a cloud keeps only points that were there, and at least one if there were any.
pub proof fn filtered_is_a_part<A: Axis>(
    points: Seq<[A; 3]>,
    min_sep: A,
    permutation: Seq<usize>,
)
    requires
        points.len() <= usize::MAX,
    ensures
        filtered(points, min_sep, permutation).len() <= points.len(),
        points.len() > 0 ==> filtered(points, min_sep, permutation).len() > 0,
        filtered(points, min_sep, permutation).to_multiset().subset_of(points.to_multiset()),
{
    if points.len() >= 2 {
        let arranged = in_morton_order(points, permutation);
        let keys = codes(points, permutation);
        stable_order_keeps_items(keys, points);
        assert(arranged =~= Seq::new(
            keys.len(),
            |i: int| points[stable_order(keys)[i] as int],
        ));
        lemma_thinned_len(arranged, times(min_sep, min_sep));
        lemma_thinned_part(arranged, times(min_sep, min_sep));
    }
}

proof fn lemma_thinned_part<A: Axis>(points: Seq<[A; 3]>, rsq: A)
    ensures
        thinned(points, rsq).to_multiset().subset_of(points.to_multiset()),
    decreases points.len(),
{
    if points.len() > 1 {
        let fewer = points.drop_last();
        lemma_thinned_part(fewer, rsq);
        assert(fewer.push(points.last()) =~= points);
        fewer.to_multiset_ensures();
        thinned(fewer, rsq).to_multiset_ensures();
    }
}

/// After a pass, each point that was kept lies farther than `min_sep` from the one before it, as
/// the squared distance is computed.
pub proof fn thinned_points_are_apart<A: Axis>(points: Seq<[A; 3]>, rsq: A)
    ensures
        forall|i: int|
            #![trigger thinned(points, rsq)[i]]
            1 <= i < thinned(points, rsq).len() ==> gt(
                distsq_upto(thinned(points, rsq)[i - 1]@, thinned(points, rsq)[i]@, 3),
                rsq,
            ),
    decreases points.len(),
{
    if points.len() > 1 {
        thinned_points_are_apart(points.drop_last(), rsq);
        lemma_thinned_len(points.drop_last(), rsq);
        let kept = thinned(points.drop_last(), rsq);
        let all = thinned(points, rsq);
        assert forall|i: int|
            #![trigger all[i]]
            1 <= i < all.len() implies gt(distsq_upto(all[i - 1]@, all[i]@, 3), rsq) by {
            if i < kept.len() {
                assert(all[i] == kept[i] && all[i - 1] == kept[i - 1]);
            } else {
                assert(all[i - 1] == kept.last());
            }
        }
    }
}

/// The filter never makes up a point and never drops the last one.
pub proof fn morton_filter_keeps_a_part<A: Axis>(points: Seq<[A; 3]>, min_sep: A)
    requires
        points.len() <= usize::MAX,
    ensures
        morton_filtered(points, min_sep).len() <= points.len(),
        points.len() > 0 ==> morton_filtered(points, min_sep).len() > 0,
        morton_filtered(points, min_sep).to_multiset().subset_of(points.to_multiset()),
{
    let a = filtered(points, min_sep, seq![0usize, 1usize, 2usize]);
    filtered_is_a_part(points, min_sep, seq![0usize, 1usize, 2usize]);
    let b = filtered(a, min_sep, seq![0usize, 2usize, 1usize]);
    filtered_is_a_part(a, min_sep, seq![0usize, 2usize, 1usize]);
    let c = filtered(b, min_sep, seq![1usize, 0usize, 2usize]);
    filtered_is_a_part(b, min_sep, seq![1usize, 0usize, 2usize]);
    let d = filtered(c, min_sep, seq![1usize, 2usize, 0usize]);
    filtered_is_a_part(c, min_sep, seq![1usize, 2usize, 0usize]);
    let e = filtered(d, min_sep, seq![2usize, 0usize, 1usize]);
    filtered_is_a_part(d, min_sep, seq![2usize, 0usize, 1usize]);
    filtered_is_a_part(e, min_sep, seq![2usize, 1usize, 0usize]);
}

} // verus!

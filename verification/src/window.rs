//! Walking the block of grid cells that a query sphere can touch.

use crate::axis::{minus, plus, times, Axis};
use vstd::prelude::*;

verus! {

/// `i`, or the last index of an axis of `width` cells where `i` lies beyond it.
pub open spec fn capped(i: usize, width: usize) -> usize {
    if i < width {
        i
    } else {
        (width - 1) as usize
    }
}

/// The first coordinate of the window around `c`, on one axis.
pub open spec fn first_of<A: Axis>(c: A, r: A, lo: A, scale: A, width: usize) -> usize {
    capped(minus(times(minus(c, lo), scale), times(r, scale)).to_index_spec(), width)
}

/// The last coordinate of the window around `c`, on one axis: never before the first.
pub open spec fn last_of<A: Axis>(c: A, r: A, lo: A, scale: A, width: usize) -> usize {
    let first = first_of(c, r, lo, scale, width);
    let last = capped(plus(times(minus(c, lo), scale), times(r, scale)).to_index_spec(), width);
    if last < first {
        first
    } else {
        last
    }
}

/// Whether `cell` lies between `first` and `last` on every axis.
pub open spec fn between(first: Seq<usize>, last: Seq<usize>, cell: Seq<usize>) -> bool {
    &&& cell.len() == first.len()
    &&& forall|k: int| 0 <= k < first.len() ==> first[k] <= #[trigger] cell[k] <= last[k]
}

/// Compute the window of grid cells around a sphere with center `center` and radius `r`.
pub(crate) fn window<A: Axis, const K: usize>(
    center: &[A; K],
    r: A,
    lo: &[A; K],
    scale: &[A; K],
    grid_width: &[usize; K],
) -> (w: ([usize; K], [usize; K]))
    requires
        forall|k: int| 0 <= k < K ==> #[trigger] grid_width@[k] >= 1,
    ensures
        forall|k: int|
            0 <= k < K ==> #[trigger] w.0@[k] == first_of(
                center@[k],
                r,
                lo@[k],
                scale@[k],
                grid_width@[k],
            ),
        forall|k: int|
            0 <= k < K ==> #[trigger] w.1@[k] == last_of(
                center@[k],
                r,
                lo@[k],
                scale@[k],
                grid_width@[k],
            ),
{
    let mut first = [0usize; K];
    let mut last = [0usize; K];
    let mut k: usize = 0;
    while k < K
        invariant
            k <= K,
            forall|k: int| 0 <= k < K ==> #[trigger] grid_width@[k] >= 1,
            forall|i: int|
                0 <= i < k ==> #[trigger] first@[i] == first_of(
                    center@[i],
                    r,
                    lo@[i],
                    scale@[i],
                    grid_width@[i],
                ),
            forall|i: int|
                0 <= i < k ==> #[trigger] last@[i] == last_of(
                    center@[i],
                    r,
                    lo@[i],
                    scale@[i],
                    grid_width@[i],
                ),
        decreases K - k,
    {
        proof {
            A::total_operators();
            assert(grid_width@[k as int] >= 1);
        }
        let grid_max: usize = grid_width[k] - 1;
        // theoretically has epsilon-scale errors, but is ok
        let rg = r * scale[k];
        let v = (center[k] - lo[k]) * scale[k];
        let below: usize = (v - rg).to_index();
        let above: usize = (v + rg).to_index();
        let start: usize = if below < grid_max {
            below
        } else {
            grid_max
        };
        let end: usize = if above < grid_max {
            above
        } else {
            grid_max
        };
        first[k] = start;
        last[k] = if end < start {
            start
        } else {
            end
        };
        k += 1;
    }
    (first, last)
}

/// The number of cells between `first` and `last`, over the first `n` axes.
pub open spec fn volume(first: Seq<usize>, last: Seq<usize>, n: nat) -> nat
    decreases n,
{
    if n == 0 {
        1
    } else {
        volume(first, last, (n - 1) as nat) * ((last[n - 1] - first[n - 1] + 1) as nat)
    }
}

/// The position of `cell` in a walk from `first` to `last` that steps along axis 0 fastest, over
/// the first `n` axes.
pub open spec fn rank(first: Seq<usize>, last: Seq<usize>, cell: Seq<usize>, n: nat) -> nat
    decreases n,
{
    if n == 0 {
        0
    } else {
        rank(first, last, cell, (n - 1) as nat) + volume(first, last, (n - 1) as nat) * ((cell[n
            - 1] - first[n - 1]) as nat)
    }
}

/// Every cell of the window has its own position, below the number of cells.
pub(crate) proof fn lemma_rank_bound(first: Seq<usize>, last: Seq<usize>, cell: Seq<usize>, n: nat)
    requires
        between(first, last, cell),
        n <= first.len(),
    ensures
        rank(first, last, cell, n) < volume(first, last, n),
    decreases n,
{
    if n > 0 {
        let m = (n - 1) as nat;
        lemma_rank_bound(first, last, cell, m);
        assert(first[m as int] <= cell[m as int] <= last[m as int]);
        let v = volume(first, last, m);
        let d = (cell[m as int] - first[m as int]) as nat;
        let s = (last[m as int] - first[m as int] + 1) as nat;
        assert(v * d + v <= v * s) by (nonlinear_arith)
            requires
                d + 1 <= s,
        ;
    }
}

pub(crate) proof fn lemma_rank_injective(
    first: Seq<usize>,
    last: Seq<usize>,
    a: Seq<usize>,
    b: Seq<usize>,
    n: nat,
)
    requires
        between(first, last, a),
        between(first, last, b),
        n <= first.len(),
        rank(first, last, a, n) == rank(first, last, b, n),
    ensures
        forall|k: int| 0 <= k < n ==> a[k] == b[k],
    decreases n,
{
    if n > 0 {
        let m = (n - 1) as nat;
        lemma_rank_bound(first, last, a, m);
        lemma_rank_bound(first, last, b, m);
        assert(first[m as int] <= a[m as int] && first[m as int] <= b[m as int]);
        let v = volume(first, last, m);
        let ra = rank(first, last, a, m);
        let rb = rank(first, last, b, m);
        let da = (a[m as int] - first[m as int]) as nat;
        let db = (b[m as int] - first[m as int]) as nat;
        assert(da == db) by (nonlinear_arith)
            requires
                ra + v * da == rb + v * db,
                ra < v,
                rb < v,
        ;
        lemma_rank_injective(first, last, a, b, m);
    }
}

/// The walk starts at `first`.
pub(crate) proof fn lemma_first_rank(first: Seq<usize>, last: Seq<usize>, n: nat)
    ensures
        rank(first, last, first, n) == 0,
    decreases n,
{
    if n > 0 {
        lemma_first_rank(first, last, (n - 1) as nat);
        let v = volume(first, last, (n - 1) as nat);
        assert(v * 0 == 0) by (nonlinear_arith);
    }
}

/// `next` is `cell` with its coordinates below axis `d` moved from the last to the first of the
/// window, and one step taken along axis `d`.
spec fn steps_at(
    first: Seq<usize>,
    last: Seq<usize>,
    cell: Seq<usize>,
    next: Seq<usize>,
    d: nat,
) -> bool {
    &&& d < first.len()
    &&& cell.len() == first.len()
    &&& next.len() == first.len()
    &&& forall|k: int|
        #![trigger cell[k]]
        #![trigger next[k]]
        0 <= k < first.len() ==> {
            &&& k < d ==> cell[k] == last[k] && next[k] == first[k]
            &&& k == d ==> next[k] == cell[k] + 1
            &&& k > d ==> next[k] == cell[k]
        }
}

proof fn lemma_step_rank(
    first: Seq<usize>,
    last: Seq<usize>,
    cell: Seq<usize>,
    next: Seq<usize>,
    d: nat,
    n: nat,
)
    requires
        between(first, last, cell),
        steps_at(first, last, cell, next, d),
        n <= first.len(),
    ensures
        n <= d ==> rank(first, last, cell, n) == volume(first, last, n) - 1,
        n <= d ==> rank(first, last, next, n) == 0,
        n > d ==> rank(first, last, next, n) == rank(first, last, cell, n) + 1,
    decreases n,
{
    if n > 0 {
        let m = (n - 1) as nat;
        lemma_step_rank(first, last, cell, next, d, m);
        let v = volume(first, last, m);
        assert(first[m as int] <= cell[m as int] <= last[m as int]);
        let c = (cell[m as int] - first[m as int]) as nat;
        let s = (last[m as int] - first[m as int]) as nat;
        assert(next[m as int] == next[m as int]);
        assert(v * (c + 1) == v * c + v) by (nonlinear_arith);
        assert(v * (s + 1) == v * s + v) by (nonlinear_arith);
        assert(v * 0 == 0) by (nonlinear_arith);
    }
}

proof fn lemma_last_rank(first: Seq<usize>, last: Seq<usize>, cell: Seq<usize>, n: nat)
    requires
        between(first, last, cell),
        n <= first.len(),
        forall|k: int| 0 <= k < n ==> #[trigger] cell[k] == last[k],
    ensures
        rank(first, last, cell, n) == volume(first, last, n) - 1,
    decreases n,
{
    if n > 0 {
        let m = (n - 1) as nat;
        lemma_last_rank(first, last, cell, m);
        let v = volume(first, last, m);
        assert(first[m as int] <= cell[m as int]);
        let s = (last[m as int] - first[m as int]) as nat;
        assert(v * (s + 1) == v * s + v) by (nonlinear_arith);
    }
}

/// Step `coords` to the next cell of the window, odometer-style; `false` if there is none.
pub(crate) fn next_cell<const K: usize>(
    coords: &mut [usize; K],
    first: &[usize; K],
    last: &[usize; K],
) -> (more: bool)
    requires
        between(first@, last@, old(coords)@),
    ensures
        more ==> {
            &&& between(first@, last@, final(coords)@)
            &&& rank(first@, last@, final(coords)@, K as nat) == rank(
                first@,
                last@,
                old(coords)@,
                K as nat,
            ) + 1
            &&& rank(first@, last@, final(coords)@, K as nat) < volume(first@, last@, K as nat)
        },
        !more ==> rank(first@, last@, old(coords)@, K as nat) + 1 == volume(
            first@,
            last@,
            K as nat,
        ),
{
    let ghost before = coords@;
    let mut dim: usize = 0;
    while dim < K
        invariant
            dim <= K,
            before == old(coords)@,
            between(first@, last@, before),
            forall|k: int|
                0 <= k < K ==> #[trigger] coords@[k] == if k < dim {
                    first@[k]
                } else {
                    before[k]
                },
            forall|k: int| 0 <= k < dim ==> #[trigger] before[k] == last@[k],
        decreases K - dim,
    {
        assert(coords@[dim as int] == before[dim as int]);
        if coords[dim] < last[dim] {
            coords[dim] = coords[dim] + 1;
            proof {
                assert(before[dim as int] == before[dim as int]);
                assert(steps_at(first@, last@, before, coords@, dim as nat));
                lemma_step_rank(first@, last@, before, coords@, dim as nat, K as nat);
                assert forall|k: int| 0 <= k < K implies first@[k] <= #[trigger] coords@[k]
                    <= last@[k] by {
                    assert(first@[k] <= before[k] <= last@[k]);
                }
                lemma_rank_bound(first@, last@, coords@, K as nat);
            }
            return true;
        }
        assert(first@[dim as int] <= before[dim as int] <= last@[dim as int]);
        coords[dim] = first[dim];
        dim += 1;
    }
    proof {
        lemma_last_rank(first@, last@, before, K as nat);
    }
    false
}

} // verus!

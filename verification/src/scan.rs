//! Scanning the points of a voxel.

use crate::axis::{le, minus, plus, Axis};
use vstd::prelude::*;

verus! {

/// The number of points that a scan over a voxel processes at a time.
pub const SCAN_BLOCK: usize = 8;

/// The squared distance between `p` and `c`, over the first `n` axes.
pub open spec fn distsq_upto<A: Axis>(p: Seq<A>, c: Seq<A>, n: nat) -> A
    decreases n,
{
    if n == 0 {
        A::ZERO
    } else {
        plus(distsq_upto(p, c, (n - 1) as nat), minus(p[n - 1], c[n - 1]).square_spec())
    }
}

/// The squared distance between `p` and `c`.
pub open spec fn distsq<A: Axis>(p: Seq<A>, c: Seq<A>) -> A {
    distsq_upto(p, c, c.len())
}

/// The point with index `i` among points stored as one sequence of coordinates for each axis.
pub open spec fn gather<A>(axes: Seq<Seq<A>>, i: int) -> Seq<A> {
    Seq::new(axes.len(), |k: int| axes[k][i])
}

/// The points stored as one sequence of coordinates for each axis.
pub open spec fn rows<A>(axes: Seq<Seq<A>>) -> Seq<Seq<A>> {
    Seq::new(axes[0].len(), |i: int| gather(axes, i))
}

/// The sequences behind an array of slices.
pub open spec fn columns<A, const K: usize>(axes: [&[A]; K]) -> Seq<Seq<A>> {
    Seq::new(K as nat, |k: int| axes[k]@)
}

/// Whether one of `points` lies within a squared distance of `rsq` from `c`.
pub open spec fn any_within<A: Axis>(points: Seq<Seq<A>>, c: Seq<A>, rsq: A) -> bool {
    exists|i: int| 0 <= i < points.len() && le(distsq(#[trigger] points[i], c), rsq)
}

/// Determine whether any of the points described by `axes` (one contiguous per-axis slice each,
/// all the same length) lies within a squared distance of `rsq` from `center`.
pub fn scan_block<A: Axis, const K: usize, const BLOCK: usize>(
    axes: &[&[A]; K],
    center: &[A; K],
    rsq: A,
) -> (r: bool)
    requires
        K > 0,
        BLOCK > 0,
        forall|k: int| 0 <= k < K ==> (#[trigger] axes[k])@.len() == axes[0]@.len(),
    ensures
        r == any_within(rows(columns(*axes)), center@, rsq),
{
    let ghost points = rows(columns(*axes));
    let count: usize = axes[0].len();
    let mut i: usize = 0;
    while BLOCK <= count - i
        invariant
            i <= count,
            BLOCK > 0,
            K > 0,
            count == axes[0]@.len(),
            points == rows(columns(*axes)),
            forall|k: int| 0 <= k < K ==> (#[trigger] axes[k])@.len() == count,
            forall|j: int| 0 <= j < i ==> !le(distsq(#[trigger] points[j], center@), rsq),
        decreases count - i,
    {
        let mut total = [A::ZERO; BLOCK];
        let mut k: usize = 0;
        while k < K
            invariant
                k <= K,
                K > 0,
                i + BLOCK <= count,
                count == axes[0]@.len(),
                points == rows(columns(*axes)),
                forall|k: int| 0 <= k < K ==> (#[trigger] axes[k])@.len() == count,
                forall|j: int|
                    0 <= j < BLOCK ==> #[trigger] total@[j] == distsq_upto(
                        points[i + j],
                        center@,
                        k as nat,
                    ),
            decreases K - k,
        {
            let c = center[k];
            let axis: &[A] = axes[k];
            let mut j: usize = 0;
            while j < BLOCK
                invariant
                    j <= BLOCK,
                    k < K,
                    i + BLOCK <= count,
                    axis@.len() == count,
                    count == axes[0]@.len(),
                    axis == axes[k as int],
                    c == center@[k as int],
                    points == rows(columns(*axes)),
                    forall|l: int|
                        0 <= l < BLOCK ==> #[trigger] total@[l] == distsq_upto(
                            points[i + l],
                            center@,
                            (if l < j {
                                k + 1
                            } else {
                                k as int
                            }) as nat,
                        ),
                decreases BLOCK - j,
            {
                proof {
                    A::total_operators();
                    assert(points[i + j][k as int] == axis@[i + j]);
                }
                let diff = axis[i + j] - c;
                total[j] = total[j] + diff.square();
                j += 1;
            }
            k += 1;
        }
        let mut j: usize = 0;
        while j < BLOCK
            invariant
                j <= BLOCK,
                i + BLOCK <= count,
                points == rows(columns(*axes)),
                count == points.len(),
                forall|l: int|
                    0 <= l < BLOCK ==> #[trigger] total@[l] == distsq(points[i + l], center@),
                forall|l: int|
                    0 <= l < i + j ==> !le(distsq(#[trigger] points[l], center@), rsq),
            decreases BLOCK - j,
        {
            proof {
                A::total_operators();
                assert(total@[j as int] == distsq(points[i + j], center@));
            }
            if total[j] <= rsq {
                return true;
            }
            j += 1;
        }
        i += BLOCK;
    }
    // fewer than `BLOCK` points remain: check them one at a time.
    while i < count
        invariant
            i <= count,
            K > 0,
            count == axes[0]@.len(),
            points == rows(columns(*axes)),
            forall|k: int| 0 <= k < K ==> (#[trigger] axes[k])@.len() == count,
            forall|j: int| 0 <= j < i ==> !le(distsq(#[trigger] points[j], center@), rsq),
        decreases count - i,
    {
        let mut total = A::ZERO;
        let mut k: usize = 0;
        while k < K
            invariant
                k <= K,
                i < count,
                count == axes[0]@.len(),
                points == rows(columns(*axes)),
                forall|k: int| 0 <= k < K ==> (#[trigger] axes[k])@.len() == count,
                total == distsq_upto(points[i as int], center@, k as nat),
            decreases K - k,
        {
            proof {
                A::total_operators();
                assert(points[i as int][k as int] == axes[k as int]@[i as int]);
            }
            let diff = axes[k][i] - center[k];
            total = total + diff.square();
            k += 1;
        }
        proof {
            A::total_operators();
            assert(total == distsq(points[i as int], center@));
        }
        if total <= rsq {
            return true;
        }
        i += 1;
    }
    false
}

} // verus!

//! Axis-aligned bounding boxes.

use crate::axis::{gt, lt, minus, plus, Axis};
use vstd::prelude::*;

verus! {

/// The corners of a box, as sequences with one value for each axis.
pub struct Bounds<A> {
    pub lo: Seq<A>,
    pub hi: Seq<A>,
}

impl<A: Axis> Bounds<A> {
    /// The box in `k` dimensions that contains no points.
    pub open spec fn empty(k: nat) -> Self {
        Bounds { lo: Seq::new(k, |i: int| A::INFINITY), hi: Seq::new(k, |i: int| A::NEG_INFINITY) }
    }

    /// The box that contains just the point `p`.
    pub open spec fn at(p: Seq<A>) -> Self {
        Bounds { lo: p, hi: p }
    }

    /// This box, grown so that it also contains `p`.
    pub open spec fn extend(self, p: Seq<A>) -> Self {
        Bounds {
            lo: Seq::new(
                self.lo.len(),
                |k: int|
                    if lt(p[k], self.lo[k]) {
                        p[k]
                    } else {
                        self.lo[k]
                    },
            ),
            hi: Seq::new(
                self.hi.len(),
                |k: int|
                    if gt(p[k], self.hi[k]) {
                        p[k]
                    } else {
                        self.hi[k]
                    },
            ),
        }
    }

    /// This box, grown by each of `points` in turn.
    pub open spec fn extend_all(self, points: Seq<Seq<A>>) -> Self
        decreases points.len(),
    {
        if points.len() == 0 {
            self
        } else {
            self.extend_all(points.drop_last()).extend(points.last())
        }
    }

    /// The value closest to `x` on axis `k` of this box.
    pub open spec fn clamp(self, k: int, x: A) -> A {
        if lt(x, self.lo[k]) {
            self.lo[k]
        } else if gt(x, self.hi[k]) {
            self.hi[k]
        } else {
            x
        }
    }

    /// The squared distance from `p` to the closest point of this box, over the first `n` axes.
    pub open spec fn closest_distsq(self, p: Seq<A>, n: nat) -> A
        decreases n,
    {
        if n == 0 {
            A::ZERO
        } else {
            let k = n - 1;
            plus(
                self.closest_distsq(p, (n - 1) as nat),
                minus(p[k], self.clamp(k, p[k])).square_spec(),
            )
        }
    }
}

/// The points of a cloud as sequences of axis values.
pub open spec fn cloud<A, const K: usize>(points: Seq<[A; K]>) -> Seq<Seq<A>> {
    Seq::new(points.len(), |i: int| points[i]@)
}

/// Whether every coordinate of `p` is finite.
pub open spec fn finite<A: Axis>(p: Seq<A>) -> bool {
    forall|k: int| 0 <= k < p.len() ==> (#[trigger] p[k]).is_finite_spec()
}

/// Whether every coordinate of every point is finite.
pub open spec fn all_finite<A: Axis>(points: Seq<Seq<A>>) -> bool {
    forall|i: int| 0 <= i < points.len() ==> finite(#[trigger] points[i])
}

/// Determine whether every coordinate of `p` is finite.
pub fn is_finite<A: Axis, const K: usize>(p: &[A; K]) -> (r: bool)
    ensures
        r == finite(p@),
{
    let mut k: usize = 0;
    while k < K
        invariant
            k <= K,
            forall|i: int| 0 <= i < k ==> (#[trigger] p@[i]).is_finite_spec(),
        decreases K - k,
    {
        if !p[k].is_finite() {
            return false;
        }
        k += 1;
    }
    true
}

/// Determine whether every coordinate of every point is finite.
pub fn are_finite<A: Axis, const K: usize>(points: &[[A; K]]) -> (r: bool)
    ensures
        r == all_finite(cloud(points@)),
{
    let mut i: usize = 0;
    while i < points.len()
        invariant
            i <= points.len(),
            forall|j: int| 0 <= j < i ==> finite(#[trigger] cloud(points@)[j]),
        decreases points.len() - i,
    {
        assert(cloud(points@)[i as int] == points@[i as int]@);
        if !is_finite(&points[i]) {
            return false;
        }
        i += 1;
    }
    true
}

/// The box over `points`: the first of them, grown by the others.
pub open spec fn box_over<A: Axis>(points: Seq<Seq<A>>) -> Bounds<A> {
    Bounds::at(points[0]).extend_all(points.drop_first())
}

/// An axis-aligned bounding box, used both as a global bound on the point cloud and as a local
/// bound on the points contained by a single voxel.
#[derive(Clone, Copy, Debug)]
pub struct Aabb<A, const K: usize> {
    pub lo: [A; K],
    pub hi: [A; K],
}

impl<A: Axis, const K: usize> View for Aabb<A, K> {
    type V = Bounds<A>;

    open spec fn view(&self) -> Bounds<A> {
        Bounds { lo: self.lo@, hi: self.hi@ }
    }
}

impl<A: Axis, const K: usize> Aabb<A, K> {
    /// A bounding box that contains no points; inserting any point will grow it to contain
    /// exactly that point.
    pub fn empty() -> (r: Self)
        ensures
            r@ == Bounds::<A>::empty(K as nat),
    {
        let r = Aabb { lo: [A::INFINITY; K], hi: [A::NEG_INFINITY; K] };
        assert(r@.lo =~= Bounds::<A>::empty(K as nat).lo);
        assert(r@.hi =~= Bounds::<A>::empty(K as nat).hi);
        r
    }

    /// Grow this bounding box so that it also contains `p`.
    pub fn insert(&mut self, p: &[A; K])
        ensures
            final(self)@ == old(self)@.extend(p@),
    {
        let ghost before = self@;
        let mut k: usize = 0;
        while k < K
            invariant
                k <= K,
                before == old(self)@,
                forall|i: int|
                    0 <= i < K ==> #[trigger] self.lo@[i] == if i < k {
                        before.extend(p@).lo[i]
                    } else {
                        before.lo[i]
                    },
                forall|i: int|
                    0 <= i < K ==> #[trigger] self.hi@[i] == if i < k {
                        before.extend(p@).hi[i]
                    } else {
                        before.hi[i]
                    },
            decreases K - k,
        {
            proof {
                A::total_operators();
            }
            let x = p[k];
            if x < self.lo[k] {
                self.lo[k] = x;
            }
            if x > self.hi[k] {
                self.hi[k] = x;
            }
            k += 1;
        }
        proof {
            assert(self@.lo =~= before.extend(p@).lo);
            assert(self@.hi =~= before.extend(p@).hi);
        }
    }

    /// Compute the squared distance from `p` to the closest point contained by this box.
    pub fn closest_distsq_to(&self, p: &[A; K]) -> (total: A)
        ensures
            total == self@.closest_distsq(p@, K as nat),
    {
        let mut total = A::ZERO;
        let mut k: usize = 0;
        while k < K
            invariant
                k <= K,
                total == self@.closest_distsq(p@, k as nat),
            decreases K - k,
        {
            proof {
                A::total_operators();
            }
            let x = p[k];
            let clamped = if x < self.lo[k] {
                self.lo[k]
            } else if x > self.hi[k] {
                self.hi[k]
            } else {
                x
            };
            total = total + (x - clamped).square();
            k += 1;
        }
        total
    }

    /// Compute the component-wise bounding box over `points`, or `None` if `points` is empty.
    pub fn bounding_box(points: &[[A; K]]) -> (r: Option<Self>)
        ensures
            r is None <==> points@.len() == 0,
            r matches Some(b) ==> b@ == box_over(cloud(points@)),
    {
        if points.len() == 0 {
            return None;
        }
        let mut b = Aabb { lo: points[0], hi: points[0] };
        let ghost rest = cloud(points@).drop_first();
        let mut i: usize = 1;
        assert(rest.take(0) =~= Seq::empty());
        while i < points.len()
            invariant
                1 <= i <= points.len(),
                rest == cloud(points@).drop_first(),
                b@ == Bounds::at(points@[0]@).extend_all(rest.take(i - 1)),
            decreases points.len() - i,
        {
            b.insert(&points[i]);
            proof {
                assert(rest.take(i as int).drop_last() =~= rest.take(i - 1));
                assert(rest.take(i as int).last() == points@[i as int]@);
            }
            i += 1;
        }
        assert(rest.take(i - 1) =~= rest);
        Some(b)
    }
}

} // verus!

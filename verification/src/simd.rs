//! Batches of values that are processed lane by lane.

use crate::aabb::Aabb;
use crate::axis::{gt, le, lt, minus, plus, times, Axis};
use vstd::prelude::*;

verus! {

/// A trait used for elements of a batch, implemented for the same types that implement [`Axis`].
pub trait AxisSimdElement: Axis {
    /// Squaring a value is the same as multiplying it by itself.
    proof fn square_is_product()
        ensures
            forall|a: Self| #[trigger] a.square_spec() == times(a, a),
    ;
}

/// A trait for batches of `L` values of type `Elem`, with masks of one `bool` for each lane.
pub trait AxisSimd<const L: usize>: Sized {
    /// The type of the lanes.
    type Elem;

    /// The values of the lanes.
    spec fn lanes(self) -> Seq<Self::Elem>;

    /// Determine whether a mask contains any true elements.
    fn mask_any(mask: [bool; L]) -> (r: bool)
        ensures
            r == exists|l: int| 0 <= l < L && #[trigger] mask@[l],
    ;

    /// Choose, lane by lane, between `true_val` and `false_val` according to `mask`.
    fn select(mask: [bool; L], true_val: Self, false_val: Self) -> (r: Self)
        ensures
            r.lanes() == Seq::new(
                L as nat,
                |l: int|
                    if mask@[l] {
                        true_val.lanes()[l]
                    } else {
                        false_val.lanes()[l]
                    },
            ),
    ;

    /// Convert a mask into a per-lane array of `bool`s.
    fn mask_to_array(mask: [bool; L]) -> (r: [bool; L])
        ensures
            r@ == mask@,
    ;
}

impl<A: AxisSimdElement, const L: usize> AxisSimd<L> for [A; L] {
    type Elem = A;

    open spec fn lanes(self) -> Seq<A> {
        self@
    }

    fn mask_any(mask: [bool; L]) -> (r: bool) {
        let mut l: usize = 0;
        while l < L
            invariant
                l <= L,
                forall|i: int| 0 <= i < l ==> !#[trigger] mask@[i],
            decreases L - l,
        {
            if mask[l] {
                assert(mask@[l as int]);
                return true;
            }
            l += 1;
        }
        false
    }

    fn select(mask: [bool; L], true_val: Self, false_val: Self) -> (r: Self) {
        let mut r = false_val;
        let mut l: usize = 0;
        while l < L
            invariant
                l <= L,
                forall|i: int|
                    0 <= i < L ==> #[trigger] r@[i] == if i < l && mask@[i] {
                        true_val@[i]
                    } else {
                        false_val@[i]
                    },
            decreases L - l,
        {
            if mask[l] {
                r[l] = true_val[l];
            }
            l += 1;
        }
        assert(r.lanes() =~= Seq::new(
            L as nat,
            |l: int|
                if mask@[l] {
                    true_val.lanes()[l]
                } else {
                    false_val.lanes()[l]
                },
        ));
        r
    }

    fn mask_to_array(mask: [bool; L]) -> (r: [bool; L]) {
        mask
    }
}

/// Add two batches, lane by lane.
pub fn lanes_plus<A: Axis, const L: usize>(a: &[A; L], b: &[A; L]) -> (r: [A; L])
    ensures
        forall|l: int| 0 <= l < L ==> #[trigger] r@[l] == plus(a@[l], b@[l]),
{
    let mut r = *a;
    let mut l: usize = 0;
    while l < L
        invariant
            l <= L,
            forall|i: int|
                0 <= i < L ==> #[trigger] r@[i] == if i < l {
                    plus(a@[i], b@[i])
                } else {
                    a@[i]
                },
        decreases L - l,
    {
        proof {
            A::total_operators();
        }
        r[l] = r[l] + b[l];
        l += 1;
    }
    r
}

/// Subtract two batches, lane by lane.
pub fn lanes_minus<A: Axis, const L: usize>(a: &[A; L], b: &[A; L]) -> (r: [A; L])
    ensures
        forall|l: int| 0 <= l < L ==> #[trigger] r@[l] == minus(a@[l], b@[l]),
{
    let mut r = *a;
    let mut l: usize = 0;
    while l < L
        invariant
            l <= L,
            forall|i: int|
                0 <= i < L ==> #[trigger] r@[i] == if i < l {
                    minus(a@[i], b@[i])
                } else {
                    a@[i]
                },
        decreases L - l,
    {
        proof {
            A::total_operators();
        }
        r[l] = r[l] - b[l];
        l += 1;
    }
    r
}

/// Multiply two batches, lane by lane.
pub fn lanes_times<A: Axis, const L: usize>(a: &[A; L], b: &[A; L]) -> (r: [A; L])
    ensures
        forall|l: int| 0 <= l < L ==> #[trigger] r@[l] == times(a@[l], b@[l]),
{
    let mut r = *a;
    let mut l: usize = 0;
    while l < L
        invariant
            l <= L,
            forall|i: int|
                0 <= i < L ==> #[trigger] r@[i] == if i < l {
                    times(a@[i], b@[i])
                } else {
                    a@[i]
                },
        decreases L - l,
    {
        proof {
            A::total_operators();
        }
        r[l] = r[l] * b[l];
        l += 1;
    }
    r
}

/// Compare two batches with `<`, lane by lane.
pub fn lanes_lt<A: Axis, const L: usize>(a: &[A; L], b: &[A; L]) -> (mask: [bool; L])
    ensures
        forall|l: int| 0 <= l < L ==> #[trigger] mask@[l] == lt(a@[l], b@[l]),
{
    let mut mask = [false; L];
    let mut l: usize = 0;
    while l < L
        invariant
            l <= L,
            forall|i: int| 0 <= i < l ==> #[trigger] mask@[i] == lt(a@[i], b@[i]),
        decreases L - l,
    {
        proof {
            A::total_operators();
        }
        mask[l] = a[l] < b[l];
        l += 1;
    }
    mask
}

/// Compare two batches with `>`, lane by lane.
pub fn lanes_gt<A: Axis, const L: usize>(a: &[A; L], b: &[A; L]) -> (mask: [bool; L])
    ensures
        forall|l: int| 0 <= l < L ==> #[trigger] mask@[l] == gt(a@[l], b@[l]),
{
    let mut mask = [false; L];
    let mut l: usize = 0;
    while l < L
        invariant
            l <= L,
            forall|i: int| 0 <= i < l ==> #[trigger] mask@[i] == gt(a@[i], b@[i]),
        decreases L - l,
    {
        proof {
            A::total_operators();
        }
        mask[l] = a[l] > b[l];
        l += 1;
    }
    mask
}

/// Compare two batches with `<=`, lane by lane.
pub fn lanes_le<A: Axis, const L: usize>(a: &[A; L], b: &[A; L]) -> (mask: [bool; L])
    ensures
        forall|l: int| 0 <= l < L ==> #[trigger] mask@[l] == le(a@[l], b@[l]),
{
    let mut mask = [false; L];
    let mut l: usize = 0;
    while l < L
        invariant
            l <= L,
            forall|i: int| 0 <= i < l ==> #[trigger] mask@[i] == le(a@[i], b@[i]),
        decreases L - l,
    {
        proof {
            A::total_operators();
        }
        mask[l] = a[l] <= b[l];
        l += 1;
    }
    mask
}

/// The point in lane `l` of a batch of points that is stored axis by axis.
pub open spec fn lane<A, const K: usize, const L: usize>(centers: [[A; L]; K], l: int) -> Seq<A> {
    Seq::new(K as nat, |k: int| centers@[k]@[l])
}

/// The center in lane `l` of a batch, as an array.
pub open spec fn lane_center<A: Copy, const L: usize, const K: usize>(
    centers: [[A; L]; K],
    l: int,
) -> [A; K] {
    choose|c: [A; K]| #[trigger] c@ == lane(centers, l)
}

/// The array holds the center.
pub proof fn lemma_lane_center<A: Copy, const L: usize, const K: usize>(
    centers: [[A; L]; K],
    l: int,
)
    ensures
        lane_center(centers, l)@ == lane(centers, l),
{
    let c: [A; K] = lemma_array_of(lane(centers, l), K as nat);
    assert(c@ =~= lane(centers, l));
}

/// There is an array that starts with the first `n` of the values of `s`.
proof fn lemma_array_of<A: Copy, const K: usize>(s: Seq<A>, n: nat) -> (c: [A; K])
    requires
        n <= K,
        s.len() == K,
    ensures
        forall|i: int| 0 <= i < n ==> #[trigger] c@[i] == s[i],
    decreases n,
{
    if n == 0 {
        vstd::array::spec_array_fill_for_copy_type(s[0])
    } else {
        let m = (n - 1) as nat;
        let c: [A; K] = lemma_array_of(s, m);
        vstd::array::spec_array_update(c, m as int, s[m as int])
    }
}

/// Extract the point in lane `l` of a batch of points that is stored axis by axis.
pub fn take_lane<A: Axis, const K: usize, const L: usize>(centers: &[[A; L]; K], l: usize) -> (p: [A;
    K])
    requires
        l < L,
    ensures
        p@ == lane(*centers, l as int),
{
    let mut p = [A::ZERO; K];
    let mut k: usize = 0;
    while k < K
        invariant
            k <= K,
            l < L,
            forall|i: int| 0 <= i < k ==> #[trigger] p@[i] == centers@[i]@[l as int],
        decreases K - k,
    {
        p[k] = centers[k][l];
        k += 1;
    }
    assert(p@ =~= lane(*centers, l as int));
    p
}

/// Determine, for each lane, whether the squared distance from its center to the closest point
/// of `aabb` is at most its value of `rsq`.
pub fn lanes_in_reach<A: AxisSimdElement, const K: usize, const L: usize>(
    aabb: &Aabb<A, K>,
    centers: &[[A; L]; K],
    rsq: &[A; L],
) -> (mask: [bool; L])
    ensures
        forall|l: int|
            0 <= l < L ==> #[trigger] mask@[l] == le(
                aabb@.closest_distsq(lane(*centers, l), K as nat),
                rsq@[l],
            ),
{
    let mut distsq: [A; L] = [A::ZERO; L];
    let mut k: usize = 0;
    while k < K
        invariant
            k <= K,
            forall|l: int|
                0 <= l < L ==> #[trigger] distsq@[l] == aabb@.closest_distsq(
                    lane(*centers, l),
                    k as nat,
                ),
        decreases K - k,
    {
        let center: [A; L] = centers[k];
        let lo: [A; L] = [aabb.lo[k]; L];
        let hi: [A; L] = [aabb.hi[k]; L];
        let below: [bool; L] = lanes_lt(&center, &lo);
        let above: [bool; L] = lanes_gt(&center, &hi);
        let inner: [A; L] = <[A; L]>::select(above, hi, center);
        let clamped: [A; L] = <[A; L]>::select(below, lo, inner);
        let diff: [A; L] = lanes_minus(&center, &clamped);
        let ghost before = distsq@;
        distsq = lanes_plus(&distsq, &lanes_times(&diff, &diff));
        proof {
            A::square_is_product();
            assert forall|l: int| 0 <= l < L implies #[trigger] distsq@[l] == aabb@.closest_distsq(
                lane(*centers, l),
                k as nat + 1,
            ) by {
                let b = aabb@;
                let x = center@[l];
                assert(lane(*centers, l)[k as int] == x);
                assert(inner.lanes()[l] == if gt(x, b.hi[k as int]) {
                    b.hi[k as int]
                } else {
                    x
                });
                assert(clamped.lanes()[l] == b.clamp(k as int, x));
                assert(diff@[l] == minus(x, b.clamp(k as int, x)));
                assert(before[l] == b.closest_distsq(lane(*centers, l), k as nat));
            }
        }
        k += 1;
    }
    <[A; L]>::mask_to_array(lanes_le(&distsq, rsq))
}

} // verus!

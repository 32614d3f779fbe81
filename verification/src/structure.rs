//! A common interface over collision-checking structures, and the ground truth for them.

use crate::aabb::cloud;
use crate::axis::Axis;
use crate::immutable::{grid_over, new_error, Mvt};
use crate::index::Index;
use crate::memory::{product, saturated};
use crate::mutable::{cloud_error, workspace_error, MutableMvt};
use crate::scan::{distsq, distsq_upto};
use crate::simd::{lane, lane_center, lemma_lane_center, AxisSimdElement};
use vstd::prelude::*;

verus! {

/// A minimal common interface over the collision-checking structures being compared.
pub trait Structure<const K: usize, A: Axis>: Sized {
    /// A short, human-readable name for this structure, used in benchmark/test output.
    const NAME: &'static str;

    /// Whether an instance can be built from `points` for queries with radius in `r_range`.
    spec fn buildable(points: &[[A; K]], r_range: (A, A)) -> bool;

    /// Whether this is an instance as `build` makes them.
    spec fn valid(&self) -> bool;

    /// What a query against this instance answers.
    spec fn answer(&self, center: [A; K], radius: A) -> bool;

    /// What a query against an instance built from `points` answers.
    spec fn answer_over(points: &[[A; K]], r_range: (A, A), center: [A; K], radius: A) -> bool;

    /// Build a new instance containing `points`, sized for queries with radius in `r_range`
    /// (`(r_min, r_max)`). Structures that don't need a lower bound ignore `r_range.0`.
    fn build(points: &[[A; K]], r_range: (A, A)) -> (s: Self)
        requires
            Self::buildable(points, r_range),
        ensures
            s.valid(),
            forall|c: [A; K], r: A| #[trigger]
                s.answer(c, r) == Self::answer_over(points, r_range, c, r),
    ;

    /// Determine whether any point in the structure lies within `radius` of `center`.
    fn collides(&self, center: &[A; K], radius: A) -> (r: bool)
        requires
            self.valid(),
        ensures
            r == self.answer(*center, radius),
    ;
}

impl<const K: usize, A: Axis, I: Index> Structure<K, A> for Mvt<K, A, I> {
    const NAME: &'static str = "mvtable";

    open spec fn buildable(points: &[[A; K]], r_range: (A, A)) -> bool {
        K > 0 && new_error::<A, I>(cloud(points@), r_range.1, A::ZERO, K as nat) is None
    }

    open spec fn valid(&self) -> bool {
        self.wf()
    }

    open spec fn answer(&self, center: [A; K], radius: A) -> bool {
        self@.hit(center@, radius)
    }

    open spec fn answer_over(
        points: &[[A; K]],
        r_range: (A, A),
        center: [A; K],
        radius: A,
    ) -> bool {
        grid_over(cloud(points@), r_range.1, A::ZERO, K as nat).hit(center@, radius)
    }

    fn build(points: &[[A; K]], r_range: (A, A)) -> (s: Self) {
        // An `Mvt` takes an explicit voxel width rather than a query-radius range.
        // Using `r_range.1` is mostly a hack.
        Mvt::new(points, r_range.1)
    }

    fn collides(&self, center: &[A; K], radius: A) -> (r: bool) {
        Mvt::collides(self, center, radius)
    }
}

/// The workspace that stands in for the bounds of a structure without points.
pub open spec fn unit_box<A: Axis>(k: nat) -> crate::aabb::Bounds<A> {
    crate::aabb::Bounds {
        lo: Seq::new(k, |i: int| A::ZERO),
        hi: Seq::new(k, |i: int| A::from_usize_spec(1)),
    }
}

impl<const K: usize, A: Axis, I: Index> Structure<K, A> for MutableMvt<K, A, I> {
    const NAME: &'static str = "mvtable_mutable";

    open spec fn buildable(points: &[[A; K]], r_range: (A, A)) -> bool {
        &&& K > 0
        &&& if points@.len() == 0 {
            workspace_error::<A, I>(unit_box(K as nat), r_range.1) is None
        } else {
            cloud_error::<A, I>(cloud(points@), r_range.1, A::ZERO) is None
        }
    }

    open spec fn valid(&self) -> bool {
        self.wf()
    }

    open spec fn answer(&self, center: [A; K], radius: A) -> bool {
        self@.hit(center@, radius)
    }

    open spec fn answer_over(
        points: &[[A; K]],
        r_range: (A, A),
        center: [A; K],
        radius: A,
    ) -> bool {
        let points = cloud(points@);
        let b = if points.len() == 0 {
            unit_box(K as nat)
        } else {
            crate::aabb::box_over(points)
        };
        crate::voxel_grid::VoxelGrid::sized(b, r_range.1, A::ZERO).insert_all(points).hit(
            center@,
            radius,
        )
    }

    fn build(points: &[[A; K]], r_range: (A, A)) -> (s: Self) {
        if points.len() == 0 {
            // `MutableMvt::new` requires a non-empty point cloud to infer workspace bounds; an
            // empty structure has no points to bound, so any placeholder workspace box works.
            let lo: [A; K] = [A::ZERO; K];
            let hi: [A; K] = [A::from_usize(1); K];
            assert(lo@ =~= unit_box::<A>(K as nat).lo);
            assert(hi@ =~= unit_box::<A>(K as nat).hi);
            MutableMvt::with_workspace(lo, hi, r_range.1, A::ZERO)
        } else {
            MutableMvt::new(points, r_range.1)
        }
    }

    fn collides(&self, center: &[A; K], radius: A) -> (r: bool) {
        MutableMvt::collides(self, center, radius)
    }
}

/// [`Structure`]s that additionally support SIMD-batched collision queries.
pub trait SimdStructure<const K: usize, A: AxisSimdElement>: Structure<K, A> {
    /// What one lane of a batched query against this instance answers.
    spec fn lane_answer(&self, center: [A; K], radius: A) -> bool;

    /// Determine whether any point in the structure lies within the corresponding lane of `radii`
    /// of the corresponding lane of `centers`.
    fn collides_simd<const L: usize>(&self, centers: &[[A; L]; K], radii: [A; L]) -> (r: bool)
        requires
            self.valid(),
            L > 0,
        ensures
            r == exists|l: int|
                0 <= l < L && self.lane_answer(#[trigger] lane_center(*centers, l), radii@[l]),
    ;
}

impl<const K: usize, A: AxisSimdElement, I: Index> SimdStructure<K, A> for Mvt<K, A, I> {
    open spec fn lane_answer(&self, center: [A; K], radius: A) -> bool {
        self@.lane_hit(center@, radius)
    }

    fn collides_simd<const L: usize>(&self, centers: &[[A; L]; K], radii: [A; L]) -> (r: bool) {
        let r: bool = Mvt::collides_simd(self, centers, radii);
        proof {
            assert forall|l: int| 0 <= l < L implies #[trigger] lane(*centers, l) == lane_center(
                *centers,
                l,
            )@ by {
                lemma_lane_center(*centers, l);
            }
            if r {
                let l = choose|l: int|
                    0 <= l < L && self@.lane_hit(#[trigger] lane(*centers, l), radii@[l]);
                assert(self.lane_answer(lane_center(*centers, l), radii@[l]));
            } else {
                assert forall|l: int| 0 <= l < L implies !self.lane_answer(
                    #[trigger] lane_center(*centers, l),
                    radii@[l],
                ) by {
                    assert(!self@.lane_hit(lane(*centers, l), radii@[l]));
                }
            }
        }
        r
    }
}

impl<const K: usize, A: AxisSimdElement, I: Index> SimdStructure<K, A> for MutableMvt<K, A, I> {
    open spec fn lane_answer(&self, center: [A; K], radius: A) -> bool {
        self@.lane_hit(center@, radius)
    }

    fn collides_simd<const L: usize>(&self, centers: &[[A; L]; K], radii: [A; L]) -> (r: bool) {
        let r: bool = MutableMvt::collides_simd(self, centers, radii);
        proof {
            assert forall|l: int| 0 <= l < L implies #[trigger] lane(*centers, l) == lane_center(
                *centers,
                l,
            )@ by {
                lemma_lane_center(*centers, l);
            }
            if r {
                let l = choose|l: int|
                    0 <= l < L && self@.lane_hit(#[trigger] lane(*centers, l), radii@[l]);
                assert(self.lane_answer(lane_center(*centers, l), radii@[l]));
            } else {
                assert forall|l: int| 0 <= l < L implies !self.lane_answer(
                    #[trigger] lane_center(*centers, l),
                    radii@[l],
                ) by {
                    assert(!self@.lane_hit(lane(*centers, l), radii@[l]));
                }
            }
        }
        r
    }
}

/// Compute the answer to a collision query by checking every point in `points`.
///
/// This is the ground truth against which every [`Structure`] implementation is checked.
#[must_use]
pub fn brute_force_collides<A: AxisSimdElement, const K: usize>(
    points: &[[A; K]],
    center: &[A; K],
    radius: A,
) -> (r: bool)
    ensures
        r == crate::laws::brute_force(cloud(points@), center@, radius),
{
    proof {
        A::total_operators();
        A::square_is_product();
    }
    let rsq = radius * radius;
    let mut i: usize = 0;
    while i < points.len()
        invariant
            i <= points.len(),
            rsq == radius.square_spec(),
            forall|j: int|
                0 <= j < i ==> !crate::axis::le(
                    distsq(#[trigger] cloud(points@)[j], center@),
                    rsq,
                ),
        decreases points.len() - i,
    {
        let mut total = A::ZERO;
        let mut k: usize = 0;
        while k < K
            invariant
                k <= K,
                i < points.len(),
                total == distsq_upto(points@[i as int]@, center@, k as nat),
            decreases K - k,
        {
            proof {
                A::total_operators();
                A::square_is_product();
            }
            let d = points[i][k] - center[k];
            total = total + d * d;
            k += 1;
        }
        proof {
            A::total_operators();
            assert(cloud(points@)[i as int] == points@[i as int]@);
            assert(total == distsq(cloud(points@)[i as int], center@));
        }
        if total <= rsq {
            return true;
        }
        i += 1;
    }
    false
}

/// The bucket size of the leaves of a `kiddo::ImmutableKdTree`.
pub const LEAF_SIZE: usize = 32;

/// The bytes per leaf extent: an offset and a length.
pub const LEAF_EXTENTS_BYTES: usize = 16;

/// The measured bytes per stem entry.
pub const STEM_BYTES: usize = 15;

/// The bytes of a single-precision coordinate, and of an item's index.
pub const ITEM_FIELD_BYTES: usize = 4;

/// The smallest number in the sequence `p`, `2 * p`, `4 * p`, ... that is at least `n`.
pub open spec fn doubled_to(p: nat, n: nat) -> nat
    decreases
            (if p < n {
                n - p
            } else {
                0
            }),
{
    if p >= n || p == 0 {
        p
    } else {
        doubled_to(2 * p, n)
    }
}

/// The number of leaves in a tree over `items` items: enough for all of them, padded up to a
/// power of two.
pub open spec fn leaf_count(items: nat) -> nat {
    doubled_to(1, (items + 31) / 32)
}

/// The bytes that a k-d tree over `items` items in `k` dimensions takes, with `tree_bytes` for the
/// tree itself: its items, the extents of its leaves, the stem that routes to them where there is
/// more than one, and a measured correction for the two smallest trees.
pub open spec fn kd_tree_bytes(items: nat, k: nat, tree_bytes: nat) -> nat {
    let leaves = leaf_count(items);
    tree_bytes + items * (k * 4 + 4) + leaves * 16 + if leaves >= 2 {
        leaves * 15
    } else {
        0
    } + if leaves == 1 {
        7nat
    } else if leaves == 2 {
        16
    } else {
        0
    }
}

/// Compute the total memory used (stack + heap) by a `kiddo::ImmutableKdTree` with
/// single-precision coordinates over `item_count` items, of size `tree_bytes` itself, measured in
/// bytes, or `usize::MAX` if that is larger.
///
/// `kiddo` exposes no such method, and its fields are private, so this is computed analytically
/// from the number of items. This formula was fit by measuring heap allocations across every
/// leaf-count boundary up to 100,000 points and `K` in {2, 3, 4}, and matched exactly at every
/// point tried.
#[must_use]
pub fn kiddo_memory_used<const K: usize>(item_count: usize, tree_bytes: usize) -> (r: usize)
    ensures
        r == saturated(kd_tree_bytes(item_count as nat, K as nat, tree_bytes as nat) as int),
{
    let full: usize = item_count / LEAF_SIZE;
    let raw: usize = if item_count % LEAF_SIZE == 0 {
        full
    } else {
        full + 1
    };
    // a single leaf needs no stem to route to it; more than one leaf is always padded up to a
    // power of two, to give the stem array simple arithmetic indexing.
    let mut leaves: usize = 1;
    assert(raw == (item_count + 31) / 32);
    while leaves < raw
        invariant
            1 <= leaves,
            raw <= usize::MAX / 32 + 1,
            doubled_to(leaves as nat, raw as nat) == doubled_to(1, raw as nat),
        decreases
                (if leaves < raw {
                    raw - leaves
                } else {
                    0
                }),
    {
        leaves = leaves * 2;
    }
    let per_item: usize = product(K, ITEM_FIELD_BYTES).saturating_add(ITEM_FIELD_BYTES);
    let item_bytes: usize = product(item_count, per_item);
    let leaf_bytes: usize = product(leaves, LEAF_EXTENTS_BYTES);
    let stem_bytes: usize = if leaves >= 2 {
        product(leaves, STEM_BYTES)
    } else {
        0
    };
    // small constant overhead measured at the two smallest leaf counts, not explained by the
    // per-item/per-leaf/per-stem terms above.
    let correction: usize = if leaves == 1 {
        7
    } else if leaves == 2 {
        16
    } else {
        0
    };
    proof {
        let unit = K as nat * 4 + 4;
        assert(item_bytes == saturated((item_count as nat * unit) as int)) by {
            if unit > usize::MAX {
                if item_count == 0 {
                    assert(item_count as nat * unit == 0) by (nonlinear_arith)
                        requires
                            item_count == 0,
                    ;
                    assert(item_count * per_item == 0) by (nonlinear_arith)
                        requires
                            item_count == 0,
                    ;
                } else {
                    assert(item_count as nat * unit >= unit) by (nonlinear_arith)
                        requires
                            item_count >= 1,
                    ;
                    assert(item_count * per_item >= per_item) by (nonlinear_arith)
                        requires
                            item_count >= 1,
                    ;
                }
            }
        }
    }
    tree_bytes.saturating_add(item_bytes).saturating_add(leaf_bytes).saturating_add(
        stem_bytes,
    ).saturating_add(correction)
}

} // verus!

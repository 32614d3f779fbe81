//! How the answers of the structures that are compared relate.

use crate::aabb::{all_finite, cloud};
use crate::axis::{plus, Axis};
use crate::immutable::{grid_over, Mvt};
use crate::index::Index;
use crate::laws::{
    brute_force, empty_never_collides, immutable_and_mutable_agree, rounds_monotonically,
    table_over_a_cloud_is_brute_force, window_reaches,
};
use crate::mutable::MutableMvt;
use crate::simd::AxisSimdElement;
use crate::structure::{unit_box, SimdStructure, Structure};
use crate::voxel_grid::VoxelGrid;
use vstd::prelude::*;

verus! {

/// Over the same finite points, an immutable and a mutable table answer every query alike. Neither
/// makes up a collision: where one answers that there is one, checking every point finds one. A
/// structure without points never collides.
pub proof fn structures_agree<const K: usize, A: Axis, I: Index>(
    points: &[[A; K]],
    r_range: (A, A),
    center: [A; K],
    radius: A,
)
    requires
        rounds_monotonically::<A>(),
        K > 0,
        all_finite(cloud(points@)),
    ensures
        ({
            let a = <Mvt<K, A, I> as Structure<K, A>>::answer_over(
                points,
                r_range,
                center,
                radius,
            );
            let b = <MutableMvt<K, A, I> as Structure<K, A>>::answer_over(
                points,
                r_range,
                center,
                radius,
            );
            &&& a == b
            &&& a ==> brute_force(cloud(points@), center@, plus(radius, A::ZERO))
            &&& points@.len() == 0 ==> !a
        }),
{
    let all = cloud(points@);
    let k = K as nat;
    let c = center@;
    let r = plus(radius, A::ZERO);
    assert forall|i: int| 0 <= i < all.len() implies (#[trigger] all[i]).len() == k by {
        assert(all[i] == points@[i]@);
    }
    let grid = grid_over(all, r_range.1, A::ZERO, k);
    table_over_a_cloud_is_brute_force(all, r_range.1, A::ZERO, k, c, radius);
    if !brute_force(all, c, r) {
        assert(window_reaches(grid, all, c, r));
    }
    if all.len() == 0 {
        let empty = VoxelGrid::sized(unit_box(k), r_range.1, A::ZERO);
        empty_never_collides(grid, c, radius);
        empty_never_collides(empty.insert_all(all), c, radius);
    } else {
        immutable_and_mutable_agree(all, r_range.1, A::ZERO, k, c, radius);
    }
}

/// A lane of a batched query answers what the query on its own does, wherever the distance to the
/// bounding box compares with the reach of the query.
pub proof fn lanes_agree_with_queries<const K: usize, A: AxisSimdElement, I: Index>(
    a: Mvt<K, A, I>,
    b: MutableMvt<K, A, I>,
    center: [A; K],
    radius: A,
)
    ensures
        a.lane_answer(center, radius) <==> a.answer(center, radius) && a@.compares(
            center@,
            radius,
        ),
        b.lane_answer(center, radius) <==> b.answer(center, radius) && b@.compares(
            center@,
            radius,
        ),
{
}

} // verus!

use core::ops::{Add, Div, Mul, Sub};
use mvtable::structure::{brute_force_collides, kiddo_memory_used, SimdStructure, Structure};
use mvtable::{
    Axis, AxisSimd, AxisSimdElement, InsertError, MutableMvt, Mvt, NewMutableMvtError, NewMvtError,
};

/// A single-precision coordinate.
#[derive(Clone, Copy, Debug, PartialEq, PartialOrd)]
struct F32(f32);

impl Add for F32 {
    type Output = F32;
    fn add(self, other: F32) -> F32 {
        F32(self.0 + other.0)
    }
}

impl Sub for F32 {
    type Output = F32;
    fn sub(self, other: F32) -> F32 {
        F32(self.0 - other.0)
    }
}

impl Mul for F32 {
    type Output = F32;
    fn mul(self, other: F32) -> F32 {
        F32(self.0 * other.0)
    }
}

impl Div for F32 {
    type Output = F32;
    fn div(self, other: F32) -> F32 {
        F32(self.0 / other.0)
    }
}

impl Axis for F32 {
    const ZERO: F32 = F32(0.0);
    const INFINITY: F32 = F32(f32::INFINITY);
    const NEG_INFINITY: F32 = F32(f32::NEG_INFINITY);

    fn is_finite_spec(self) -> bool {
        self.is_finite()
    }

    fn square_spec(self) -> F32 {
        self.square()
    }

    fn to_index_spec(self) -> usize {
        self.to_index()
    }

    fn from_usize_spec(x: usize) -> F32 {
        F32::from_usize(x)
    }

    fn total_operators() {}

    fn is_finite(self) -> bool {
        self.0.is_finite()
    }

    fn square(self) -> F32 {
        F32(self.0 * self.0)
    }

    fn to_index(self) -> usize {
        self.0 as usize
    }

    fn from_usize(x: usize) -> F32 {
        F32(x as f32)
    }
}

impl AxisSimdElement for F32 {
    fn square_is_product() {}
}

fn wrap<const N: usize>(values: [f32; N]) -> [F32; N] {
    values.map(F32)
}

fn unwrap<const N: usize>(values: [F32; N]) -> [f32; N] {
    values.map(|x| x.0)
}

fn wrap_all<const K: usize>(points: &[[f32; K]]) -> Vec<[F32; K]> {
    points.iter().map(|&p| wrap(p)).collect()
}

#[test]
fn usage_of_a_table() {
    let points = wrap_all(&[[0.0, 1.1], [0.2, 3.1]]);
    let mvt = Mvt::<2, F32>::new(&points, F32(2.0));
    assert!(!mvt.collides(&wrap([0.0, 0.0]), F32(1.0)));
    assert!(mvt.collides(&wrap([0.0, 0.0]), F32(1.5)));
}

#[test]
fn infinite_voxel_width_makes_one_voxel() {
    let points = wrap_all(&[[0.0]]);
    let mvt = Mvt::<1, F32>::new(&points, F32(f32::INFINITY));
    assert!(mvt.collides(&wrap([1.0]), F32(1.5)));
    assert!(!mvt.collides(&wrap([1.0]), F32(0.5)));
    assert_eq!(mvt.grid_width(), [1]);
    let mvt = Mvt::<1, F32>::with_point_radius(&points, F32(f32::INFINITY), F32(0.2));
    assert!(mvt.collides(&wrap([1.0]), F32(1.5)));
    assert!(!mvt.collides(&wrap([1.0]), F32(0.5)));
}

#[test]
fn immutable_construction_errors() {
    let good = wrap_all(&[[0.0, 0.0], [1.0, 1.0]]);
    let bad = wrap_all(&[[0.0, 0.0], [f32::INFINITY, 1.0]]);
    let of = |points: &[[F32; 2]], width: f32| Mvt::<2, F32>::try_new(points, F32(width)).unwrap_err();
    assert_eq!(of(&bad, 1.0), NewMvtError::NonFinite);
    assert_eq!(of(&bad, -1.0), NewMvtError::NonFinite);
    assert_eq!(of(&good, -1.0), NewMvtError::InvalidVoxelWidth);
    assert_eq!(of(&good, 0.0), NewMvtError::InvalidVoxelWidth);
    assert_eq!(of(&good, f32::NAN), NewMvtError::InvalidVoxelWidth);
    assert_eq!(of(&good, 1e-12), NewMvtError::TooManyVoxels);
}

#[test]
fn pool_too_large_for_the_index_type() {
    // 300 points in one voxel: the voxel fits, the number of its points does not
    let points = vec![wrap([0.5f32, 0.5]); 300];
    let result = Mvt::<2, F32, u8>::try_new(&points, F32(1.0));
    assert_eq!(result.unwrap_err(), NewMvtError::TooManyVoxels);
    // a mutable table keeps no such numbers
    let mutable = MutableMvt::<2, F32, u8>::try_new(&points, F32(1.0)).unwrap();
    assert_eq!(mutable.points().len(), 300);
}

#[test]
fn error_descriptions() {
    assert_eq!(
        NewMvtError::NonFinite.to_string(),
        "at least one point had a non-finite value"
    );
    assert_eq!(
        NewMvtError::InvalidVoxelWidth.to_string(),
        "voxel_width was not a positive, finite value"
    );
    assert_eq!(
        NewMvtError::TooManyVoxels.to_string(),
        "too many voxels or points for the index type to represent"
    );
    assert_eq!(
        NewMutableMvtError::InvalidWorkspace.to_string(),
        "lo[k] > hi[k] for some axis k, so no valid workspace box exists"
    );
    assert_eq!(
        NewMutableMvtError::EmptyPointCloud.to_string(),
        "the point cloud was empty, so no workspace bounds could be inferred from it"
    );
    assert_eq!(InsertError::NonFinite.to_string(), "the point had a non-finite value");
    assert_eq!(
        NewMutableMvtError::from(mvtable::grid::TooManyVoxels),
        NewMutableMvtError::TooManyVoxels
    );
}

#[test]
fn mutable_construction_errors() {
    let good = wrap_all(&[[0.0, 0.0], [1.0, 1.0]]);
    let of = |points: &[[F32; 2]], width: f32| {
        MutableMvt::<2, F32>::try_new(points, F32(width)).unwrap_err()
    };
    assert_eq!(of(&wrap_all(&[[0.0, f32::NAN]]), 1.0), NewMutableMvtError::NonFinite);
    assert_eq!(of(&good, -1.0), NewMutableMvtError::InvalidVoxelWidth);
    assert_eq!(of(&good, f32::NAN), NewMutableMvtError::InvalidVoxelWidth);
    assert_eq!(of(&good, 1e-12), NewMutableMvtError::TooManyVoxels);
    assert_eq!(of(&[], 1.0), NewMutableMvtError::EmptyPointCloud);
}

#[test]
fn failed_insert_changes_nothing() {
    // A `u8` has room for the tables of 63 cells with different first coordinates.
    let lo = wrap([0.0, 0.0, 0.0]);
    let hi = wrap([60.0, 1.0, 1.0]);
    let mut mvt = MutableMvt::<3, F32, u8>::with_workspace(lo, hi, F32(1.0), F32(0.0));
    let mut stored = Vec::new();
    let mut failed = false;
    for i in 0..60 {
        for j in 0..4 {
            let p = wrap([i as f32 + 0.5, j as f32 * 0.2, 0.1]);
            match mvt.insert(&p) {
                Ok(()) => stored.push(p),
                Err(e) => {
                    assert_eq!(e, InsertError::TooManyVoxels);
                    failed = true;
                }
            }
            assert_eq!(mvt.points().len(), stored.len());
            assert_eq!(mvt.collides(&p, F32(0.01)), !failed || stored.contains(&p));
        }
    }
    assert!(!failed);

    let hi = wrap([100.0, 100.0, 100.0]);
    let mut mvt = MutableMvt::<3, F32, u8>::with_workspace(lo, hi, F32(1.0), F32(0.0));
    assert_eq!(mvt.insert(&wrap([0.5, 0.5, 0.5])), Ok(()));
    // a second cell in another plane needs a table that no longer fits
    assert_eq!(mvt.insert(&wrap([7.5, 0.5, 0.5])), Err(InsertError::TooManyVoxels));
    assert_eq!(mvt.points(), vec![wrap([0.5, 0.5, 0.5])]);
    assert!(!mvt.collides(&wrap([7.5, 0.5, 0.5]), F32(0.1)));
    // the same cell can still be added to
    assert_eq!(mvt.insert(&wrap([0.6, 0.5, 0.5])), Ok(()));
    assert_eq!(mvt.points().len(), 2);
}

#[test]
fn insert_points_stops_at_the_first_failure() {
    let mut mvt = MutableMvt::<2, F32>::new(&wrap_all(&[[0.0, 0.0]]), F32(1.0));
    let batch = wrap_all(&[[1.0, 1.0], [f32::NAN, 0.0], [2.0, 2.0]]);
    assert_eq!(mvt.insert_points(&batch), Err(InsertError::NonFinite));
    assert_eq!(mvt.points().len(), 2);
    assert!(mvt.collides(&wrap([1.0, 1.0]), F32(0.1)));
    assert!(!mvt.collides(&wrap([2.0, 2.0]), F32(0.1)));
}

#[test]
fn inserting_in_batches_is_inserting_at_once() {
    let lo = wrap([0.0, 0.0]);
    let hi = wrap([4.0, 4.0]);
    let points = wrap_all(&[[0.5, 0.5], [3.5, 3.5], [0.6, 0.4], [9.0, -3.0]]);
    let mut once = MutableMvt::<2, F32>::with_workspace(lo, hi, F32(1.0), F32(0.0));
    once.insert_points(&points).unwrap();
    let mut twice = MutableMvt::<2, F32>::with_workspace(lo, hi, F32(1.0), F32(0.0));
    twice.insert_points(&points[..2]).unwrap();
    twice.insert_points(&points[2..]).unwrap();
    assert_eq!(once.points(), twice.points());
    assert_eq!(once.grid_width(), [4, 4]);
    // points of one voxel come together, in the order of insertion
    assert_eq!(
        once.points(),
        wrap_all(&[[0.5, 0.5], [0.6, 0.4], [3.5, 3.5], [9.0, -3.0]])
    );
}

#[test]
fn immutable_and_mutable_agree() {
    let points: Vec<[F32; 2]> = (0..60)
        .map(|i| wrap([(i * 7 % 23) as f32 * 0.31, (i * 5 % 17) as f32 * 0.27]))
        .collect();
    let a = Mvt::<2, F32>::new(&points, F32(0.4));
    let b = MutableMvt::<2, F32>::new(&points, F32(0.4));
    assert_eq!(a.points(), b.points());
    assert_eq!(a.grid_width(), b.grid_width());
    for i in 0..40 {
        for j in 0..40 {
            let c = wrap([i as f32 * 0.2 - 0.5, j as f32 * 0.15 - 0.5]);
            let r = F32(0.05 * (i % 7) as f32);
            let expected = brute_force_collides(&points, &c, r);
            assert_eq!(a.collides(&c, r), expected);
            assert_eq!(b.collides(&c, r), expected);
            assert_eq!(a.collides_simd(&[[c[0]; 4], [c[1]; 4]], [r; 4]), expected);
            assert_eq!(b.collides_simd(&[[c[0]; 4], [c[1]; 4]], [r; 4]), expected);
        }
    }
}

#[test]
fn negative_radius_searches_one_cell() {
    let points = wrap_all(&[[0.5], [3.5]]);
    let mvt = Mvt::<1, F32>::new(&points, F32(1.0));
    // the first point is close enough, but its cell is not in the window of a negative radius
    let c = wrap([1.9]);
    assert!(brute_force_collides(&points, &c, F32(-1.5)));
    assert!(!mvt.collides(&c, F32(-1.5)));
    assert!(mvt.collides(&c, F32(1.5)));
}

#[test]
fn rounding_can_push_a_point_out_of_the_window() {
    let points = wrap_all(&[[-0.28161263], [1.6952332], [4.762753]]);
    let mvt = Mvt::<1, F32>::new(&points, F32(0.06753869));
    let c = wrap([2.6592295]);
    assert!(brute_force_collides(&points, &c, F32(0.9639963)));
    assert!(!mvt.collides(&c, F32(0.9639963)));
    assert!(mvt.collides(&c, F32(0.9639970)));
}

#[test]
fn structures_have_names() {
    assert_eq!(<Mvt<3, F32> as Structure<3, F32>>::NAME, "mvtable");
    assert_eq!(<MutableMvt<3, F32> as Structure<3, F32>>::NAME, "mvtable_mutable");
}

#[test]
fn structures_without_points_never_collide() {
    let range = (F32(0.0), F32(1.0));
    let a = <Mvt<3, F32> as Structure<3, F32>>::build(&[], range);
    let b = <MutableMvt<3, F32> as Structure<3, F32>>::build(&[], range);
    let at = wrap([0.5, 0.5, 0.5]);
    assert!(!Structure::collides(&a, &at, F32(100.0)));
    assert!(!Structure::collides(&b, &at, F32(100.0)));
    let lanes = [[F32(0.5); 2]; 3];
    assert!(!SimdStructure::collides_simd(&a, &lanes, [F32(9.0); 2]));
    assert!(!SimdStructure::collides_simd(&b, &lanes, [F32(9.0); 2]));
}

#[test]
fn masks_of_lanes() {
    assert!(<[F32; 4]>::mask_any([false, false, true, false]));
    assert!(!<[F32; 4]>::mask_any([false; 4]));
    let a = wrap([1.0, 2.0, 3.0]);
    let b = wrap([4.0, 5.0, 6.0]);
    assert_eq!(
        <[F32; 3]>::select([true, false, true], a, b),
        wrap([1.0, 5.0, 3.0])
    );
    assert_eq!(<[F32; 2]>::mask_to_array([true, false]), [true, false]);
}

#[test]
fn memory_of_an_immutable_table() {
    let none = Mvt::<2, F32>::new(&[], F32(1.0));
    assert_eq!(none.memory_used(), size_of::<Mvt<2, F32>>());
    // one voxel: a root table of one entry, a second table of one entry, and two coordinates
    let one = Mvt::<2, F32>::new(&wrap_all(&[[1.0, 1.0]]), F32(1.0));
    let two = Mvt::<2, F32>::new(&wrap_all(&[[1.0, 1.0], [1.0, 1.0]]), F32(1.0));
    assert_eq!(two.memory_used() - one.memory_used(), 2 * size_of::<f32>());
    let mutable = MutableMvt::<2, F32>::new(&wrap_all(&[[1.0, 1.0]]), F32(1.0));
    assert!(mutable.memory_used() > size_of::<MutableMvt<2, F32>>() + 2 * size_of::<f32>());
}

#[test]
fn memory_of_a_kd_tree() {
    // one leaf: its items, one extent and the correction
    assert_eq!(kiddo_memory_used::<3>(0, 100), 100 + 16 + 7);
    assert_eq!(kiddo_memory_used::<3>(32, 100), 100 + 32 * 16 + 16 + 7);
    // two leaves
    assert_eq!(kiddo_memory_used::<3>(33, 100), 100 + 33 * 16 + 2 * 31 + 16);
    // three leaves are padded to four
    assert_eq!(kiddo_memory_used::<2>(65, 100), 100 + 65 * 12 + 4 * 31);
    assert_eq!(kiddo_memory_used::<3>(usize::MAX, 0), usize::MAX);
}

#[test]
fn memory_of_a_real_kd_tree_is_plausible() {
    let points: Vec<[f32; 3]> = (0..1000).map(|i| [i as f32, (i * 7 % 13) as f32, 1.0]).collect();
    let tree: kiddo::ImmutableKdTree<f32, 3> = kiddo::ImmutableKdTree::new_from_slice(&points).unwrap();
    let bytes = kiddo_memory_used::<3>(
        tree.size(),
        size_of::<kiddo::ImmutableKdTree<f32, 3>>(),
    );
    assert!(bytes > 1000 * 16);
}

#[test]
fn lane_that_is_not_a_number_is_ruled_out() {
    let points = [[F32(1.0), F32(2.0), F32(3.0)]];
    let mvt = Mvt::<3, F32>::new(&points, F32(0.5));
    let mutable = MutableMvt::<3, F32>::new(&points, F32(0.5));
    let nan = F32(f32::NAN);
    let at = [[F32(1.0), nan], [F32(2.0), F32(2.0)], [F32(3.0), F32(3.0)]];
    let off = [[nan, F32(9.0)], [F32(2.0), F32(2.0)], [F32(3.0), F32(3.0)]];
    for (centers, expected) in [(at, true), (off, false)] {
        assert_eq!(mvt.collides_simd(&centers, [F32(0.1); 2]), expected);
        assert_eq!(mutable.collides_simd(&centers, [F32(0.1); 2]), expected);
    }
}

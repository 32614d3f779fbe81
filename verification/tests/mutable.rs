use core::ops::{Add, Div, Mul, Sub};
use mvtable::{Axis, AxisSimdElement, Index, InsertError, NewMutableMvtError};
use rand::{rngs::SmallRng, RngExt, SeedableRng};
use std::marker::PhantomData;

/// A single-precision coordinate.
#[derive(Clone, Copy, Debug, PartialEq, PartialOrd)]
struct F32(f32);

impl Add for F32 {
    type Output = F32;
    fn add(self, other: F32) -> F32 {
        F32(self.0 + other.0)
    }
}

impl Sub for F32 {
    type Output = F32;
    fn sub(self, other: F32) -> F32 {
        F32(self.0 - other.0)
    }
}

impl Mul for F32 {
    type Output = F32;
    fn mul(self, other: F32) -> F32 {
        F32(self.0 * other.0)
    }
}

impl Div for F32 {
    type Output = F32;
    fn div(self, other: F32) -> F32 {
        F32(self.0 / other.0)
    }
}

impl Axis for F32 {
    const ZERO: F32 = F32(0.0);
    const INFINITY: F32 = F32(f32::INFINITY);
    const NEG_INFINITY: F32 = F32(f32::NEG_INFINITY);

    fn is_finite_spec(self) -> bool {
        self.is_finite()
    }

    fn square_spec(self) -> F32 {
        self.square()
    }

    fn to_index_spec(self) -> usize {
        self.to_index()
    }

    fn from_usize_spec(x: usize) -> F32 {
        F32::from_usize(x)
    }

    fn total_operators() {}

    fn is_finite(self) -> bool {
        self.0.is_finite()
    }

    fn square(self) -> F32 {
        F32(self.0 * self.0)
    }

    fn to_index(self) -> usize {
        self.0 as usize
    }

    fn from_usize(x: usize) -> F32 {
        F32(x as f32)
    }
}

impl AxisSimdElement for F32 {
    fn square_is_product() {}
}

fn wrap<const N: usize>(values: [f32; N]) -> [F32; N] {
    values.map(F32)
}

fn unwrap<const N: usize>(values: [F32; N]) -> [f32; N] {
    values.map(|x| x.0)
}

fn wrap_all<const K: usize>(points: &[[f32; K]]) -> Vec<[F32; K]> {
    points.iter().map(|&p| wrap(p)).collect()
}

fn splat<const L: usize>(x: f32) -> [f32; L] {
    [x; L]
}

/// An immutable table over single-precision points.
#[derive(Debug)]
struct Mvt<const K: usize, A = f32, I = u32> {
    inner: mvtable::Mvt<K, F32, I>,
    axis: PhantomData<A>,
}

impl<const K: usize, I: Index> Mvt<K, f32, I> {
    fn new(points: &[[f32; K]], voxel_width: f32) -> Self {
        Mvt {
            inner: mvtable::Mvt::new(&wrap_all(points), F32(voxel_width)),
            axis: PhantomData,
        }
    }

    fn collides(&self, center: &[f32; K], radius: f32) -> bool {
        self.inner.collides(&wrap(*center), F32(radius))
    }
}

/// A mutable table over single-precision points.
#[derive(Debug)]
struct MutableMvt<const K: usize, A = f32, I = u32> {
    inner: mvtable::MutableMvt<K, F32, I>,
    axis: PhantomData<A>,
}

impl<const K: usize, I: Index> MutableMvt<K, f32, I> {
    fn of(inner: mvtable::MutableMvt<K, F32, I>) -> Self {
        MutableMvt {
            inner,
            axis: PhantomData,
        }
    }

    fn new(points: &[[f32; K]], voxel_width: f32) -> Self {
        Self::of(mvtable::MutableMvt::new(&wrap_all(points), F32(voxel_width)))
    }

    fn with_point_radius(points: &[[f32; K]], voxel_width: f32, r_point: f32) -> Self {
        Self::of(mvtable::MutableMvt::with_point_radius(
            &wrap_all(points),
            F32(voxel_width),
            F32(r_point),
        ))
    }

    fn try_new(points: &[[f32; K]], voxel_width: f32) -> Result<Self, NewMutableMvtError> {
        mvtable::MutableMvt::try_new(&wrap_all(points), F32(voxel_width)).map(Self::of)
    }

    fn with_workspace(lo: [f32; K], hi: [f32; K], voxel_width: f32, r_point: f32) -> Self {
        Self::of(mvtable::MutableMvt::with_workspace(
            wrap(lo),
            wrap(hi),
            F32(voxel_width),
            F32(r_point),
        ))
    }

    fn try_with_workspace(
        lo: [f32; K],
        hi: [f32; K],
        voxel_width: f32,
        r_point: f32,
    ) -> Result<Self, NewMutableMvtError> {
        mvtable::MutableMvt::try_with_workspace(
            wrap(lo),
            wrap(hi),
            F32(voxel_width),
            F32(r_point),
        )
        .map(Self::of)
    }

    fn insert(&mut self, point: &[f32; K]) -> Result<(), InsertError> {
        self.inner.insert(&wrap(*point))
    }

    fn insert_points(&mut self, points: &[[f32; K]]) -> Result<(), InsertError> {
        self.inner.insert_points(&wrap_all(points))
    }

    fn collides(&self, center: &[f32; K], radius: f32) -> bool {
        self.inner.collides(&wrap(*center), F32(radius))
    }

    fn collides_simd<const L: usize>(&self, centers: &[[f32; L]; K], radii: [f32; L]) -> bool {
        self.inner.collides_simd(&centers.map(wrap), wrap(radii))
    }

    fn grid_width(&self) -> [usize; K] {
        self.inner.grid_width()
    }

    fn points(&self) -> std::vec::IntoIter<[f32; K]> {
        let points: Vec<[f32; K]> = self.inner.points().into_iter().map(unwrap).collect();
        points.into_iter()
    }
}

fn distsq<const K: usize>(a: [f32; K], b: [f32; K]) -> f32 {
    let mut total = 0.0;
    for k in 0..K {
        total += (a[k] - b[k]) * (a[k] - b[k]);
    }
    total
}

#[test]
fn mutable_build_simple() {
    let points = [[0.0, 0.1], [0.4, -0.2], [-0.2, -0.1]];
    let t = MutableMvt::<2>::new(&points, 0.2);
    println!("{t:?}");
}

#[test]
fn mutable_exact_query_single() {
    let points = [[0.0, 0.1], [0.4, -0.2], [-0.2, -0.1]];
    let t = MutableMvt::<2>::new(&points, 0.2);

    let q0 = [0.0, -0.01];
    assert!(t.collides(&q0, 0.12));
}

#[test]
fn mutable_no_collision() {
    let points = [[0.0, 0.1], [0.4, -0.2], [-0.2, -0.1]];
    let t = MutableMvt::<2>::new(&points, 0.2);

    assert!(!t.collides(&[10.0, 10.0], 0.1));
}

#[test]
fn mutable_three_d() {
    let points = [
        [0.0; 3],
        [0.1, -1.1, 0.5],
        [-0.2, -0.3, 0.25],
        [0.1, -1.1, 0.5],
    ];

    let t = MutableMvt::<3>::new(&points, 0.2);

    assert!(t.collides(&[0.0, 0.1, 0.0], 0.11));
    assert!(!t.collides(&[0.0, 0.1, 0.0], 0.05));
}

#[test]
fn mutable_point_radius() {
    let points = [[0.0, 0.0], [0.0, 1.0]];
    let voxel_width = 1.0;

    let mvt = MutableMvt::<2>::with_point_radius(&points, voxel_width, 0.5);
    assert!(mvt.collides(&[0.6, 0.0], 0.2));
    assert!(!mvt.collides(&[0.6, 0.0], 0.05));
}

#[test]
fn mutable_custom_index_type() {
    const R: f32 = 0.04;
    let points = [[0.0, 0.1], [0.4, -0.2], [-0.2, -0.1]];
    let mut rng = SmallRng::seed_from_u64(1234);
    let t: MutableMvt<2, f32, u16> = MutableMvt::new(&points, R);

    for _ in 0..10_000 {
        let p = [rng.random_range(-1.0..1.0), rng.random_range(-1.0..1.0)];
        let collides = points.iter().any(|&a| distsq(a, p) <= R * R);
        assert_eq!(collides, t.collides(&p, R), "query point {p:?}");
    }
}

#[test]
fn mutable_too_many_voxels_for_index_type() {
    // 300 points, each spaced far enough apart to land in its own voxel: more than `u8` (with
    // its top value reserved as a sentinel) can index.
    let points: Vec<[f32; 2]> = (0..300_i32).map(|i| [i as f32 * 10.0, 0.0]).collect();

    let result = MutableMvt::<2, f32, u8>::try_new(&points, 0.1);
    assert_eq!(result.unwrap_err(), NewMutableMvtError::TooManyVoxels);
}

#[test]
fn mutable_non_cubic_workspace() {
    let points: Vec<[f32; 2]> = (0..200_i32).map(|i| [i as f32 * 0.5, 0.3]).collect();
    let t = MutableMvt::<2>::new(&points, 0.05);

    assert_eq!(
        t.grid_width()[1], 1,
        "a single row suffices along the short axis"
    );
    assert!(t.grid_width()[0] > t.grid_width()[1]);

    assert!(t.collides(&[10.0, 0.3], 0.01));
    assert!(!t.collides(&[10.25, 0.3], 0.01));
    assert!(!t.collides(&[10.0, 10.0], 0.01));

    for &p in &points {
        let collides = points.iter().any(|&a| distsq(a, p) <= 0.05 * 0.05);
        assert_eq!(collides, t.collides(&p, 0.05), "query point {p:?}");
    }
}

#[test]
fn empty_cloud_errors() {
    let points: [[f32; 2]; 0] = [];
    let err = MutableMvt::<2>::try_new(&points, 1.0).unwrap_err();
    assert_eq!(err, NewMutableMvtError::EmptyPointCloud);
}

#[test]
#[should_panic(expected = "failed to construct MutableMvt")]
fn empty_cloud_panics() {
    let points: [[f32; 2]; 0] = [];
    let _ = MutableMvt::<2>::new(&points, 1.0);
}

#[test]
fn empty_cloud_via_with_workspace_never_collides() {
    // an empty `MutableMvt` built through `with_workspace` (rather than `new`'s point-cloud
    // path) must still behave correctly with no points inserted.
    let mvt = MutableMvt::<2>::with_workspace([0.0, 0.0], [1.0, 1.0], 1.0, 0.0);
    assert!(!mvt.collides(&[0.0, 0.0], 100.0));
}

#[test]
fn mutable_single_point() {
    let points = [[1.0, 1.0]];
    let mvt = MutableMvt::<2>::new(&points, 1.0);
    assert!(mvt.collides(&[1.0, 1.0], 0.01));
    assert!(!mvt.collides(&[5.0, 5.0], 0.01));
}

#[test]
fn mutable_get_points() {
    let mut points = [
        [-1.0, 0.0],
        [0.001, 0.0],
        [0.0, 0.5],
        [-1.0, 10.0],
        [-2.0, 10.0],
        [-0.5, 0.0],
        [1.0, 1.0],
        [2.0, 2.0],
    ];

    let mvt = MutableMvt::<2>::new(&points, 0.1);
    let mut points2 = mvt.points().collect::<Vec<_>>();

    points.sort_by(|a, b| a.partial_cmp(b).unwrap());
    points2.sort_by(|a, b| a.partial_cmp(b).unwrap());
    assert_eq!(&points, &*points2);
}

#[test]
fn mutable_fuzz() {
    const R: f32 = 0.04;
    let points = [[0.0, 0.1], [0.4, -0.2], [-0.2, -0.1]];
    let mut rng = SmallRng::seed_from_u64(1234);
    let t = MutableMvt::<2>::new(&points, R);

    for _ in 0..10_000 {
        let p = [rng.random_range(-1.0..1.0), rng.random_range(-1.0..1.0)];
        let collides = points.iter().any(|&a| distsq(a, p) <= R * R);
        assert_eq!(collides, t.collides(&p, R), "query point {p:?}");
    }
}

#[test]
fn mutable_fuzz_3d_dense() {
    const R: f32 = 0.3;
    let mut rng = SmallRng::seed_from_u64(42);
    let points: Vec<[f32; 3]> = (0..500)
        .map(|_| {
            [
                rng.random_range(-5.0..5.0),
                rng.random_range(-5.0..5.0),
                rng.random_range(-5.0..5.0),
            ]
        })
        .collect();
    let t = MutableMvt::<3>::with_point_radius(&points, R, 0.05);

    for _ in 0..2_000 {
        let p = [
            rng.random_range(-6.0..6.0),
            rng.random_range(-6.0..6.0),
            rng.random_range(-6.0..6.0),
        ];
        let collides = points
            .iter()
            .any(|&a| distsq(a, p) <= (R + 0.05) * (R + 0.05));
        assert_eq!(collides, t.collides(&p, R), "query point {p:?}");
    }
}

#[test]
fn mutable_fuzz_simd_2d() {
    const R: f32 = 0.04;
    const L: usize = 8;
    let mut rng = SmallRng::seed_from_u64(7);
    let points: Vec<[f32; 2]> = (0..300)
        .map(|_| [rng.random_range(-1.0..1.0), rng.random_range(-1.0..1.0)])
        .collect();
    let t = MutableMvt::<2>::new(&points, R);

    for _ in 0..2_000 {
        let batch: [[f32; L]; 2] =
            std::array::from_fn(|_| std::array::from_fn(|_| rng.random_range(-1.5..1.5)));
        let centers = batch;
        let radii = splat(R);

        let expected = (0..L).any(|lane| {
            let p = [batch[0][lane], batch[1][lane]];
            points.iter().any(|&a| distsq(a, p) <= R * R)
        });
        assert_eq!(
            expected,
            t.collides_simd(&centers, radii),
            "batch {batch:?}"
        );
    }
}

#[test]
fn mutable_fuzz_simd_3d_with_point_radius() {
    const R: f32 = 0.3;
    const R_POINT: f32 = 0.05;
    const L: usize = 4;
    let mut rng = SmallRng::seed_from_u64(99);
    let points: Vec<[f32; 3]> = (0..400)
        .map(|_| {
            [
                rng.random_range(-5.0..5.0),
                rng.random_range(-5.0..5.0),
                rng.random_range(-5.0..5.0),
            ]
        })
        .collect();
    let t = MutableMvt::<3>::with_point_radius(&points, R, R_POINT);

    for _ in 0..1_000 {
        let batch: [[f32; L]; 3] =
            std::array::from_fn(|_| std::array::from_fn(|_| rng.random_range(-6.0..6.0)));
        let centers = batch;
        let radii = splat(R);

        let expected = (0..L).any(|lane| {
            let p = [batch[0][lane], batch[1][lane], batch[2][lane]];
            points
                .iter()
                .any(|&a| distsq(a, p) <= (R + R_POINT) * (R + R_POINT))
        });
        assert_eq!(
            expected,
            t.collides_simd(&centers, radii),
            "batch {batch:?}"
        );
    }
}

#[test]
fn mutable_simd_matches_scalar_exact_hit() {
    let points = [[0.0, 0.1], [0.4, -0.2], [-0.2, -0.1]];
    let t = MutableMvt::<2>::new(&points, 0.2);

    // only the first lane is on a colliding query; the rest are far away.
    let centers = [
        [0.0, 10.0, -10.0, 5.0],
        [-0.01, 10.0, -10.0, 5.0],
    ];
    let radii = splat(0.12);

    assert!(t.collides_simd(&centers, radii));
    assert!(t.collides(&[0.0, -0.01], 0.12));
}

#[test]
fn mutable_simd_no_collision() {
    let points = [[0.0, 0.1], [0.4, -0.2], [-0.2, -0.1]];
    let t = MutableMvt::<2>::new(&points, 0.2);

    let centers = [
        [10.0, -10.0, 20.0, -20.0],
        [10.0, -10.0, 20.0, -20.0],
    ];
    let radii = splat(0.1);

    assert!(!t.collides_simd(&centers, radii));
}


#[test]
fn insert_matches_build_all_at_once() {
    const R: f32 = 0.05;
    let mut rng = SmallRng::seed_from_u64(2024);
    let points: Vec<[f32; 3]> = (0..400)
        .map(|_| {
            [
                rng.random_range(-3.0..3.0),
                rng.random_range(-3.0..3.0),
                rng.random_range(-3.0..3.0),
            ]
        })
        .collect();

    // build a reference structure with every point at once...
    let built_all_at_once = Mvt::<3, f32>::new(&points, R);

    // ...and an equivalent one by inserting one point at a time into a structure seeded with
    // just the first point, exercising the same workspace bounds either way.
    let mut inserted_one_at_a_time = MutableMvt::<3, f32>::new(&points[..1], R);
    for p in &points[1..] {
        inserted_one_at_a_time.insert(p).unwrap();
    }

    for _ in 0..2_000 {
        let center = [
            rng.random_range(-3.5..3.5),
            rng.random_range(-3.5..3.5),
            rng.random_range(-3.5..3.5),
        ];
        let radius = rng.random_range(0.0..R);
        assert_eq!(
            built_all_at_once.collides(&center, radius),
            inserted_one_at_a_time.collides(&center, radius),
            "query {center:?}, radius {radius}"
        );
    }
}

#[test]
fn insert_points_batch_matches_brute_force() {
    const R: f32 = 0.05;
    let mut rng = SmallRng::seed_from_u64(7331);
    let initial: Vec<[f32; 2]> = (0..50)
        .map(|_| [rng.random_range(-2.0..2.0), rng.random_range(-2.0..2.0)])
        .collect();
    let inserted: Vec<[f32; 2]> = (0..50)
        .map(|_| [rng.random_range(-2.0..2.0), rng.random_range(-2.0..2.0)])
        .collect();

    let mut mvt = MutableMvt::<2>::new(&initial, R);
    mvt.insert_points(&inserted).unwrap();

    let all_points: Vec<[f32; 2]> = initial.iter().chain(&inserted).copied().collect();

    for _ in 0..2_000 {
        let center = [rng.random_range(-2.5..2.5), rng.random_range(-2.5..2.5)];
        let radius = rng.random_range(0.0..R);
        let expected = all_points
            .iter()
            .any(|&a| distsq(a, center) <= radius * radius);
        assert_eq!(
            expected,
            mvt.collides(&center, radius),
            "query {center:?}, radius {radius}"
        );
    }
}

#[test]
fn insert_rejects_non_finite() {
    let mut mvt = MutableMvt::<2>::new(&[[0.0, 0.0]], 1.0);
    let err = mvt.insert(&[f32::NAN, 0.0]).unwrap_err();
    assert_eq!(err, InsertError::NonFinite);
    // the rejected point must not have been stored.
    assert_eq!(mvt.points().count(), 1);
}

#[test]
fn with_workspace_matches_build_from_points() {
    const R: f32 = 0.05;
    let mut rng = SmallRng::seed_from_u64(11);
    let points: Vec<[f32; 2]> = (0..300)
        .map(|_| [rng.random_range(-2.0..2.0), rng.random_range(-2.0..2.0)])
        .collect();

    let mut mvt = MutableMvt::<2>::with_workspace([-2.0, -2.0], [2.0, 2.0], R, 0.0);
    assert!(mvt.points().next().is_none());
    mvt.insert_points(&points).unwrap();

    for _ in 0..2_000 {
        let center = [rng.random_range(-2.5..2.5), rng.random_range(-2.5..2.5)];
        let radius = rng.random_range(0.0..R);
        let expected = points.iter().any(|&a| distsq(a, center) <= radius * radius);
        assert_eq!(
            expected,
            mvt.collides(&center, radius),
            "query {center:?}, radius {radius}"
        );
    }
}

#[test]
fn with_workspace_rejects_non_finite() {
    let err =
        MutableMvt::<2>::try_with_workspace([0.0, f32::NAN], [1.0, 1.0], 0.1, 0.0).unwrap_err();
    assert_eq!(err, NewMutableMvtError::NonFinite);
}

#[test]
fn with_workspace_rejects_invalid_radius() {
    let err =
        MutableMvt::<2>::try_with_workspace([0.0, 0.0], [1.0, 1.0], -1.0, 0.0).unwrap_err();
    assert_eq!(err, NewMutableMvtError::InvalidVoxelWidth);
}

#[test]
fn with_workspace_voxel_width_independent_of_point_radius() {
    let mvt = MutableMvt::<2>::try_with_workspace([0.0, 0.0], [1.0, 1.0], 1.0, -2.0).unwrap();
    assert!(mvt.points().next().is_none());
}

#[test]
fn with_workspace_rejects_inverted_bounds() {
    let err =
        MutableMvt::<2>::try_with_workspace([1.0, 0.0], [0.0, 1.0], 0.1, 0.0).unwrap_err();
    assert_eq!(err, NewMutableMvtError::InvalidWorkspace);
}

#[test]
fn with_workspace_point_radius_matches_build_from_points() {
    const R: f32 = 0.3;
    const R_POINT: f32 = 0.05;
    let mut rng = SmallRng::seed_from_u64(23);
    let points: Vec<[f32; 2]> = (0..300)
        .map(|_| [rng.random_range(-2.0..2.0), rng.random_range(-2.0..2.0)])
        .collect();

    let mut mvt = MutableMvt::<2>::with_workspace([-2.0, -2.0], [2.0, 2.0], R, R_POINT);
    mvt.insert_points(&points).unwrap();

    for _ in 0..2_000 {
        let center = [rng.random_range(-2.5..2.5), rng.random_range(-2.5..2.5)];
        let radius = rng.random_range(0.0..R);
        let expected = points
            .iter()
            .any(|&a| distsq(a, center) <= (radius + R_POINT) * (radius + R_POINT));
        assert_eq!(
            expected,
            mvt.collides(&center, radius),
            "query {center:?}, radius {radius}"
        );
    }
}

#[test]
fn out_of_workspace_insert_still_correct() {
    // establish a tiny workspace from a tight cluster...
    let points = [[0.0, 0.0], [0.05, 0.05], [-0.05, 0.02]];
    let mut mvt = MutableMvt::<2>::new(&points, 0.1);

    // ...then insert a point far outside it. Its grid bucket will be clamped to an edge
    // voxel, but its true coordinates must still be stored and found exactly.
    let far_point = [1000.0, -1000.0];
    mvt.insert(&far_point).unwrap();

    assert!(mvt.collides(&far_point, 0.01));
    assert!(!mvt.collides(&[999.0, -1000.0], 0.01));

    // the original cluster must still query correctly too.
    assert!(mvt.collides(&[0.0, 0.0], 0.01));
    assert!(!mvt.collides(&[5.0, 5.0], 0.01));
}

#[test]
fn insert_then_simd_query_matches_scalar() {
    const R: f32 = 0.3;
    const L: usize = 4;
    let mut rng = SmallRng::seed_from_u64(555);
    let initial: Vec<[f32; 3]> = (0..100)
        .map(|_| {
            [
                rng.random_range(-3.0..3.0),
                rng.random_range(-3.0..3.0),
                rng.random_range(-3.0..3.0),
            ]
        })
        .collect();
    let mut mvt = MutableMvt::<3>::new(&initial, R);
    let inserted: Vec<[f32; 3]> = (0..100)
        .map(|_| {
            [
                rng.random_range(-3.0..3.0),
                rng.random_range(-3.0..3.0),
                rng.random_range(-3.0..3.0),
            ]
        })
        .collect();
    mvt.insert_points(&inserted).unwrap();

    for _ in 0..500 {
        let batch: [[f32; L]; 3] =
            std::array::from_fn(|_| std::array::from_fn(|_| rng.random_range(-3.5..3.5)));
        let centers = batch;
        let radii = splat(R);

        let expected = (0..L).any(|lane| {
            let p = [batch[0][lane], batch[1][lane], batch[2][lane]];
            mvt.collides(&p, R)
        });
        assert_eq!(
            expected,
            mvt.collides_simd(&centers, radii),
            "batch {batch:?}"
        );
    }
}

#[test]
fn insert_loses_no_collision() {
    let mut rng = SmallRng::seed_from_u64(77);
    let mut mvt = MutableMvt::<2>::with_workspace([-1.0, -1.0], [1.0, 1.0], 0.25, 0.05);
    let queries: Vec<([f32; 2], f32)> = (0..100)
        .map(|_| {
            let c = [rng.random_range(-3.0..3.0), rng.random_range(-3.0..3.0)];
            (c, rng.random_range(0.0..0.5))
        })
        .collect();
    let mut before = vec![false; queries.len()];
    for _ in 0..60 {
        // inside and outside of the workspace
        let p = [rng.random_range(-3.0..3.0), rng.random_range(-3.0..3.0)];
        mvt.insert(&p).unwrap();
        assert!(mvt.collides(&p, 0.0));
        assert!(mvt.collides_simd(&[[p[0]; 4], [p[1]; 4]], [0.0; 4]));
        for (i, &(c, r)) in queries.iter().enumerate() {
            let now = mvt.collides(&c, r);
            assert!(now || !before[i], "query {c:?}, radius {r}");
            before[i] = now;
        }
    }
    assert!(before.contains(&true));
}

#[test]
fn stored_points_collide_at_radius_zero() {
    let mut rng = SmallRng::seed_from_u64(78);
    let points: Vec<[f32; 3]> = (0..200)
        .map(|_| std::array::from_fn(|_| rng.random_range(-2.0..2.0)))
        .collect();
    let immutable = Mvt::<3>::new(&points, 0.3);
    let mutable = MutableMvt::<3>::new(&points, 0.3);
    for p in &points {
        assert!(immutable.collides(p, 0.0));
        assert!(mutable.collides(p, 0.0));
    }
}

#[test]
fn clouds_have_a_valid_workspace() {
    assert!(MutableMvt::<2>::try_new(&[[1.0, -0.0]], 0.5).is_ok());
    assert!(MutableMvt::<2>::try_new(&[[3.0, 1.0], [-3.0, 1.0], [0.0, 0.5]], 0.5).is_ok());
    assert_eq!(
        MutableMvt::<2>::try_with_workspace([1.0, 0.0], [0.0, 1.0], 0.5, 0.0).unwrap_err(),
        NewMutableMvtError::InvalidWorkspace
    );
}

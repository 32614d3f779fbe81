use core::ops::{Add, Div, Mul, Sub};
use mvtable::{Axis, AxisSimdElement, Index, NewMvtError};
use rand::{rngs::SmallRng, RngExt, SeedableRng};
use std::marker::PhantomData;

/// A single-precision coordinate.
#[derive(Clone, Copy, Debug, PartialEq, PartialOrd)]
struct F32(f32);

impl Add for F32 {
    type Output = F32;
    fn add(self, other: F32) -> F32 {
        F32(self.0 + other.0)
    }
}

impl Sub for F32 {
    type Output = F32;
    fn sub(self, other: F32) -> F32 {
        F32(self.0 - other.0)
    }
}

impl Mul for F32 {
    type Output = F32;
    fn mul(self, other: F32) -> F32 {
        F32(self.0 * other.0)
    }
}

impl Div for F32 {
    type Output = F32;
    fn div(self, other: F32) -> F32 {
        F32(self.0 / other.0)
    }
}

impl Axis for F32 {
    const ZERO: F32 = F32(0.0);
    const INFINITY: F32 = F32(f32::INFINITY);
    const NEG_INFINITY: F32 = F32(f32::NEG_INFINITY);

    fn is_finite_spec(self) -> bool {
        self.is_finite()
    }

    fn square_spec(self) -> F32 {
        self.square()
    }

    fn to_index_spec(self) -> usize {
        self.to_index()
    }

    fn from_usize_spec(x: usize) -> F32 {
        F32::from_usize(x)
    }

    fn total_operators() {}

    fn is_finite(self) -> bool {
        self.0.is_finite()
    }

    fn square(self) -> F32 {
        F32(self.0 * self.0)
    }

    fn to_index(self) -> usize {
        self.0 as usize
    }

    fn from_usize(x: usize) -> F32 {
        F32(x as f32)
    }
}

impl AxisSimdElement for F32 {
    fn square_is_product() {}
}

fn wrap<const N: usize>(values: [f32; N]) -> [F32; N] {
    values.map(F32)
}

fn unwrap<const N: usize>(values: [F32; N]) -> [f32; N] {
    values.map(|x| x.0)
}

fn wrap_all<const K: usize>(points: &[[f32; K]]) -> Vec<[F32; K]> {
    points.iter().map(|&p| wrap(p)).collect()
}

fn splat<const L: usize>(x: f32) -> [f32; L] {
    [x; L]
}

/// An immutable table over single-precision points.
#[derive(Debug)]
struct Mvt<const K: usize, A = f32, I = u32> {
    inner: mvtable::Mvt<K, F32, I>,
    axis: PhantomData<A>,
}

impl<const K: usize, I: Index> Mvt<K, f32, I> {
    fn new(points: &[[f32; K]], voxel_width: f32) -> Self {
        Mvt {
            inner: mvtable::Mvt::new(&wrap_all(points), F32(voxel_width)),
            axis: PhantomData,
        }
    }

    fn try_new(points: &[[f32; K]], voxel_width: f32) -> Result<Self, NewMvtError> {
        let inner = mvtable::Mvt::try_new(&wrap_all(points), F32(voxel_width))?;
        Ok(Mvt {
            inner,
            axis: PhantomData,
        })
    }

    fn with_point_radius(points: &[[f32; K]], voxel_width: f32, r_point: f32) -> Self {
        let inner =
            mvtable::Mvt::with_point_radius(&wrap_all(points), F32(voxel_width), F32(r_point));
        Mvt {
            inner,
            axis: PhantomData,
        }
    }

    fn collides(&self, center: &[f32; K], radius: f32) -> bool {
        self.inner.collides(&wrap(*center), F32(radius))
    }

    fn collides_simd<const L: usize>(&self, centers: &[[f32; L]; K], radii: [f32; L]) -> bool {
        self.inner.collides_simd(&centers.map(wrap), wrap(radii))
    }

    fn grid_width(&self) -> [usize; K] {
        self.inner.grid_width()
    }

    fn points(&self) -> std::vec::IntoIter<[f32; K]> {
        let points: Vec<[f32; K]> = self.inner.points().into_iter().map(unwrap).collect();
        points.into_iter()
    }
}

fn distsq<const K: usize>(a: [f32; K], b: [f32; K]) -> f32 {
    let mut total = 0.0;
    for k in 0..K {
        total += (a[k] - b[k]) * (a[k] - b[k]);
    }
    total
}

#[test]
fn immutable_build_simple() {
    let points = [[0.0, 0.1], [0.4, -0.2], [-0.2, -0.1]];
    let t = Mvt::<2>::new(&points, 0.2);
    println!("{t:?}");
}

#[test]
fn immutable_exact_query_single() {
    let points = [[0.0, 0.1], [0.4, -0.2], [-0.2, -0.1]];
    let t = Mvt::<2>::new(&points, 0.2);

    let q0 = [0.0, -0.01];
    assert!(t.collides(&q0, 0.12));
}

#[test]
fn immutable_no_collision() {
    let points = [[0.0, 0.1], [0.4, -0.2], [-0.2, -0.1]];
    let t = Mvt::<2>::new(&points, 0.2);

    assert!(!t.collides(&[10.0, 10.0], 0.1));
}

#[test]
fn immutable_three_d() {
    let points = [
        [0.0; 3],
        [0.1, -1.1, 0.5],
        [-0.2, -0.3, 0.25],
        [0.1, -1.1, 0.5],
    ];

    let t = Mvt::<3>::new(&points, 0.2);

    assert!(t.collides(&[0.0, 0.1, 0.0], 0.11));
    assert!(!t.collides(&[0.0, 0.1, 0.0], 0.05));
}

#[test]
fn immutable_point_radius() {
    let points = [[0.0, 0.0], [0.0, 1.0]];
    let voxel_width = 1.0;

    let mvt = Mvt::<2>::with_point_radius(&points, voxel_width, 0.5);
    assert!(mvt.collides(&[0.6, 0.0], 0.2));
    assert!(!mvt.collides(&[0.6, 0.0], 0.05));
}

#[test]
fn immutable_custom_index_type() {
    const R: f32 = 0.04;
    let points = [[0.0, 0.1], [0.4, -0.2], [-0.2, -0.1]];
    let mut rng = SmallRng::seed_from_u64(1234);
    let t: Mvt<2, f32, u16> = Mvt::new(&points, R);

    for _ in 0..10_000 {
        let p = [rng.random_range(-1.0..1.0), rng.random_range(-1.0..1.0)];
        let collides = points.iter().any(|&a| distsq(a, p) <= R * R);
        assert_eq!(collides, t.collides(&p, R), "query point {p:?}");
    }
}

#[test]
fn immutable_too_many_voxels_for_index_type() {
    // 300 points, each spaced far enough apart to land in its own voxel: more than `u8` (with
    // its top value reserved as a sentinel) can index.
    let points: Vec<[f32; 2]> = (0..300_i32).map(|i| [i as f32 * 10.0, 0.0]).collect();

    let result = Mvt::<2, f32, u8>::try_new(&points, 0.1);
    assert_eq!(result.unwrap_err(), NewMvtError::TooManyVoxels);
}

#[test]
fn immutable_non_cubic_workspace() {
    // a long, thin cloud: 100 units wide along x, but only 1 unit tall along y. A cubic grid
    // would need the same (huge) cell count along y as along x; a non-cubic grid can use far
    // fewer cells along y.
    let points: Vec<[f32; 2]> = (0..200_i32).map(|i| [i as f32 * 0.5, 0.3]).collect();
    let t = Mvt::<2>::new(&points, 0.05);

    assert_eq!(
        t.grid_width()[1], 1,
        "a single row suffices along the short axis"
    );
    assert!(t.grid_width()[0] > t.grid_width()[1]);

    assert!(t.collides(&[10.0, 0.3], 0.01));
    assert!(!t.collides(&[10.25, 0.3], 0.01));
    assert!(!t.collides(&[10.0, 10.0], 0.01));

    for &p in &points {
        let collides = points.iter().any(|&a| distsq(a, p) <= 0.05 * 0.05);
        assert_eq!(collides, t.collides(&p, 0.05), "query point {p:?}");
    }
}

#[test]
fn immutable_empty_cloud() {
    let points: [[f32; 2]; 0] = [];
    let mvt = Mvt::<2>::new(&points, 1.0);
    assert!(!mvt.collides(&[0.0, 0.0], 100.0));
}

#[test]
fn immutable_single_point() {
    let points = [[1.0, 1.0]];
    let mvt = Mvt::<2>::new(&points, 1.0);
    assert!(mvt.collides(&[1.0, 1.0], 0.01));
    assert!(!mvt.collides(&[5.0, 5.0], 0.01));
}

#[test]
fn immutable_get_points() {
    let mut points = [
        [-1.0, 0.0],
        [0.001, 0.0],
        [0.0, 0.5],
        [-1.0, 10.0],
        [-2.0, 10.0],
        [-0.5, 0.0],
        [1.0, 1.0],
        [2.0, 2.0],
    ];

    let mvt = Mvt::<2>::new(&points, 0.1);
    let mut points2 = mvt.points().collect::<Vec<_>>();

    points.sort_by(|a, b| a.partial_cmp(b).unwrap());
    points2.sort_by(|a, b| a.partial_cmp(b).unwrap());
    assert_eq!(&points, &*points2);
}

#[test]
fn immutable_fuzz() {
    const R: f32 = 0.04;
    let points = [[0.0, 0.1], [0.4, -0.2], [-0.2, -0.1]];
    let mut rng = SmallRng::seed_from_u64(1234);
    let t = Mvt::<2>::new(&points, R);

    for _ in 0..10_000 {
        let p = [rng.random_range(-1.0..1.0), rng.random_range(-1.0..1.0)];
        let collides = points.iter().any(|&a| distsq(a, p) <= R * R);
        assert_eq!(collides, t.collides(&p, R), "query point {p:?}");
    }
}

#[test]
fn immutable_fuzz_3d_dense() {
    const R: f32 = 0.3;
    let mut rng = SmallRng::seed_from_u64(42);
    let points: Vec<[f32; 3]> = (0..500)
        .map(|_| {
            [
                rng.random_range(-5.0..5.0),
                rng.random_range(-5.0..5.0),
                rng.random_range(-5.0..5.0),
            ]
        })
        .collect();
    let t = Mvt::<3>::with_point_radius(&points, R, 0.05);

    for _ in 0..2_000 {
        let p = [
            rng.random_range(-6.0..6.0),
            rng.random_range(-6.0..6.0),
            rng.random_range(-6.0..6.0),
        ];
        let collides = points
            .iter()
            .any(|&a| distsq(a, p) <= (R + 0.05) * (R + 0.05));
        assert_eq!(collides, t.collides(&p, R), "query point {p:?}");
    }
}

#[test]
fn immutable_fuzz_simd_2d() {
    const R: f32 = 0.04;
    const L: usize = 8;
    let mut rng = SmallRng::seed_from_u64(7);
    let points: Vec<[f32; 2]> = (0..300)
        .map(|_| [rng.random_range(-1.0..1.0), rng.random_range(-1.0..1.0)])
        .collect();
    let t = Mvt::<2>::new(&points, R);

    for _ in 0..2_000 {
        let batch: [[f32; L]; 2] =
            std::array::from_fn(|_| std::array::from_fn(|_| rng.random_range(-1.5..1.5)));
        let centers = batch;
        let radii = splat(R);

        let expected = (0..L).any(|lane| {
            let p = [batch[0][lane], batch[1][lane]];
            points.iter().any(|&a| distsq(a, p) <= R * R)
        });
        assert_eq!(
            expected,
            t.collides_simd(&centers, radii),
            "batch {batch:?}"
        );
    }
}

#[test]
fn immutable_fuzz_simd_3d_with_point_radius() {
    const R: f32 = 0.3;
    const R_POINT: f32 = 0.05;
    const L: usize = 4;
    let mut rng = SmallRng::seed_from_u64(99);
    let points: Vec<[f32; 3]> = (0..400)
        .map(|_| {
            [
                rng.random_range(-5.0..5.0),
                rng.random_range(-5.0..5.0),
                rng.random_range(-5.0..5.0),
            ]
        })
        .collect();
    let t = Mvt::<3>::with_point_radius(&points, R, R_POINT);

    for _ in 0..1_000 {
        let batch: [[f32; L]; 3] =
            std::array::from_fn(|_| std::array::from_fn(|_| rng.random_range(-6.0..6.0)));
        let centers = batch;
        let radii = splat(R);

        let expected = (0..L).any(|lane| {
            let p = [batch[0][lane], batch[1][lane], batch[2][lane]];
            points
                .iter()
                .any(|&a| distsq(a, p) <= (R + R_POINT) * (R + R_POINT))
        });
        assert_eq!(
            expected,
            t.collides_simd(&centers, radii),
            "batch {batch:?}"
        );
    }
}

#[test]
fn immutable_simd_matches_scalar_exact_hit() {
    let points = [[0.0, 0.1], [0.4, -0.2], [-0.2, -0.1]];
    let t = Mvt::<2>::new(&points, 0.2);

    // only the first lane is on a colliding query; the rest are far away.
    let centers = [
        [0.0, 10.0, -10.0, 5.0],
        [-0.01, 10.0, -10.0, 5.0],
    ];
    let radii = splat(0.12);

    assert!(t.collides_simd(&centers, radii));
    assert!(t.collides(&[0.0, -0.01], 0.12));
}

#[test]
fn immutable_simd_no_collision() {
    let points = [[0.0, 0.1], [0.4, -0.2], [-0.2, -0.1]];
    let t = Mvt::<2>::new(&points, 0.2);

    let centers = [
        [10.0, -10.0, 20.0, -20.0],
        [10.0, -10.0, 20.0, -20.0],
    ];
    let radii = splat(0.1);

    assert!(!t.collides_simd(&centers, radii));
}

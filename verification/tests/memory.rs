use core::ops::{Add, Div, Mul, Sub};
use mvtable::{clouds, Axis};
use rand::{rngs::SmallRng, RngExt, SeedableRng};

/// A single-precision coordinate.
#[derive(Clone, Copy, Debug, PartialEq, PartialOrd)]
struct F32(f32);

impl Add for F32 {
    type Output = F32;
    fn add(self, other: F32) -> F32 {
        F32(self.0 + other.0)
    }
}

impl Sub for F32 {
    type Output = F32;
    fn sub(self, other: F32) -> F32 {
        F32(self.0 - other.0)
    }
}

impl Mul for F32 {
    type Output = F32;
    fn mul(self, other: F32) -> F32 {
        F32(self.0 * other.0)
    }
}

impl Div for F32 {
    type Output = F32;
    fn div(self, other: F32) -> F32 {
        F32(self.0 / other.0)
    }
}

impl Axis for F32 {
    const ZERO: F32 = F32(0.0);
    const INFINITY: F32 = F32(f32::INFINITY);
    const NEG_INFINITY: F32 = F32(f32::NEG_INFINITY);

    fn is_finite_spec(self) -> bool {
        self.is_finite()
    }

    fn square_spec(self) -> F32 {
        self.square()
    }

    fn to_index_spec(self) -> usize {
        self.to_index()
    }

    fn from_usize_spec(x: usize) -> F32 {
        F32::from_usize(x)
    }

    fn total_operators() {}

    fn is_finite(self) -> bool {
        self.0.is_finite()
    }

    fn square(self) -> F32 {
        F32(self.0 * self.0)
    }

    fn to_index(self) -> usize {
        self.0 as usize
    }

    fn from_usize(x: usize) -> F32 {
        F32(x as f32)
    }
}

fn wrap<const N: usize>(values: [f32; N]) -> [F32; N] {
    values.map(F32)
}

fn unwrap<const N: usize>(values: [F32; N]) -> [f32; N] {
    values.map(|x| x.0)
}

fn wrap_all<const K: usize>(points: &[[f32; K]]) -> Vec<[F32; K]> {
    points.iter().map(|&p| wrap(p)).collect()
}

fn unwrap_all<const K: usize>(points: Vec<[F32; K]>) -> Vec<[f32; K]> {
    points.into_iter().map(unwrap).collect()
}

/// Draw `n` points uniformly at random from the axis-aligned box `[-half_width, half_width]^K`.
fn uniform_cloud<const K: usize>(rng: &mut SmallRng, n: usize, half_width: f32) -> Vec<[f32; K]> {
    let draws: Vec<F32> = (0..n * K)
        .map(|_| F32(rng.random_range(-half_width..half_width)))
        .collect();
    unwrap_all(clouds::uniform_cloud::<F32, K>(n, &draws))
}

/// Draw `n` points from `n_clusters` tight clusters within `[-half_width, half_width]^K`.
fn clustered_cloud<const K: usize>(
    rng: &mut SmallRng,
    n: usize,
    n_clusters: usize,
    half_width: f32,
    cluster_radius: f32,
) -> Vec<[f32; K]> {
    let n_clusters = clouds::cluster_count(n_clusters);
    let centers = wrap_all(&uniform_cloud::<K>(rng, n_clusters, half_width));
    let mut picks = Vec::new();
    let mut offsets = Vec::new();
    for _ in 0..n {
        picks.push(rng.random_range(0..n_clusters));
        for _ in 0..K {
            offsets.push(F32(rng.random_range(-cluster_radius..cluster_radius)));
        }
    }
    unwrap_all(clouds::clustered_cloud(&centers, &picks, &offsets))
}

fn compare_memory(points: &[[f32; 3]], r_max: f32) -> (usize, usize) {
    let points = wrap_all(points);
    let mvt = mvtable::Mvt::<3, F32>::new(&points, F32(r_max));
    let mvt_mutable = mvtable::MutableMvt::<3, F32>::new(&points, F32(r_max));
    (mvt.memory_used(), mvt_mutable.memory_used())
}

#[test]
fn mutable_uses_more_memory_uniform() {
    let mut rng = SmallRng::seed_from_u64(1);
    let points = uniform_cloud::<3>(&mut rng, 20_000, 5.0);
    let (immutable_bytes, mutable_bytes) = compare_memory(&points, 0.05);

    println!(
        "uniform: immutable={immutable_bytes} bytes, mutable={mutable_bytes} bytes, \
         ratio={:.2}x",
        mutable_bytes as f64 / immutable_bytes as f64
    );
    assert!(
        mutable_bytes > immutable_bytes,
        "MutableMvt ({mutable_bytes} bytes) should use more memory than Mvt \
         ({immutable_bytes} bytes) for the same uniform point cloud"
    );
}

#[test]
fn mutable_uses_more_memory_clustered() {
    // small, tight clusters: most voxels hold very few points, which is the worst case for
    // `MutableMvt`'s per-voxel `Vec` capacity slack and per-voxel allocation overhead.
    let mut rng = SmallRng::seed_from_u64(2);
    let points = clustered_cloud::<3>(&mut rng, 20_000, 400, 5.0, 0.02);
    let (immutable_bytes, mutable_bytes) = compare_memory(&points, 0.05);

    println!(
        "clustered: immutable={immutable_bytes} bytes, mutable={mutable_bytes} bytes, \
         ratio={:.2}x",
        mutable_bytes as f64 / immutable_bytes as f64
    );
    assert!(
        mutable_bytes > immutable_bytes,
        "MutableMvt ({mutable_bytes} bytes) should use more memory than Mvt \
         ({immutable_bytes} bytes) for the same clustered point cloud"
    );
}

#[test]
fn memory_is_the_sum_of_its_parts() {
    type Table = mvtable::MutableMvt<3, F32, u16>;
    let of = |tables, voxels, axes: &[usize], coordinates: &[Vec<usize>]| {
        Table::memory_of(tables, voxels, &axes.to_vec(), &coordinates.to_vec())
    };
    let table = std::mem::size_of::<Table>();
    let voxel = std::mem::size_of::<mvtable::mutable::MutableVoxel<F32, 3>>();
    let axis = std::mem::size_of::<Vec<F32>>();
    assert_eq!(of(0, 0, &[], &[]), table);
    assert_eq!(of(10, 0, &[], &[]), table + 20);
    assert_eq!(
        of(10, 5, &[3, 4], &[vec![8, 4, 4], vec![1, 1, 2]]),
        table + 20 + 5 * voxel + 7 * axis + 20 * 4
    );
    assert_eq!(of(usize::MAX, 0, &[], &[]), usize::MAX);
    assert_eq!(of(0, 0, &[], &[vec![usize::MAX], vec![usize::MAX]]), usize::MAX);
}

#[test]
fn memory_of_a_table_without_points() {
    let mvt = mvtable::MutableMvt::<2, F32, u32>::with_workspace(
        wrap([0.0, 0.0]),
        wrap([1.0, 1.0]),
        F32(0.25),
        F32(0.0),
    );
    let table = std::mem::size_of::<mvtable::MutableMvt<2, F32, u32>>();
    // a root table of four entries, no voxels
    assert!(mvt.memory_used() >= table + 4 * 4);
}

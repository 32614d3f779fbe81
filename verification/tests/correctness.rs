use core::ops::{Add, Div, Mul, Sub};
use kiddo::{ImmutableKdTree, SquaredEuclidean};
use mvtable::structure::Structure;
use mvtable::{clouds, structure, Axis, AxisSimdElement};
use rand::{rngs::SmallRng, RngExt, SeedableRng};
use std::num::NonZeroUsize;

/// A single-precision coordinate.
#[derive(Clone, Copy, Debug, PartialEq, PartialOrd)]
struct F32(f32);

impl Add for F32 {
    type Output = F32;
    fn add(self, other: F32) -> F32 {
        F32(self.0 + other.0)
    }
}

impl Sub for F32 {
    type Output = F32;
    fn sub(self, other: F32) -> F32 {
        F32(self.0 - other.0)
    }
}

impl Mul for F32 {
    type Output = F32;
    fn mul(self, other: F32) -> F32 {
        F32(self.0 * other.0)
    }
}

impl Div for F32 {
    type Output = F32;
    fn div(self, other: F32) -> F32 {
        F32(self.0 / other.0)
    }
}

impl Axis for F32 {
    const ZERO: F32 = F32(0.0);
    const INFINITY: F32 = F32(f32::INFINITY);
    const NEG_INFINITY: F32 = F32(f32::NEG_INFINITY);

    fn is_finite_spec(self) -> bool {
        self.is_finite()
    }

    fn square_spec(self) -> F32 {
        self.square()
    }

    fn to_index_spec(self) -> usize {
        self.to_index()
    }

    fn from_usize_spec(x: usize) -> F32 {
        F32::from_usize(x)
    }

    fn total_operators() {}

    fn is_finite(self) -> bool {
        self.0.is_finite()
    }

    fn square(self) -> F32 {
        F32(self.0 * self.0)
    }

    fn to_index(self) -> usize {
        self.0 as usize
    }

    fn from_usize(x: usize) -> F32 {
        F32(x as f32)
    }
}

impl AxisSimdElement for F32 {
    fn square_is_product() {}
}

fn wrap<const N: usize>(values: [f32; N]) -> [F32; N] {
    values.map(F32)
}

fn unwrap<const N: usize>(values: [F32; N]) -> [f32; N] {
    values.map(|x| x.0)
}

fn wrap_all<const K: usize>(points: &[[f32; K]]) -> Vec<[F32; K]> {
    points.iter().map(|&p| wrap(p)).collect()
}

fn unwrap_all<const K: usize>(points: Vec<[F32; K]>) -> Vec<[f32; K]> {
    points.into_iter().map(unwrap).collect()
}

/// Draw `n` points uniformly at random from the axis-aligned box `[-half_width, half_width]^K`.
fn uniform_cloud<const K: usize>(rng: &mut SmallRng, n: usize, half_width: f32) -> Vec<[f32; K]> {
    let draws: Vec<F32> = (0..n * K)
        .map(|_| F32(rng.random_range(-half_width..half_width)))
        .collect();
    unwrap_all(clouds::uniform_cloud::<F32, K>(n, &draws))
}

/// Draw `n` points from `n_clusters` tight clusters within `[-half_width, half_width]^K`.
fn clustered_cloud<const K: usize>(
    rng: &mut SmallRng,
    n: usize,
    n_clusters: usize,
    half_width: f32,
    cluster_radius: f32,
) -> Vec<[f32; K]> {
    let n_clusters = clouds::cluster_count(n_clusters);
    let centers = wrap_all(&uniform_cloud::<K>(rng, n_clusters, half_width));
    let mut picks = Vec::new();
    let mut offsets = Vec::new();
    for _ in 0..n {
        picks.push(rng.random_range(0..n_clusters));
        for _ in 0..K {
            offsets.push(F32(rng.random_range(-cluster_radius..cluster_radius)));
        }
    }
    unwrap_all(clouds::clustered_cloud(&centers, &picks, &offsets))
}

fn lattice_cloud<const K: usize>(n_per_axis: usize, pitch: f32) -> Vec<[f32; K]> {
    unwrap_all(clouds::lattice_cloud::<F32, K>(n_per_axis, F32(pitch)))
}

fn flatten_axis<const K: usize>(points: Vec<[f32; K]>, axis: usize, value: f32) -> Vec<[f32; K]> {
    unwrap_all(clouds::flatten_axis(wrap_all(&points), axis, F32(value)))
}

fn query_grid<const K: usize>(half_width: f32, resolution: usize) -> Vec<[f32; K]> {
    unwrap_all(clouds::query_grid::<F32, K>(F32(half_width), resolution))
}

fn brute_force_collides<const K: usize>(points: &[[f32; K]], center: &[f32; K], radius: f32) -> bool {
    structure::brute_force_collides(&wrap_all(points), &wrap(*center), F32(radius))
}

fn build_mvt<const K: usize>(points: &[[f32; K]], r_max: f32) -> mvtable::Mvt<K, F32> {
    <mvtable::Mvt<K, F32> as Structure<K, F32>>::build(&wrap_all(points), (F32(0.0), F32(r_max)))
}

fn build_mutable<const K: usize>(points: &[[f32; K]], r_max: f32) -> mvtable::MutableMvt<K, F32> {
    <mvtable::MutableMvt<K, F32> as Structure<K, F32>>::build(
        &wrap_all(points),
        (F32(0.0), F32(r_max)),
    )
}

fn build_kiddo<const K: usize>(points: &[[f32; K]]) -> ImmutableKdTree<f32, K> {
    ImmutableKdTree::new_from_slice(points).expect("bucket size 32 is soft-limited")
}

fn kiddo_collides<const K: usize>(tree: &ImmutableKdTree<f32, K>, center: &[f32; K], radius: f32) -> bool {
    tree.size() != 0
        && !tree
            .query(center)
            .nearest_n::<SquaredEuclidean<f32>>(NonZeroUsize::new(1).unwrap())
            .within(radius * radius)
            .unsorted()
            .execute()
            .is_empty()
}

/// Build every structure over `points`/`r_max`, then check every `(center, radius)` in `queries`
/// against the brute-force oracle, panicking with full context on any disagreement.
fn check_all<const K: usize>(points: &[[f32; K]], r_max: f32, queries: &[([f32; K], f32)]) {
    let mvt = build_mvt(points, r_max);
    let mutable = build_mutable(points, r_max);
    let capt = capt::Capt::<K, f32, u32>::new(points, (0.0, r_max), 1);
    let kdt = build_kiddo(points);

    for &(center, radius) in queries {
        let expected = brute_force_collides(points, &center, radius);
        let at = wrap(center);
        for (name, actual) in [
            (
                <mvtable::Mvt<K, F32> as Structure<K, F32>>::NAME,
                Structure::collides(&mvt, &at, F32(radius)),
            ),
            (
                <mvtable::MutableMvt<K, F32> as Structure<K, F32>>::NAME,
                Structure::collides(&mutable, &at, F32(radius)),
            ),
            ("capt", capt.collides(&center, radius)),
            ("kiddo", kiddo_collides(&kdt, &center, radius)),
        ] {
            assert_eq!(
                actual,
                expected,
                "{name} disagreed with brute force: K={K}, {} points, r_max={r_max}, \
                 center={center:?}, radius={radius}",
                points.len(),
            );
        }
    }
}

/// Combine a dense deterministic grid sweep with exact-on-point queries, covering both
/// systematic coverage of the query space and the boundary cases that land precisely on a
/// point (the sharpest possible test of the "does this point collide with itself" case).
fn sweep_queries<const K: usize>(
    points: &[[f32; K]],
    half_width: f32,
    grid_resolution: usize,
    radii: &[f32],
) -> Vec<([f32; K], f32)> {
    let mut queries = Vec::new();
    for center in query_grid::<K>(half_width, grid_resolution) {
        for &radius in radii {
            queries.push((center, radius));
        }
    }
    for &p in points {
        queries.push((p, 0.0));
        queries.push((p, 1e-4));
    }
    queries
}

#[test]
fn exhaustive_uniform_1d() {
    let mut rng = SmallRng::seed_from_u64(1);
    let points = uniform_cloud::<1>(&mut rng, 100, 5.0);
    let r_max = 0.5;
    let queries = sweep_queries(&points, 6.0, 400, &[0.0, 0.05, 0.2, 0.5]);
    check_all(&points, r_max, &queries);
}

#[test]
fn exhaustive_uniform_2d() {
    let mut rng = SmallRng::seed_from_u64(2);
    let points = uniform_cloud::<2>(&mut rng, 200, 5.0);
    let r_max = 0.5;
    let queries = sweep_queries(&points, 6.0, 40, &[0.0, 0.05, 0.2, 0.5]);
    check_all(&points, r_max, &queries);
}

#[test]
fn exhaustive_uniform_3d() {
    let mut rng = SmallRng::seed_from_u64(3);
    let points = uniform_cloud::<3>(&mut rng, 300, 5.0);
    let r_max = 0.6;
    let queries = sweep_queries(&points, 6.0, 12, &[0.0, 0.1, 0.3, 0.6]);
    check_all(&points, r_max, &queries);
}

#[test]
fn exhaustive_clustered_3d() {
    let mut rng = SmallRng::seed_from_u64(4);
    let points = clustered_cloud::<3>(&mut rng, 400, 6, 5.0, 0.3);
    let r_max = 0.4;
    let queries = sweep_queries(&points, 6.0, 12, &[0.0, 0.05, 0.2, 0.4]);
    check_all(&points, r_max, &queries);
}

#[test]
fn exhaustive_degenerate_axis() {
    // a planar cloud embedded in 3D space: every point shares the same z coordinate, so the
    // grid has zero true extent along that axis.
    let mut rng = SmallRng::seed_from_u64(5);
    let points = flatten_axis(uniform_cloud::<3>(&mut rng, 250, 5.0), 2, 1.25);
    let r_max = 0.5;
    let queries = sweep_queries(&points, 6.0, 12, &[0.0, 0.1, 0.5, 1.0]);
    check_all(&points, r_max, &queries);
}

#[test]
fn exhaustive_non_cubic_workspace() {
    // a long, thin cloud: 100 units wide along x, but only 2 units tall along y, forcing a
    // heavily non-cubic grid.
    let points: Vec<[f32; 2]> = (0..400)
        .map(|i| [i as f32 * 0.25, (i % 5) as f32 * 0.5])
        .collect();
    let r_max = 0.3;
    let queries = sweep_queries(&points, 110.0, 60, &[0.0, 0.05, 0.15, 0.3]);
    check_all(&points, r_max, &queries);
}

#[test]
fn exhaustive_lattice_boundary() {
    // points sitting exactly on a regular lattice, with `r_max` an exact multiple of the
    // lattice pitch: query centers are placed on lattice points, cell midpoints, and cell
    // corners, deliberately targeting the floating-point voxel-boundary edge cases discussed
    // for `Mvt::collides`.
    const PITCH: f32 = 0.25;
    let points = lattice_cloud::<3>(8, PITCH);
    let r_max = PITCH;

    let mut queries = Vec::new();
    for i in 0..9 {
        for j in 0..9 {
            for k in 0..9 {
                let corner = [i as f32 * PITCH, j as f32 * PITCH, k as f32 * PITCH];
                let mid = [
                    corner[0] + PITCH / 2.0,
                    corner[1] + PITCH / 2.0,
                    corner[2] + PITCH / 2.0,
                ];
                for &radius in &[0.0, PITCH / 4.0, PITCH / 2.0, PITCH, PITCH * 1.5] {
                    queries.push((corner, radius));
                    queries.push((mid, radius));
                }
            }
        }
    }
    check_all(&points, r_max, &queries);
}

#[test]
fn exhaustive_4d() {
    let mut rng = SmallRng::seed_from_u64(6);
    let points = uniform_cloud::<4>(&mut rng, 300, 3.0);
    let r_max = 0.5;
    let queries = sweep_queries::<4>(&points, 3.5, 5, &[0.0, 0.1, 0.3, 0.5]);
    check_all(&points, r_max, &queries);
}

#[test]
fn correctness_empty_cloud() {
    let points: Vec<[f32; 3]> = vec![];
    let queries = vec![([0.0, 0.0, 0.0], 0.0), ([1.0, 2.0, 3.0], 100.0)];
    check_all(&points, 1.0, &queries);
}

#[test]
fn correctness_single_point() {
    let points = vec![[1.0, 1.0, 1.0]];
    let queries = sweep_queries(&points, 3.0, 10, &[0.0, 0.01, 0.1, 1.0]);
    check_all(&points, 1.0, &queries);
}

#[test]
fn duplicate_points() {
    let points = vec![[0.0, 0.0]; 50];
    let queries = sweep_queries(&points, 2.0, 20, &[0.0, 0.01, 0.5]);
    check_all(&points, 0.5, &queries);
}

#[test]
fn two_points_far_apart() {
    let points = vec![[-100.0, -100.0], [100.0, 100.0]];
    let queries = sweep_queries(&points, 150.0, 30, &[0.0, 0.5, 5.0]);
    check_all(&points, 5.0, &queries);
}

/// `mvtable`'s search-block computation was shown analytically to stay correct even for query
/// radii larger than the `r_max` used at construction (unlike a fixed-neighbor-block scheme).
/// `capt`'s docs explicitly disclaim correctness outside its constructed radius range, so it is
/// deliberately excluded from this comparison.
#[test]
fn radius_beyond_r_max() {
    let mut rng = SmallRng::seed_from_u64(7);
    let points = uniform_cloud::<3>(&mut rng, 200, 5.0);
    let r_max = 0.1;

    let mvt = build_mvt(&points, r_max);
    let kdt = build_kiddo(&points);

    for center in query_grid::<3>(6.0, 10) {
        for &radius in &[0.5, 1.0, 3.0] {
            let expected = brute_force_collides(&points, &center, radius);
            assert_eq!(
                mvt.collides(&wrap(center), F32(radius)),
                expected,
                "mvtable disagreed with brute force for radius > r_max: center={center:?}, \
                 radius={radius}"
            );
            assert_eq!(
                kiddo_collides(&kdt, &center, radius),
                expected,
                "kiddo disagreed with brute force: center={center:?}, radius={radius}"
            );
        }
    }
}

/// `Mvt::with_point_radius` isn't part of the shared [`Structure`] interface (`capt` is
/// the only other structure that models point radius, and `kiddo` cannot), so it's checked here
/// directly against a brute-force oracle with the point radius folded into the query radius.
#[test]
fn correctness_point_radius() {
    let mut rng = SmallRng::seed_from_u64(8);
    let points = uniform_cloud::<3>(&mut rng, 150, 5.0);
    let r_max = 0.3;
    let r_point = 0.05;

    let mvt = mvtable::Mvt::<3, F32>::with_point_radius(&wrap_all(&points), F32(r_max), F32(r_point));
    let capt = capt::Capt::<3, f32, u32>::with_point_radius(&points, (0.0, r_max), r_point, 1);

    for center in query_grid::<3>(6.0, 10) {
        for &radius in &[0.0, 0.05, 0.15, 0.3] {
            let expected = brute_force_collides(&points, &center, radius + r_point);
            assert_eq!(
                mvt.collides(&wrap(center), F32(radius)),
                expected,
                "mvtable with_point_radius disagreed with brute force: center={center:?}, \
                 radius={radius}"
            );
            assert_eq!(
                capt.collides(&center, radius),
                expected,
                "capt with_point_radius disagreed with brute force: center={center:?}, \
                 radius={radius}"
            );
        }
    }
}

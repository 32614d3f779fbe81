use core::ops::{Add, Div, Mul, Sub};
use mvtable::{filter, Axis};

/// A single-precision coordinate.
#[derive(Clone, Copy, Debug, PartialEq, PartialOrd)]
struct F32(f32);

impl Add for F32 {
    type Output = F32;
    fn add(self, other: F32) -> F32 {
        F32(self.0 + other.0)
    }
}

impl Sub for F32 {
    type Output = F32;
    fn sub(self, other: F32) -> F32 {
        F32(self.0 - other.0)
    }
}

impl Mul for F32 {
    type Output = F32;
    fn mul(self, other: F32) -> F32 {
        F32(self.0 * other.0)
    }
}

impl Div for F32 {
    type Output = F32;
    fn div(self, other: F32) -> F32 {
        F32(self.0 / other.0)
    }
}

impl Axis for F32 {
    const ZERO: F32 = F32(0.0);
    const INFINITY: F32 = F32(f32::INFINITY);
    const NEG_INFINITY: F32 = F32(f32::NEG_INFINITY);

    fn is_finite_spec(self) -> bool {
        self.is_finite()
    }

    fn square_spec(self) -> F32 {
        self.square()
    }

    fn to_index_spec(self) -> usize {
        self.to_index()
    }

    fn from_usize_spec(x: usize) -> F32 {
        F32::from_usize(x)
    }

    fn total_operators() {}

    fn is_finite(self) -> bool {
        self.0.is_finite()
    }

    fn square(self) -> F32 {
        F32(self.0 * self.0)
    }

    fn to_index(self) -> usize {
        self.0 as usize
    }

    fn from_usize(x: usize) -> F32 {
        F32(x as f32)
    }
}

fn wrap<const N: usize>(values: [f32; N]) -> [F32; N] {
    values.map(F32)
}

fn unwrap<const N: usize>(values: [F32; N]) -> [f32; N] {
    values.map(|x| x.0)
}

fn wrap_all<const K: usize>(points: &[[f32; K]]) -> Vec<[F32; K]> {
    points.iter().map(|&p| wrap(p)).collect()
}

fn centervox_filter(points: &[[f32; 3]], voxel_size: f32) -> Vec<[f32; 3]> {
    let kept = filter::centervox_filter(&wrap_all(points), F32(voxel_size));
    kept.into_iter().map(unwrap).collect()
}

fn morton_filter(points: &mut Vec<[f32; 3]>, min_sep: f32) {
    let mut filtered = wrap_all(points);
    filter::morton_filter(&mut filtered, F32(min_sep));
    *points = filtered.into_iter().map(unwrap).collect();
}

#[test]
fn morton_one_point() {
    let mut points = vec![[0.0; 3]];
    morton_filter(&mut points, 0.01);
    assert_eq!(points, vec![[0.0; 3]]);
}

#[test]
fn morton_duplicate() {
    let mut points = vec![[0.0; 3]; 2];
    morton_filter(&mut points, 0.01);
    assert_eq!(points, vec![[0.0; 3]]);
}

#[test]
fn morton_too_close() {
    let mut points = vec![[0.0; 3], [0.001; 3]];
    morton_filter(&mut points, 0.01);
    assert_eq!(points, vec![[0.0; 3]]);
}

#[test]
fn morton_too_far() {
    let mut points = vec![[0.0; 3], [0.01; 3]];
    morton_filter(&mut points, 0.01);
    assert_eq!(points, vec![[0.0; 3], [0.01; 3]]);
}

#[test]
fn morton_never_grows_or_loses_all_points() {
    let mut rng_state = 0x1234_5678_u32;
    let mut next = || {
        rng_state ^= rng_state << 13;
        rng_state ^= rng_state >> 17;
        rng_state ^= rng_state << 5;
        (rng_state as f32 / u32::MAX as f32) * 2.0 - 1.0
    };
    let original: Vec<[f32; 3]> = (0..500).map(|_| [next(), next(), next()]).collect();

    let mut filtered = original.clone();
    morton_filter(&mut filtered, 0.05);

    assert!(!filtered.is_empty());
    assert!(filtered.len() <= original.len());
}

#[test]
fn centervox_empty() {
    assert_eq!(centervox_filter(&[], 0.1), Vec::<[f32; 3]>::new());
}

#[test]
fn centervox_single_voxel_keeps_one_point() {
    let points = [[0.0, 0.0, 0.0], [0.01, 0.0, 0.0], [0.0, 0.01, 0.0]];
    let filtered = centervox_filter(&points, 10.0);
    assert_eq!(filtered.len(), 1);
}

#[test]
fn centervox_keeps_point_closest_to_voxel_center() {
    // A voxel spanning [0, 1) on every axis has its center at (0.5, 0.5, 0.5).
    let points = [[0.5, 0.5, 0.5], [0.01, 0.01, 0.01]];
    let filtered = centervox_filter(&points, 1.0);
    assert_eq!(filtered, vec![[0.5, 0.5, 0.5]]);
}

#[test]
fn centervox_far_apart_points_all_kept() {
    let points = [[0.0, 0.0, 0.0], [10.0, 10.0, 10.0], [-10.0, -10.0, -10.0]];
    let filtered = centervox_filter(&points, 0.1);
    assert_eq!(filtered.len(), points.len());
}

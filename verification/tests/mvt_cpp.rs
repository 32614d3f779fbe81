use mvtable::mvt_cpp::{check_capacity, cubic_workspace, simd_width, Overflow};
use mvtable::Axis;

#[derive(Clone, Copy, Debug, PartialEq, PartialOrd)]
struct F32(f32);

impl core::ops::Add for F32 {
    type Output = F32;
    fn add(self, o: F32) -> F32 {
        F32(self.0 + o.0)
    }
}
impl core::ops::Sub for F32 {
    type Output = F32;
    fn sub(self, o: F32) -> F32 {
        F32(self.0 - o.0)
    }
}
impl core::ops::Mul for F32 {
    type Output = F32;
    fn mul(self, o: F32) -> F32 {
        F32(self.0 * o.0)
    }
}
impl core::ops::Div for F32 {
    type Output = F32;
    fn div(self, o: F32) -> F32 {
        F32(self.0 / o.0)
    }
}
impl Axis for F32 {
    const ZERO: F32 = F32(0.0);
    const INFINITY: F32 = F32(f32::INFINITY);
    const NEG_INFINITY: F32 = F32(f32::NEG_INFINITY);
    fn is_finite_spec(self) -> bool {
        self.is_finite()
    }
    fn square_spec(self) -> F32 {
        self.square()
    }
    fn to_index_spec(self) -> usize {
        self.to_index()
    }
    fn from_usize_spec(x: usize) -> F32 {
        F32::from_usize(x)
    }
    fn total_operators() {}
    fn is_finite(self) -> bool {
        self.0.is_finite()
    }
    fn square(self) -> F32 {
        F32(self.0 * self.0)
    }
    fn to_index(self) -> usize {
        self.0 as usize
    }
    fn from_usize(x: usize) -> F32 {
        F32(x as f32)
    }
}

#[test]
fn simd_width_matches_vendored_backend() {
    // single-precision values in the 256-bit and 128-bit vectors that the C++ table is built with
    assert_eq!(simd_width("x86_64"), Some(256 / 32));
    assert_eq!(simd_width("aarch64"), Some(128 / 32));
    assert_eq!(simd_width("x86"), None);
}

#[test]
fn overflow_message() {
    assert_eq!(
        Overflow.to_string(),
        "point cloud would overflow the vendored MVT's fixed-capacity pools"
    );
}

#[test]
fn cubic_workspace_of_no_points() {
    let (lo, hi) = cubic_workspace(&[], F32(0.1));
    assert_eq!(lo, [F32(-1.0); 3]);
    assert_eq!(hi, [F32(1.0); 3]);
}

#[test]
fn cubic_workspace_of_a_flat_cloud() {
    let points = [[F32(0.0), F32(0.0), F32(5.0)], [F32(4.0), F32(2.0), F32(5.0)]];
    let (lo, hi) = cubic_workspace(&points, F32(0.5));
    assert_eq!(lo, [F32(-0.5), F32(-1.5), F32(2.5)]);
    assert_eq!(hi, [F32(4.5), F32(3.5), F32(7.5)]);
    // a small cloud is padded to four times the radius
    let (lo, hi) = cubic_workspace(&points[..1], F32(0.5));
    assert_eq!(lo, [F32(-1.5), F32(-1.5), F32(3.5)]);
    assert_eq!(hi, [F32(1.5), F32(1.5), F32(6.5)]);
}

#[test]
fn overflowing_clouds_are_refused() {
    assert_eq!(check_capacity(true), Err(Overflow));
    assert_eq!(check_capacity(false), Ok(()));
}

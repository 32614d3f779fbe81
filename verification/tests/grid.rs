use core::ops::{Add, Div, Mul, Sub};
use mvtable::aabb::Aabb;
use mvtable::grid::{
    get_leaf, new_root_table, point_to_grid_coords, reserve_bound, size_grid, TooManyVoxels,
};
use mvtable::{Axis, Index};

/// A single-precision coordinate.
#[derive(Clone, Copy, Debug, PartialEq, PartialOrd)]
struct F32(f32);

impl Add for F32 {
    type Output = F32;
    fn add(self, other: F32) -> F32 {
        F32(self.0 + other.0)
    }
}

impl Sub for F32 {
    type Output = F32;
    fn sub(self, other: F32) -> F32 {
        F32(self.0 - other.0)
    }
}

impl Mul for F32 {
    type Output = F32;
    fn mul(self, other: F32) -> F32 {
        F32(self.0 * other.0)
    }
}

impl Div for F32 {
    type Output = F32;
    fn div(self, other: F32) -> F32 {
        F32(self.0 / other.0)
    }
}

impl Axis for F32 {
    const ZERO: F32 = F32(0.0);
    const INFINITY: F32 = F32(f32::INFINITY);
    const NEG_INFINITY: F32 = F32(f32::NEG_INFINITY);

    fn is_finite_spec(self) -> bool {
        self.is_finite()
    }

    fn square_spec(self) -> F32 {
        self.square()
    }

    fn to_index_spec(self) -> usize {
        self.to_index()
    }

    fn from_usize_spec(x: usize) -> F32 {
        F32::from_usize(x)
    }

    fn total_operators() {}

    fn is_finite(self) -> bool {
        self.0.is_finite()
    }

    fn square(self) -> F32 {
        F32(self.0 * self.0)
    }

    fn to_index(self) -> usize {
        self.0 as usize
    }

    fn from_usize(x: usize) -> F32 {
        F32(x as f32)
    }
}

#[test]
fn index_conversions() {
    assert_eq!(u32::from_usize(5), Some(5));
    assert_eq!(5u32.to_usize(), 5);
    assert_eq!(u8::from_usize(1_000), None);
    assert_eq!(u8::from_usize(254), Some(254));
    assert_eq!(u8::from_usize(255), None);
    assert_eq!(u16::from_usize(65_534), Some(65_534));
    assert_eq!(u16::from_usize(65_535), None);
    assert_eq!(u32::from_usize(u32::MAX as usize), None);
    assert_eq!(u64::from_usize(7), Some(7));
    assert_eq!(usize::from_usize(usize::MAX), None);
    assert_eq!(usize::from_usize(usize::MAX - 1), Some(usize::MAX - 1));
    assert_eq!(u8::SENTINEL, u8::MAX);
    assert_eq!(<u16 as Index>::ZERO, 0);
}

#[test]
fn axis_conversions() {
    assert_eq!(F32::ZERO, F32(0.0));
    assert!(!F32::INFINITY.is_finite());
    assert_eq!(F32(2.0).square(), F32(4.0));
    assert_eq!(F32(3.7).to_index(), 3);
    assert_eq!(F32(-1.0).to_index(), 0);
}

#[test]
fn smaller_and_larger_ignore_nan() {
    let nan = F32(f32::NAN);
    assert_eq!(mvtable::axis::min(F32(1.0), F32(2.0)), F32(1.0));
    assert_eq!(mvtable::axis::min(F32(2.0), F32(1.0)), F32(1.0));
    assert_eq!(mvtable::axis::max(F32(1.0), F32(2.0)), F32(2.0));
    assert_eq!(mvtable::axis::max(F32(2.0), F32(1.0)), F32(2.0));
    assert_eq!(mvtable::axis::min(nan, F32(1.0)), F32(1.0));
    assert_eq!(mvtable::axis::max(F32(1.0), nan), F32(1.0));
}

#[test]
fn root_table_is_empty() {
    let tables: Vec<u16> = new_root_table([3, 7]);
    assert_eq!(tables, vec![u16::MAX; 3]);
}

#[test]
fn leaf_of_one_dimension_is_in_the_root_table() {
    let mut tables: Vec<u32> = new_root_table([5]);
    assert_eq!(get_leaf(&mut tables, [5], [3]), Ok(3));
    assert_eq!(tables.len(), 5);
}

#[test]
fn leaf_allocates_missing_tables() {
    let mut tables: Vec<u32> = new_root_table([2, 3, 4]);
    assert_eq!(get_leaf(&mut tables, [2, 3, 4], [1, 2, 3]), Ok(5 + 3));
    assert_eq!(
        tables,
        vec![u32::MAX, 2, u32::MAX, u32::MAX, 5, u32::MAX, u32::MAX, u32::MAX, u32::MAX]
    );
    // A cell with the same first coordinate shares the table on the second level.
    assert_eq!(get_leaf(&mut tables, [2, 3, 4], [1, 0, 1]), Ok(9 + 1));
    assert_eq!(tables.len(), 13);
}

#[test]
fn present_leaf_needs_nothing() {
    let mut tables: Vec<u32> = new_root_table([2, 3, 4]);
    let first = get_leaf(&mut tables, [2, 3, 4], [1, 2, 3]);
    let before = tables.clone();
    assert_eq!(get_leaf(&mut tables, [2, 3, 4], [1, 2, 3]), first);
    assert_eq!(tables, before);
}

#[test]
fn failed_leaf_leaves_tables_unchanged() {
    // The table on the second level fits below the largest index of a `u8`, and the one on the
    // third level, behind it, does not.
    let mut tables: Vec<u8> = new_root_table([100, 200, 4]);
    let before = tables.clone();
    assert_eq!(
        get_leaf(&mut tables, [100, 200, 4], [1, 2, 3]),
        Err(TooManyVoxels)
    );
    assert_eq!(tables, before);
}

#[test]
fn bound_on_tables() {
    assert_eq!(reserve_bound([10], 1_000), 10);
    // one point: one table on each level
    assert_eq!(reserve_bound([10, 20, 30], 1), 10 + 20 + 30);
    // many points: the dense grid
    assert_eq!(reserve_bound([2, 3, 4], 1_000), 2 + 6 + 24);
    assert_eq!(reserve_bound([10, 20, 30], 15), 10 + 200 + 15 * 30);
    assert_eq!(reserve_bound([usize::MAX, usize::MAX], 2), usize::MAX);
}

#[test]
fn tables_stay_within_the_bound() {
    let widths = [4, 5, 6];
    let mut tables: Vec<u32> = new_root_table(widths);
    for i in 0..40 {
        let cell = [i % 4, (i * 7) % 5, (i * 11) % 6];
        assert!(get_leaf(&mut tables, widths, cell).is_ok());
        assert!(tables.len() <= reserve_bound(widths, i + 1));
    }
}

#[test]
fn coordinates_are_clamped_to_the_grid() {
    let lo = [F32(0.0), F32(-1.0)];
    let scale = [F32(2.0), F32(1.0)];
    let width = [4, 3];
    assert_eq!(point_to_grid_coords(&[F32(0.6), F32(0.5)], lo, scale, width), [1, 1]);
    assert_eq!(point_to_grid_coords(&[F32(-9.0), F32(99.0)], lo, scale, width), [0, 2]);
}

#[test]
fn grid_is_sized_axis_by_axis() {
    let aabb = Aabb {
        lo: [F32(0.0), F32(1.0)],
        hi: [F32(2.0), F32(1.0)],
    };
    let (width, width_i, scale) = size_grid::<F32, u16, 2>(&aabb, F32(0.5)).unwrap();
    assert_eq!(width, [4, 1]);
    assert_eq!(width_i, [4u16, 1]);
    assert_eq!(scale, [F32(2.0), F32(2.0)]);
    assert_eq!(
        size_grid::<F32, u8, 2>(&aabb, F32(0.001)).unwrap_err(),
        TooManyVoxels
    );
}

#[test]
fn bounding_box_contains_its_points() {
    let points = [[F32(1.0), F32(5.0)], [F32(-2.0), F32(7.0)], [F32(0.0), F32(6.0)]];
    let aabb = Aabb::bounding_box(&points).unwrap();
    assert_eq!(aabb.lo, [F32(-2.0), F32(5.0)]);
    assert_eq!(aabb.hi, [F32(1.0), F32(7.0)]);
    assert!(Aabb::<F32, 2>::bounding_box(&[]).is_none());
    assert_eq!(aabb.closest_distsq_to(&[F32(0.0), F32(6.5)]), F32(0.0));
    assert_eq!(aabb.closest_distsq_to(&[F32(4.0), F32(11.0)]), F32(25.0));
}

#[test]
fn empty_box_grows_to_the_point() {
    let mut aabb = Aabb::<F32, 2>::empty();
    aabb.insert(&[F32(3.0), F32(-4.0)]);
    assert_eq!(aabb.lo, [F32(3.0), F32(-4.0)]);
    assert_eq!(aabb.hi, [F32(3.0), F32(-4.0)]);
}

#[test]
fn slots_identify_cells() {
    let widths = [2, 3, 4];
    let mut tables: Vec<u32> = new_root_table(widths);
    let mut slots: Vec<usize> = Vec::new();
    for i in 0..24 {
        let cell = [i % 2, (i / 2) % 3, i / 6];
        let slot = get_leaf(&mut tables, widths, cell).unwrap();
        assert!(!slots.contains(&slot));
        assert_eq!(tables[slot], u32::MAX);
        tables[slot] = 1000 + i as u32;
        slots.push(slot);
    }
    // Every cell has its slot still, and asking for it changes nothing.
    let before = tables.clone();
    for i in 0..24 {
        let cell = [i % 2, (i / 2) % 3, i / 6];
        assert_eq!(get_leaf(&mut tables, widths, cell), Ok(slots[i]));
        assert_eq!(tables[slots[i]], 1000 + i as u32);
    }
    assert_eq!(tables, before);
    assert_eq!(tables.len(), 2 + 6 + 24);
}

#[test]
fn leaf_changes_one_entry_at_most() {
    let widths = [3, 2, 2];
    let mut tables: Vec<u16> = new_root_table(widths);
    for cell in [[0, 0, 0], [2, 1, 1], [0, 1, 0], [0, 0, 1]] {
        let before = tables.clone();
        let slot = get_leaf(&mut tables, widths, cell).unwrap();
        let changed: Vec<usize> = (0..before.len()).filter(|&i| tables[i] != before[i]).collect();
        assert!(changed.len() <= 1);
        for i in changed {
            assert_eq!(before[i], u16::MAX);
            assert_eq!(tables[i] as usize, before.len());
        }
        assert_eq!(tables[slot], u16::MAX);
    }
}

#[test]
fn bound_grows_up_to_the_dense_size() {
    let widths = [4, 5, 6];
    let mut last = 0;
    for n in 0..50 {
        let bound = reserve_bound(widths, n);
        assert!(last <= bound && bound <= 4 + 4 * 5 + 4 * 5 * 6);
        last = bound;
    }
    assert_eq!(last, 4 + 4 * 5 + 4 * 5 * 6);
}

#[test]
fn coordinates_keep_the_order() {
    let lo = [F32(-1.0)];
    let scale = [F32(3.0)];
    let width = [6];
    let mut last = 0;
    for i in -40..40 {
        let x = i as f32 * 0.07;
        let [at] = point_to_grid_coords(&[F32(x)], lo, scale, width);
        assert!(last <= at && at < 6);
        assert!(x > -1.0 || at == 0);
        assert!((x + 1.0) * 3.0 < 5.0 || at == 5);
        last = at;
    }
    assert_eq!(last, 5);
}

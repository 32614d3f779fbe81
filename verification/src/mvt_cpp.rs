//! Inputs and outcomes of the C++ implementation of the multilevel voxel table.
//!
//! That implementation has fixed-capacity pools and a cubic workspace. The call into it belongs to
//! the application; what it is called with, and what its answers mean, is decided here.

use crate::axis::{max, max_spec, min, min_spec, minus, over, plus, times, Axis};
use crate::text::same_text;
use vstd::prelude::*;

verus! {

/// The lane width of a batched query on the processor architecture `arch`: the number of
/// single-precision values in the vectors that the C++ implementation is compiled with. It is not
/// compiled for other architectures than these two.
pub open spec fn simd_width_spec(arch: Seq<char>) -> Option<usize> {
    if arch == "x86_64"@ {
        Some(8)
    } else if arch == "aarch64"@ {
        Some(4)
    } else {
        None
    }
}

/// Look up the lane width of a batched query on the processor architecture `arch`.
#[must_use]
pub fn simd_width(arch: &str) -> (width: Option<usize>)
    ensures
        width == simd_width_spec(arch@),
{
    if same_text(arch, "x86_64") {
        Some(8)
    } else if same_text(arch, "aarch64") {
        Some(4)
    } else {
        None
    }
}

/// Returned when a point cloud would overflow the C++ implementation's hierarchy-table pool for
/// the given maximum radius.
#[derive(Debug, Clone, Copy, PartialEq, Eq, Structural)]
pub struct Overflow;

impl Overflow {
    /// Describe this error.
    pub fn to_string(&self) -> (s: String)
        ensures
            s@ == "point cloud would overflow the vendored MVT's fixed-capacity pools"@,
    {
        "point cloud would overflow the vendored MVT's fixed-capacity pools".to_owned()
    }
}

/// Decide whether a table can be built, given whether its pools would overflow.
pub fn check_capacity(would_overflow: bool) -> (r: Result<(), Overflow>)
    ensures
        r == if would_overflow {
            Err::<(), Overflow>(Overflow)
        } else {
            Ok(())
        },
{
    if would_overflow {
        Err(Overflow)
    } else {
        Ok(())
    }
}

/// The component-wise smallest and largest values over `points`.
pub open spec fn extremes<A: Axis>(points: Seq<[A; 3]>) -> (Seq<A>, Seq<A>)
    decreases points.len(),
{
    if points.len() <= 1 {
        (points[0]@, points[0]@)
    } else {
        let (lo, hi) = extremes(points.drop_last());
        let p = points.last();
        (
            Seq::new(3, |k: int| min_spec(lo[k], p[k])),
            Seq::new(3, |k: int| max_spec(hi[k], p[k])),
        )
    }
}

/// The longest side of the box from `lo` to `hi`, and no less than zero.
pub open spec fn longest<A: Axis>(lo: Seq<A>, hi: Seq<A>, n: nat) -> A
    decreases n,
{
    if n == 0 {
        A::ZERO
    } else {
        max_spec(longest(lo, hi, (n - 1) as nat), minus(hi[n - 1], lo[n - 1]))
    }
}

/// Half of the side of the workspace around a cloud from `lo` to `hi`: half of its longest side,
/// or twice the maximum radius if that is more, padded by the maximum radius.
pub open spec fn half_side<A: Axis>(lo: Seq<A>, hi: Seq<A>, max_radius: A) -> A {
    plus(
        over(
            max_spec(longest(lo, hi, 3), times(A::from_usize_spec(4), max_radius)),
            A::from_usize_spec(2),
        ),
        max_radius,
    )
}

/// The middle between `lo` and `hi`.
pub open spec fn middle<A: Axis>(lo: A, hi: A) -> A {
    over(plus(lo, hi), A::from_usize_spec(2))
}

/// Compute a cubic (equal-extent-on-every-axis) workspace bounding box for `points`, padded by
/// `max_radius`.
pub fn cubic_workspace<A: Axis>(points: &[[A; 3]], max_radius: A) -> (r: ([A; 3], [A; 3]))
    ensures
        points@.len() == 0 ==> {
            let half = max_spec(times(A::from_usize_spec(2), max_radius), A::from_usize_spec(1));
            &&& r.0@ == seq![minus(A::ZERO, half), minus(A::ZERO, half), minus(A::ZERO, half)]
            &&& r.1@ == seq![half, half, half]
        },
        points@.len() > 0 ==> {
            let (lo, hi) = extremes(points@);
            let half = half_side(lo, hi, max_radius);
            &&& r.0@ == Seq::new(3, |k: int| minus(middle(lo[k], hi[k]), half))
            &&& r.1@ == Seq::new(3, |k: int| plus(middle(lo[k], hi[k]), half))
        },
{
    proof {
        A::total_operators();
    }
    if points.len() == 0 {
        let half = max(A::from_usize(2) * max_radius, A::from_usize(1));
        let r = ([A::ZERO - half; 3], [half; 3]);
        assert(r.0@ =~= seq![minus(A::ZERO, half), minus(A::ZERO, half), minus(A::ZERO, half)]);
        assert(r.1@ =~= seq![half, half, half]);
        return r;
    }
    let mut lo = points[0];
    let mut hi = points[0];
    let mut i: usize = 1;
    while i < points.len()
        invariant
            1 <= i <= points.len(),
            (lo@, hi@) == extremes(points@.take(i as int)),
        decreases points.len() - i,
    {
        let ghost before = points@.take(i as int);
        let ghost after = points@.take(i + 1);
        let p = points[i];
        lo = [min(lo[0], p[0]), min(lo[1], p[1]), min(lo[2], p[2])];
        hi = [max(hi[0], p[0]), max(hi[1], p[1]), max(hi[2], p[2])];
        proof {
            assert(after.drop_last() =~= before);
            assert(after.last() == p);
            assert(lo@ =~= extremes(after).0);
            assert(hi@ =~= extremes(after).1);
        }
        i += 1;
    }
    assert(points@.take(i as int) =~= points@);
    proof {
        reveal_with_fuel(longest, 4);
    }
    let two = A::from_usize(2);
    let extent = max(max(max(A::ZERO, hi[0] - lo[0]), hi[1] - lo[1]), hi[2] - lo[2]);
    let half = max(extent, A::from_usize(4) * max_radius) / two + max_radius;
    let center = [(lo[0] + hi[0]) / two, (lo[1] + hi[1]) / two, (lo[2] + hi[2]) / two];
    let r = (
        [center[0] - half, center[1] - half, center[2] - half],
        [center[0] + half, center[1] + half, center[2] + half],
    );
    assert(r.0@ =~= Seq::new(3, |k: int| minus(middle(lo@[k], hi@[k]), half)));
    assert(r.1@ =~= Seq::new(3, |k: int| plus(middle(lo@[k], hi@[k]), half)));
    r
}

} // verus!

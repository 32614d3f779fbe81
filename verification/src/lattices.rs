//! Where generated points and queries lie.

use crate::aabb::Bounds;
use crate::axis::{
    gt, le, lt, max_spec, min_spec, minus, ordered, over, plus, times, Axis,
};
use crate::clouds::{cell_center, digit};
use crate::exact::{
    compares_numbers, exact_count, exact_minus, exact_over, exact_plus, exact_times, truncates,
};
use crate::laws::orders_values;
use crate::pointcloud::rect_samples_spec;
use crate::viz::{longest_side, tenths};
use vstd::arithmetic::power::pow;
use vstd::prelude::*;

verus! {

/// The number that the lowest `k` digits of `idx`, written to base `n`, stand for.
pub open spec fn from_digits(idx: nat, n: nat, k: nat) -> int
    decreases k,
{
    if k == 0 {
        0
    } else {
        let m = (k - 1) as nat;
        from_digits(idx, n, m) + digit(idx, n, m) * pow(n as int, m)
    }
}

/// The digits of a number below `n^k` stand for it, and each is below `n`: so different numbers have
/// different digits, and every sequence of digits is that of some number.
pub proof fn digits_stand_for_the_number(idx: nat, n: nat, k: nat)
    requires
        n > 0,
    ensures
        from_digits(idx, n, k) == idx % pow(n as int, k) as nat,
        idx < pow(n as int, k) ==> from_digits(idx, n, k) == idx,
        digit(idx, n, k) < n,
    decreases k,
{
    vstd::arithmetic::power::lemma_pow_positive(n as int, k);
    vstd::arithmetic::power::lemma_pow0(n as int);
    if k > 0 {
        let m = (k - 1) as nat;
        digits_stand_for_the_number(idx, n, m);
        vstd::arithmetic::power::lemma_pow_positive(n as int, m);
        let p = pow(n as int, m);
        vstd::arithmetic::power::lemma_pow_adds(n as int, m, 1);
        vstd::arithmetic::power::lemma_pow1(n as int);
        assert(pow(n as int, k) == p * n);
        vstd::arithmetic::div_mod::lemma_mod_breakdown(idx as int, p, n as int);
        let d = digit(idx, n, m) as int;
        assert(p * d == d * p) by (nonlinear_arith);
    } else {
        assert(idx % 1 == 0);
    }
    vstd::arithmetic::div_mod::lemma_mod_bound((idx / pow(n as int, k) as nat) as int, n as int);
    if idx < pow(n as int, k) {
        vstd::arithmetic::div_mod::lemma_small_mod(idx, pow(n as int, k) as nat);
    }
}

/// Nothing rounds in computing the center of cell `c` of `[-half_width, half_width]`.
pub open spec fn exact_center<A: Axis>(
    value: spec_fn(A) -> real,
    half_width: A,
    resolution: usize,
    c: usize,
) -> bool {
    let one = A::from_usize_spec(1);
    let two = A::from_usize_spec(2);
    let whole = times(two, half_width);
    let step = over(whole, A::from_usize_spec(resolution));
    let half = over(one, two);
    let at = plus(A::from_usize_spec(c), half);
    &&& exact_count(value, 1)
    &&& exact_count(value, 2)
    &&& exact_count(value, resolution)
    &&& exact_count(value, c)
    &&& exact_times(value, two, half_width)
    &&& exact_over(value, whole, A::from_usize_spec(resolution))
    &&& exact_over(value, one, two)
    &&& exact_plus(value, A::from_usize_spec(c), half)
    &&& exact_times(value, step, at)
    &&& exact_minus(value, A::ZERO, half_width)
    &&& exact_plus(value, minus(A::ZERO, half_width), times(step, at))
}

/// The center of a cell lies as far above the lower end of the range as there are widths of cells in
/// between, and half a width: with `n` cells, cell `c` has its center `(2 c + 1) / (2 n)` of the way.
pub proof fn center_is_halfway_through_its_cell<A: Axis>(
    value: spec_fn(A) -> real,
    half_width: A,
    resolution: usize,
    c: usize,
)
    requires
        compares_numbers(value),
        resolution > 0,
        exact_center(value, half_width, resolution, c),
    ensures
        ({
            let n = resolution as real;
            let w = value(half_width);
            let x = value(cell_center(half_width, resolution, c));
            (x + w) * n * (2 as real) == (2 * c + 1) as real * (w * (2 as real))
        }),
{
    let n = resolution as real;
    let w = value(half_width);
    let whole = times(A::from_usize_spec(2), half_width);
    let step = value(over(whole, A::from_usize_spec(resolution)));
    let half = value(over(A::from_usize_spec(1), A::from_usize_spec(2)));
    let x = value(cell_center(half_width, resolution, c));
    let cr = c as real;
    assert(x == (0 as real - w) + step * (cr + half));
    assert((2 * c + 1) as real == (2 as real) * cr + 1 as real);
    let odd = (2 as real) * cr + 1 as real;
    assert((x + w) * n * (2 as real) == odd * (w * (2 as real))) by (nonlinear_arith)
        requires
            x == (0 as real - w) + step * (cr + half),
            step * n == (2 as real) * w,
            half * (2 as real) == 1 as real,
            odd == (2 as real) * cr + 1 as real,
    ;
}

/// Nothing rounds in computing the number of points to draw on a face.
pub open spec fn exact_samples<A: Axis>(
    value: spec_fn(A) -> real,
    half_widths: [A; 2],
    density: A,
) -> bool {
    let quarter = times(half_widths[0], half_widths[1]);
    let area = times(quarter, A::from_usize_spec(4));
    &&& exact_count(value, 4)
    &&& exact_times(value, half_widths[0], half_widths[1])
    &&& exact_times(value, quarter, A::from_usize_spec(4))
    &&& exact_times(value, area, density)
    &&& 0 as real <= value(times(area, density))
    &&& value(times(area, density)) <= usize::MAX as real
}

/// As many points are drawn on a face as its area times the density gives whole ones.
pub proof fn samples_follow_the_area<A: Axis>(
    value: spec_fn(A) -> real,
    half_widths: [A; 2],
    density: A,
)
    requires
        truncates(value),
        exact_samples(value, half_widths, density),
    ensures
        ({
            let n = rect_samples_spec(half_widths, density);
            let width = (2 as real) * value(half_widths[0]);
            let height = (2 as real) * value(half_widths[1]);
            &&& n as real <= width * height * value(density)
            &&& width * height * value(density) < (n + 1) as real
        }),
{
    let a = value(half_widths[0]);
    let b = value(half_widths[1]);
    let d = value(density);
    assert(a * b * (4 as real) * d == ((2 as real) * a) * ((2 as real) * b) * d)
        by (nonlinear_arith);
}

/// The longest side of a box is the largest of its three sides, or zero if that is larger.
pub proof fn longest_side_is_the_largest<A: Axis>(value: spec_fn(A) -> real, b: Bounds<A>)
    requires
        compares_numbers(value),
        exact_minus(value, b.hi[0], b.lo[0]),
        exact_minus(value, b.hi[1], b.lo[1]),
        exact_minus(value, b.hi[2], b.lo[2]),
    ensures
        ({
            let longest = value(longest_side(b));
            let side = |k: int| value(b.hi[k]) - value(b.lo[k]);
            &&& longest >= 0 as real
            &&& longest >= side(0)
            &&& longest >= side(1)
            &&& longest >= side(2)
            &&& longest == 0 as real || longest == side(0) || longest == side(1) || longest
                == side(2)
        }),
{
    let e0 = minus(b.hi[0], b.lo[0]);
    let e1 = minus(b.hi[1], b.lo[1]);
    let e2 = minus(b.hi[2], b.lo[2]);
    let m = max_spec(A::ZERO, e0);
    assert(le(A::ZERO, A::ZERO));
    assert(gt(e0, A::ZERO) <==> value(e0) > 0 as real);
    assert(m.is_finite_spec());
    assert(le(m, m));
    assert(gt(e1, m) <==> value(e1) > value(m));
    let n = max_spec(m, e1);
    assert(n.is_finite_spec());
    assert(le(n, n));
    assert(gt(e2, n) <==> value(e2) > value(n));
}

/// The value for a number of tenths stands for that many tenths.
pub proof fn tenths_are_tenths<A: Axis>(value: spec_fn(A) -> real, n: usize)
    requires
        exact_count(value, n),
        exact_count(value, 10),
        exact_over(value, A::from_usize_spec(n), A::from_usize_spec(10)),
    ensures
        value(tenths::<A>(n)) * (10 as real) == n as real,
{
}

/// The smaller and the larger of two values leave out one that compares with nothing, and otherwise
/// are one of the two, no larger and no smaller than either.
pub proof fn smaller_and_larger<A: Axis>(a: A, b: A)
    requires
        orders_values::<A>(),
    ensures
        !ordered(a) ==> min_spec(a, b) == b && max_spec(a, b) == b,
        ordered(a) && !ordered(b) ==> min_spec(a, b) == a && max_spec(a, b) == a,
        ordered(a) && ordered(b) ==> {
            &&& min_spec(a, b) == a || min_spec(a, b) == b
            &&& max_spec(a, b) == a || max_spec(a, b) == b
            &&& le(min_spec(a, b), a) && le(min_spec(a, b), b)
            &&& le(a, max_spec(a, b)) && le(b, max_spec(a, b))
        },
{
    if ordered(a) && !ordered(b) {
        assert(!lt(b, a)) by {
            if lt(b, a) {
                assert(le(b, a));
            }
        }
        assert(!gt(b, a)) by {
            if gt(b, a) {
                assert(lt(a, b));
                assert(le(a, b));
            }
        }
    }
    assert(gt(b, a) <==> lt(a, b));
}

} // verus!

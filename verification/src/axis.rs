use core::ops::{Add, Div, Mul, Sub};
use vstd::prelude::*;
use vstd::std_specs::cmp::{PartialOrdIs, PartialOrdSpec};
use vstd::std_specs::ops::{AddSpec, DivSpec, MulSpec, SubSpec};

verus! {

/// A value that may be used as an axis; that is, an element of a vector representing a point.
///
/// An array of `Axis` values is a point that can be stored in an [`Mvt`](crate::Mvt). The trait is
/// meant for floating-point types. Nothing is asked of the arithmetic beyond being total and
/// deterministic: it may round, overflow to infinity and produce values that compare with nothing
/// (which are not told apart from each other).
pub trait Axis:
    Copy
    + PartialOrd
    + Add<Output = Self>
    + Sub<Output = Self>
    + Mul<Output = Self>
    + Div<Output = Self>
{
    /// A zero value.
    const ZERO: Self;

    /// A value that is larger than any finite value.
    const INFINITY: Self;

    /// A value that is smaller than any finite value.
    const NEG_INFINITY: Self;

    /// Whether this value is finite.
    spec fn is_finite_spec(self) -> bool;

    /// The square of this value.
    spec fn square_spec(self) -> Self;

    /// The index that this value truncates to.
    spec fn to_index_spec(self) -> usize;

    /// The value that stands for a grid width.
    spec fn from_usize_spec(x: usize) -> Self;

    /// The operators and comparisons are total functions of their operands.
    proof fn total_operators()
        ensures
            Self::obeys_add_spec(),
            Self::obeys_sub_spec(),
            Self::obeys_mul_spec(),
            Self::obeys_div_spec(),
            Self::obeys_partial_cmp_spec(),
            forall|a: Self, b: Self| #[trigger] a.add_req(b),
            forall|a: Self, b: Self| #[trigger] a.sub_req(b),
            forall|a: Self, b: Self| #[trigger] a.mul_req(b),
            forall|a: Self, b: Self| #[trigger] a.div_req(b),
    ;

    /// Determine whether this value is finite.
    fn is_finite(self) -> (r: bool)
        ensures
            r == self.is_finite_spec(),
    ;

    /// Compute the square of this value.
    fn square(self) -> (r: Self)
        ensures
            r == self.square_spec(),
    ;

    /// Convert a non-negative grid coordinate to an index, truncating any fractional part.
    ///
    /// Values less than zero saturate to `0`, and values that are too large to be represented
    /// saturate to [`usize::MAX`].
    fn to_index(self) -> (r: usize)
        ensures
            r == self.to_index_spec(),
    ;

    /// Convert a grid width into an axis value.
    fn from_usize(x: usize) -> (r: Self)
        ensures
            r == Self::from_usize_spec(x),
    ;
}

/// `a + b`.
pub open spec fn plus<A: Axis>(a: A, b: A) -> A {
    a.add_spec(b)
}

/// `a - b`.
pub open spec fn minus<A: Axis>(a: A, b: A) -> A {
    a.sub_spec(b)
}

/// `a * b`.
pub open spec fn times<A: Axis>(a: A, b: A) -> A {
    a.mul_spec(b)
}

/// `a / b`.
pub open spec fn over<A: Axis>(a: A, b: A) -> A {
    a.div_spec(b)
}

/// `a < b`.
pub open spec fn lt<A: Axis>(a: A, b: A) -> bool {
    a.is_lt(&b)
}

/// `a <= b`.
pub open spec fn le<A: Axis>(a: A, b: A) -> bool {
    a.is_le(&b)
}

/// `a > b`.
pub open spec fn gt<A: Axis>(a: A, b: A) -> bool {
    a.is_gt(&b)
}

/// Whether `a` compares with itself, as every value but those that compare with nothing does.
pub open spec fn ordered<A: Axis>(a: A) -> bool {
    le(a, a)
}

/// The smaller of `a` and `b`, or the one that is ordered if the other is not.
pub open spec fn min_spec<A: Axis>(a: A, b: A) -> A {
    if lt(b, a) || !ordered(a) {
        b
    } else {
        a
    }
}

/// The larger of `a` and `b`, or the one that is ordered if the other is not.
pub open spec fn max_spec<A: Axis>(a: A, b: A) -> A {
    if gt(b, a) || !ordered(a) {
        b
    } else {
        a
    }
}

/// Compute the smaller of `a` and `b`, or the one that is ordered if the other is not.
pub fn min<A: Axis>(a: A, b: A) -> (r: A)
    ensures
        r == min_spec(a, b),
{
    proof {
        A::total_operators();
    }
    if b < a || !(a <= a) {
        b
    } else {
        a
    }
}

/// Compute the larger of `a` and `b`, or the one that is ordered if the other is not.
pub fn max<A: Axis>(a: A, b: A) -> (r: A)
    ensures
        r == max_spec(a, b),
{
    proof {
        A::total_operators();
    }
    if b > a || !(a <= a) {
        b
    } else {
        a
    }
}

} // verus!

//! Counting bytes.

use vstd::layout::size_of;
use vstd::prelude::*;

verus! {

/// `n`, or `usize::MAX` where `n` is larger.
pub open spec fn saturated(n: int) -> int {
    if n <= usize::MAX {
        n
    } else {
        usize::MAX as int
    }
}

/// Compute `a * b`, saturating.
pub(crate) fn product(a: usize, b: usize) -> (r: usize)
    ensures
        r == saturated(a * b),
{
    match a.checked_mul(b) {
        Some(x) => x,
        None => usize::MAX,
    }
}

/// Compute the size of `n` values of type `T`, saturating.
pub(crate) fn bytes_of<T>(n: usize) -> (r: usize)
    ensures
        r == saturated(n * size_of::<T>()),
{
    product(n, core::mem::size_of::<T>())
}

/// The number of elements that `v` has allocated space for, as `Vec::capacity` gives it: at least
/// as many as it holds, and no more than `isize::MAX` bytes of them. Which number in between it is
/// is up to the allocator.
#[verifier::external_body]
pub(crate) fn capacity_of<T>(v: &Vec<T>) -> (n: usize)
    ensures
        v@.len() <= n,
        n * size_of::<T>() <= isize::MAX,
{
    v.capacity()
}

/// The sum of `counts`.
pub open spec fn sum_of(counts: Seq<usize>) -> nat
    decreases counts.len(),
{
    if counts.len() == 0 {
        0
    } else {
        sum_of(counts.drop_last()) + counts.last() as nat
    }
}

/// Compute the size of as many values of type `T` as `counts` add up to, saturating.
pub(crate) fn bytes_of_all<T>(counts: &Vec<usize>) -> (r: usize)
    ensures
        r == saturated((sum_of(counts@) * size_of::<T>()) as int),
{
    let size: usize = core::mem::size_of::<T>();
    let mut total: usize = 0;
    let mut i: usize = 0;
    proof {
        assert(counts@.take(0) =~= Seq::<usize>::empty());
        assert(0 * size_of::<T>() == 0) by (nonlinear_arith);
    }
    while i < counts.len()
        invariant
            i <= counts.len(),
            size == size_of::<T>(),
            total == saturated((sum_of(counts@.take(i as int)) * size_of::<T>()) as int),
        decreases counts.len() - i,
    {
        proof {
            let taken = counts@.take(i + 1);
            assert(taken.drop_last() =~= counts@.take(i as int));
            assert(taken.last() == counts@[i as int]);
            let s = sum_of(counts@.take(i as int));
            let n = counts@[i as int] as nat;
            let u = size_of::<T>();
            assert((s + n) * u == s * u + n * u) by (nonlinear_arith);
            assert(counts@[i as int] * size == n * u);
        }
        total = total.saturating_add(product(counts[i], size));
        i += 1;
    }
    assert(counts@.take(i as int) =~= counts@);
    total
}

/// The numbers in each list.
pub open spec fn lists(counts: Seq<Vec<usize>>) -> Seq<Seq<usize>> {
    Seq::new(counts.len(), |i: int| counts[i]@)
}

/// The sum of all numbers in all lists.
pub open spec fn sum_of_lists(counts: Seq<Seq<usize>>) -> nat
    decreases counts.len(),
{
    if counts.len() == 0 {
        0
    } else {
        sum_of_lists(counts.drop_last()) + sum_of(counts.last())
    }
}

/// Compute the size of as many values of type `T` as all `counts` add up to, saturating.
pub(crate) fn bytes_of_lists<T>(counts: &Vec<Vec<usize>>) -> (r: usize)
    ensures
        r == saturated((sum_of_lists(lists(counts@)) * size_of::<T>()) as int),
{
    let ghost all = lists(counts@);
    let mut total: usize = 0;
    let mut i: usize = 0;
    proof {
        assert(all.take(0) =~= Seq::<Seq<usize>>::empty());
        assert(0 * size_of::<T>() == 0) by (nonlinear_arith);
    }
    while i < counts.len()
        invariant
            i <= counts.len(),
            all == lists(counts@),
            total == saturated((sum_of_lists(all.take(i as int)) * size_of::<T>()) as int),
        decreases counts.len() - i,
    {
        proof {
            let taken = all.take(i + 1);
            assert(taken.drop_last() =~= all.take(i as int));
            assert(taken.last() == counts@[i as int]@);
            let s = sum_of_lists(all.take(i as int));
            let n = sum_of(counts@[i as int]@);
            let u = size_of::<T>();
            assert((s + n) * u == s * u + n * u) by (nonlinear_arith);
        }
        total = total.saturating_add(bytes_of_all::<T>(&counts[i]));
        i += 1;
    }
    assert(all.take(i as int) =~= all);
    total
}

} // verus!

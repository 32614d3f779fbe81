//! Point clouds and query centers for tests and benchmarks.

use crate::axis::{minus, over, plus, times, Axis};
use vstd::arithmetic::power::pow;
use vstd::prelude::*;

verus! {

/// The digit with weight `n^k` of `idx`, written to base `n`.
pub open spec fn digit(idx: nat, n: nat, k: nat) -> nat {
    (idx / pow(n as int, k) as nat) % n
}

/// Compute `n^k`.
fn power(n: usize, k: usize) -> (r: usize)
    requires
        pow(n as int, k as nat) <= usize::MAX,
    ensures
        r == pow(n as int, k as nat),
{
    let mut r: usize = 1;
    let mut i: usize = 0;
    reveal(pow);
    if n == 0 {
        if k == 0 {
            return 1;
        }
        assert(pow(0, k as nat) == 0 * pow(0, (k - 1) as nat));
        return 0;
    }
    while i < k
        invariant
            i <= k,
            n > 0,
            r == pow(n as int, i as nat),
            pow(n as int, k as nat) <= usize::MAX,
        decreases k - i,
    {
        proof {
            vstd::arithmetic::power::lemma_pow_increases(n as nat, (i + 1) as nat, k as nat);
            vstd::arithmetic::power::lemma_pow_adds(n as int, 1, i as nat);
            vstd::arithmetic::power::lemma_pow1(n as int);
            assert(r * n == n * r) by (nonlinear_arith);
        }
        r = r * n;
        i += 1;
    }
    r
}

/// Split `idx` into `K` digits to base `n`, the least significant first.
fn digits<const K: usize>(idx: usize, n: usize) -> (r: [usize; K])
    requires
        n > 0,
    ensures
        forall|k: int|
            0 <= k < K ==> #[trigger] r@[k] == digit(idx as nat, n as nat, k as nat),
{
    let mut r = [0usize; K];
    let mut rest: usize = idx;
    let mut k: usize = 0;
    proof {
        vstd::arithmetic::power::lemma_pow0(n as int);
    }
    while k < K
        invariant
            k <= K,
            n > 0,
            rest == idx as nat / pow(n as int, k as nat) as nat,
            forall|i: int|
                0 <= i < k ==> #[trigger] r@[i] == digit(idx as nat, n as nat, i as nat),
        decreases K - k,
    {
        r[k] = rest % n;
        rest = rest / n;
        proof {
            vstd::arithmetic::power::lemma_pow_positive(n as int, k as nat);
            vstd::arithmetic::power::lemma_pow_adds(n as int, k as nat, 1);
            vstd::arithmetic::power::lemma_pow1(n as int);
            vstd::arithmetic::div_mod::lemma_div_denominator(
                idx as int,
                pow(n as int, k as nat),
                n as int,
            );
        }
        k += 1;
    }
    r
}

/// Generate points on a regular lattice with spacing `pitch`, `n_per_axis` points along each
/// axis (`n_per_axis.pow(K)` points in total), anchored at the origin.
///
/// Useful for stressing floating-point voxel-boundary edge cases: every point (and many query
/// centers, if generated at multiples or half-multiples of `pitch`) lands exactly on a cell
/// boundary of a grid sized with a matching `voxel_width`.
#[must_use]
pub fn lattice_cloud<A: Axis, const K: usize>(n_per_axis: usize, pitch: A) -> (r: Vec<[A; K]>)
    requires
        pow(n_per_axis as int, K as nat) <= usize::MAX,
    ensures
        r@.len() == pow(n_per_axis as int, K as nat),
        forall|i: int, k: int|
            #![trigger r@[i]@[k]]
            0 <= i < r@.len() && 0 <= k < K ==> r@[i]@[k] == times(
                A::from_usize_spec(digit(i as nat, n_per_axis as nat, k as nat) as usize),
                pitch,
            ),
{
    let total: usize = power(n_per_axis, K);
    let mut points: Vec<[A; K]> = Vec::with_capacity(total);
    let mut i: usize = 0;
    while i < total
        invariant
            i <= total,
            total == pow(n_per_axis as int, K as nat),
            points@.len() == i,
            forall|j: int, k: int|
                #![trigger points@[j]@[k]]
                0 <= j < i && 0 <= k < K ==> points@[j]@[k] == times(
                    A::from_usize_spec(digit(j as nat, n_per_axis as nat, k as nat) as usize),
                    pitch,
                ),
        decreases total - i,
    {
        let mut p = [A::ZERO; K];
        if K > 0 {
            proof {
                if n_per_axis == 0 {
                    reveal(pow);
                    assert(pow(0, K as nat) == 0 * pow(0, (K - 1) as nat));
                }
            }
            let at: [usize; K] = digits::<K>(i, n_per_axis);
            let mut k: usize = 0;
            while k < K
                invariant
                    k <= K,
                    forall|d: int|
                        0 <= d < K ==> #[trigger] at@[d] == digit(
                            i as nat,
                            n_per_axis as nat,
                            d as nat,
                        ),
                    forall|d: int|
                        0 <= d < k ==> #[trigger] p@[d] == times(
                            A::from_usize_spec(
                                digit(i as nat, n_per_axis as nat, d as nat) as usize,
                            ),
                            pitch,
                        ),
                decreases K - k,
            {
                proof {
                    A::total_operators();
                }
                p[k] = A::from_usize(at[k]) * pitch;
                k += 1;
            }
        }
        points.push(p);
        i += 1;
    }
    points
}

/// Overwrite axis `flat_axis` of every point in `points` with `value`, producing a degenerate
/// (lower-dimensional) cloud for testing how axes with zero extent are handled.
#[must_use]
pub fn flatten_axis<A: Axis, const K: usize>(
    points: Vec<[A; K]>,
    flat_axis: usize,
    value: A,
) -> (r: Vec<[A; K]>)
    requires
        points@.len() > 0 ==> flat_axis < K,
    ensures
        r@.len() == points@.len(),
        forall|i: int|
            #![trigger r@[i]]
            0 <= i < r@.len() ==> r@[i]@ == points@[i]@.update(flat_axis as int, value),
{
    let mut r: Vec<[A; K]> = Vec::with_capacity(points.len());
    let mut i: usize = 0;
    while i < points.len()
        invariant
            i <= points.len(),
            points@.len() > 0 ==> flat_axis < K,
            r@.len() == i,
            forall|j: int|
                #![trigger r@[j]]
                0 <= j < i ==> r@[j]@ == points@[j]@.update(flat_axis as int, value),
        decreases points.len() - i,
    {
        let mut p: [A; K] = points[i];
        p[flat_axis] = value;
        r.push(p);
        i += 1;
    }
    r
}

/// The coordinate of the center of cell `cell` of `[-half_width, half_width]`, split into
/// `resolution` cells.
pub open spec fn cell_center<A: Axis>(half_width: A, resolution: usize, cell: usize) -> A {
    let step = over(times(A::from_usize_spec(2), half_width), A::from_usize_spec(resolution));
    let half = over(A::from_usize_spec(1), A::from_usize_spec(2));
    plus(minus(A::ZERO, half_width), times(step, plus(A::from_usize_spec(cell), half)))
}

/// Generate a dense, deterministic grid of `resolution.pow(K)` query centers covering
/// `[-half_width, half_width]^K`, for exhaustive-style coverage of a continuous query space that
/// random sampling alone might miss.
#[must_use]
pub fn query_grid<A: Axis, const K: usize>(half_width: A, resolution: usize) -> (r: Vec<[A; K]>)
    requires
        pow(resolution as int, K as nat) <= usize::MAX,
    ensures
        r@.len() == pow(resolution as int, K as nat),
        forall|i: int, k: int|
            #![trigger r@[i]@[k]]
            0 <= i < r@.len() && 0 <= k < K ==> r@[i]@[k] == cell_center(
                half_width,
                resolution,
                digit(i as nat, resolution as nat, k as nat) as usize,
            ),
{
    proof {
        A::total_operators();
    }
    let total: usize = power(resolution, K);
    let step = A::from_usize(2) * half_width / A::from_usize(resolution);
    let half = A::from_usize(1) / A::from_usize(2);
    let start = A::ZERO - half_width;
    let mut centers: Vec<[A; K]> = Vec::with_capacity(total);
    let mut i: usize = 0;
    while i < total
        invariant
            i <= total,
            total == pow(resolution as int, K as nat),
            step == over(
                times(A::from_usize_spec(2), half_width),
                A::from_usize_spec(resolution),
            ),
            half == over(A::from_usize_spec(1), A::from_usize_spec(2)),
            start == minus(A::ZERO, half_width),
            centers@.len() == i,
            forall|j: int, k: int|
                #![trigger centers@[j]@[k]]
                0 <= j < i && 0 <= k < K ==> centers@[j]@[k] == cell_center(
                    half_width,
                    resolution,
                    digit(j as nat, resolution as nat, k as nat) as usize,
                ),
        decreases total - i,
    {
        let mut c = [A::ZERO; K];
        if K > 0 {
            proof {
                if resolution == 0 {
                    reveal(pow);
                    assert(pow(0, K as nat) == 0 * pow(0, (K - 1) as nat));
                }
            }
            let at: [usize; K] = digits::<K>(i, resolution);
            let mut k: usize = 0;
            while k < K
                invariant
                    k <= K,
                    step == over(
                        times(A::from_usize_spec(2), half_width),
                        A::from_usize_spec(resolution),
                    ),
                    half == over(A::from_usize_spec(1), A::from_usize_spec(2)),
                    start == minus(A::ZERO, half_width),
                    forall|d: int|
                        0 <= d < K ==> #[trigger] at@[d] == digit(
                            i as nat,
                            resolution as nat,
                            d as nat,
                        ),
                    forall|d: int|
                        0 <= d < k ==> #[trigger] c@[d] == cell_center(
                            half_width,
                            resolution,
                            digit(i as nat, resolution as nat, d as nat) as usize,
                        ),
                decreases K - k,
            {
                proof {
                    A::total_operators();
                }
                c[k] = start + step * (A::from_usize(at[k]) + half);
                k += 1;
            }
        }
        centers.push(c);
        i += 1;
    }
    centers
}

/// Group independently drawn coordinates into points, in order.
pub fn uniform_cloud<A: Axis, const K: usize>(n: usize, draws: &[A]) -> (r: Vec<[A; K]>)
    requires
        draws@.len() == n * K,
    ensures
        r@.len() == n,
        forall|i: int, k: int|
            #![trigger r@[i]@[k]]
            0 <= i < n && 0 <= k < K ==> r@[i]@[k] == draws@[i * K + k],
{
    let mut points: Vec<[A; K]> = Vec::with_capacity(n);
    let mut i: usize = 0;
    let mut at: usize = 0;
    while i < n
        invariant
            i <= n,
            draws@.len() == n * K,
            at == i * K,
            points@.len() == i,
            forall|j: int, k: int|
                #![trigger points@[j]@[k]]
                0 <= j < i && 0 <= k < K ==> points@[j]@[k] == draws@[j * K + k],
        decreases n - i,
    {
        proof {
            assert((i + 1) * K <= n * K) by (nonlinear_arith)
                requires
                    i + 1 <= n,
            ;
            assert((i + 1) * K == i * K + K) by (nonlinear_arith);
            assert(draws@.len() == draws.len());
        }
        let mut p = [A::ZERO; K];
        let mut k: usize = 0;
        while k < K
            invariant
                k <= K,
                at + K <= draws@.len(),
                draws@.len() <= usize::MAX,
                forall|d: int| 0 <= d < k ==> #[trigger] p@[d] == draws@[at + d],
            decreases K - k,
        {
            p[k] = draws[at + k];
            k += 1;
        }
        points.push(p);
        at = at + K;
        i += 1;
    }
    points
}

/// Compute the number of cluster centers to draw where `n_clusters` are asked for: at least one, so
/// that there is a center to place points around.
#[must_use]
pub fn cluster_count(n_clusters: usize) -> (n: usize)
    ensures
        n == if n_clusters == 0 {
            1
        } else {
            n_clusters
        },
{
    if n_clusters == 0 {
        1
    } else {
        n_clusters
    }
}

/// Place points around cluster centers: point `i` is the center that `picks[i]` chooses, moved by
/// the next `K` of `offsets`. This models non-uniform, structured point clouds (e.g. clumps of
/// obstacle points rather than a uniform gas).
pub fn clustered_cloud<A: Axis, const K: usize>(
    centers: &[[A; K]],
    picks: &[usize],
    offsets: &[A],
) -> (r: Vec<[A; K]>)
    requires
        forall|i: int| 0 <= i < picks@.len() ==> #[trigger] picks@[i] < centers@.len(),
        offsets@.len() == picks@.len() * K,
    ensures
        r@.len() == picks@.len(),
        forall|i: int, k: int|
            #![trigger r@[i]@[k]]
            0 <= i < r@.len() && 0 <= k < K ==> r@[i]@[k] == plus(
                centers@[picks@[i] as int]@[k],
                offsets@[i * K + k],
            ),
{
    let moves: Vec<[A; K]> = uniform_cloud(picks.len(), offsets);
    let mut points: Vec<[A; K]> = Vec::with_capacity(picks.len());
    let mut i: usize = 0;
    while i < picks.len()
        invariant
            i <= picks.len(),
            moves@.len() == picks@.len(),
            forall|i: int| 0 <= i < picks@.len() ==> #[trigger] picks@[i] < centers@.len(),
            forall|j: int, k: int|
                #![trigger moves@[j]@[k]]
                0 <= j < picks@.len() && 0 <= k < K ==> moves@[j]@[k] == offsets@[j * K + k],
            points@.len() == i,
            forall|j: int, k: int|
                #![trigger points@[j]@[k]]
                0 <= j < i && 0 <= k < K ==> points@[j]@[k] == plus(
                    centers@[picks@[j] as int]@[k],
                    offsets@[j * K + k],
                ),
        decreases picks.len() - i,
    {
        let center: [A; K] = centers[picks[i]];
        let step: [A; K] = moves[i];
        let p: [A; K] = crate::simd::lanes_plus(&center, &step);
        proof {
            assert forall|k: int| 0 <= k < K implies #[trigger] p@[k] == plus(
                centers@[picks@[i as int] as int]@[k],
                offsets@[i * K + k],
            ) by {
                assert(moves@[i as int]@[k] == offsets@[i * K + k]);
            }
        }
        points.push(p);
        i += 1;
    }
    points
}

} // verus!

//! What the counts of bytes include.

use crate::axis::Axis;
use crate::grid::{dense_from, dense_len};
use crate::index::Index;
use crate::memory::{sum_of, sum_of_lists};
use crate::mutable::{footprint, has_capacities, has_space, holds, MutableMvt, MutableVoxel};
use crate::occupancy::table_len;
use crate::structure::{doubled_to, kd_tree_bytes, leaf_count};
use crate::voxel_grid::VoxelGrid;
use vstd::arithmetic::power2::{lemma_pow2_unfold, pow2};
use vstd::layout::size_of;
use vstd::prelude::*;

verus! {

// ---------------------------------------------------------------------------------------------
// Sums
// ---------------------------------------------------------------------------------------------

/// The sum of counts splits wherever the counts are split, and that of a single one is itself.
pub proof fn sums_split(a: Seq<usize>, b: Seq<usize>, n: usize)
    ensures
        sum_of(a + b) == sum_of(a) + sum_of(b),
        sum_of(seq![n]) == n,
        sum_of(Seq::empty()) == 0,
    decreases b.len(),
{
    assert(seq![n].drop_last() =~= Seq::<usize>::empty());
    assert(sum_of(seq![n].drop_last()) == 0);
    if b.len() == 0 {
        assert(a + b =~= a);
    } else {
        sums_split(a, b.drop_last(), n);
        assert((a + b).drop_last() =~= a + b.drop_last());
    }
}

proof fn lemma_sum_at_least(counts: Seq<usize>, m: nat)
    requires
        forall|i: int| 0 <= i < counts.len() ==> #[trigger] counts[i] >= m,
    ensures
        sum_of(counts) >= counts.len() * m,
    decreases counts.len(),
{
    if counts.len() > 0 {
        let fewer = counts.drop_last();
        lemma_sum_at_least(fewer, m);
        assert(counts[counts.len() - 1] >= m);
        let n = fewer.len();
        assert((n + 1) * m == n * m + m) by (nonlinear_arith);
    } else {
        assert(0 * m == 0) by (nonlinear_arith);
    }
}

proof fn lemma_lists_at_least<A>(
    coordinates: Seq<Seq<usize>>,
    voxels: Seq<Seq<Seq<A>>>,
    k: nat,
)
    requires
        coordinates.len() == voxels.len(),
        forall|v: int|
            0 <= v < voxels.len() ==> has_space::<A>(
                #[trigger] coordinates[v],
                k,
                voxels[v].len(),
            ),
    ensures
        sum_of_lists(coordinates) >= voxels.flatten().len() * k,
    decreases voxels.len(),
{
    voxels.lemma_flatten_and_flatten_alt_are_equivalent();
    if voxels.len() > 0 {
        let last = voxels.len() - 1;
        let fewer = voxels.drop_last();
        fewer.lemma_flatten_and_flatten_alt_are_equivalent();
        lemma_lists_at_least(coordinates.drop_last(), fewer, k);
        let n = voxels[last].len();
        assert(has_space::<A>(coordinates[last], k, n));
        assert forall|j: int| 0 <= j < coordinates[last].len() implies #[trigger]
            coordinates[last][j] >= n by {
            assert(holds::<A>(coordinates[last][j], n));
        }
        lemma_sum_at_least(coordinates[last], n);
        let m = fewer.flatten().len();
        assert(voxels.flatten() =~= fewer.flatten() + voxels[last]);
        assert((m + n) * k == m * k + k * n) by (nonlinear_arith);
    } else {
        assert(0 * k == 0) by (nonlinear_arith);
    }
}

/// The bytes that a table takes include the table itself, every entry of its hierarchy, every voxel
/// with its axes, and every coordinate of every point.
pub proof fn footprint_includes_what_is_stored<const K: usize, A: Axis, I: Index>(
    grid: VoxelGrid<A>,
    tables: usize,
    voxels: usize,
    axes: Seq<usize>,
    coordinates: Seq<Seq<usize>>,
)
    requires
        has_capacities::<K, A, I>(grid, tables, voxels, axes, coordinates),
    ensures
        footprint::<K, A, I>(
            tables as nat,
            voxels as nat,
            sum_of(axes),
            sum_of_lists(coordinates),
        ) >= size_of::<MutableMvt<K, A, I>>() + table_len(grid.widths, grid.cells()) * size_of::<
            I,
        >() + grid.voxels.len() * size_of::<MutableVoxel<A, K>>() + grid.voxels.len() * K
            * size_of::<Vec<A>>() + grid.points().len() * K * size_of::<A>(),
{
    let n = grid.voxels.len();
    assert forall|v: int| 0 <= v < axes.len() implies #[trigger] axes[v] >= K by {
        assert(holds::<Vec<A>>(axes[v], K as nat));
    }
    lemma_sum_at_least(axes, K as nat);
    lemma_lists_at_least(coordinates, grid.voxels, K as nat);
    let t = table_len(grid.widths, grid.cells());
    let si = size_of::<I>();
    let sv = size_of::<MutableVoxel<A, K>>();
    let sx = size_of::<Vec<A>>();
    let sa = size_of::<A>();
    let a = sum_of(axes);
    let c = sum_of_lists(coordinates);
    let nk = n * K;
    let pk = grid.points().len() * K;
    assert(tables * si >= t * si) by (nonlinear_arith)
        requires
            tables >= t,
    ;
    assert(voxels * sv >= n * sv) by (nonlinear_arith)
        requires
            voxels >= n,
    ;
    assert(a * sx >= nk * sx) by (nonlinear_arith)
        requires
            a >= nk,
    ;
    assert(c * sa >= pk * sa) by (nonlinear_arith)
        requires
            c >= pk,
    ;
}

// ---------------------------------------------------------------------------------------------
// Bounds
// ---------------------------------------------------------------------------------------------

/// The widths from `level` on, added up.
pub open spec fn widths_from(widths: Seq<usize>, level: int) -> nat
    decreases widths.len() - level,
{
    if level >= widths.len() {
        0
    } else {
        widths[level] as nat + widths_from(widths, level + 1)
    }
}

proof fn lemma_dense_is_sparse(widths: Seq<usize>, n: nat, level: int, slots: nat)
    requires
        0 <= level,
    ensures
        dense_from(widths, n, level, slots) <= n * widths_from(widths, level),
    decreases widths.len() - level,
{
    if level < widths.len() {
        let tables = if slots <= n {
            slots
        } else {
            n
        };
        let w = widths[level] as nat;
        let rest = widths_from(widths, level + 1);
        lemma_dense_is_sparse(widths, n, level + 1, tables * w);
        assert(tables * w + n * rest <= n * (w + rest)) by (nonlinear_arith)
            requires
                tables <= n,
        ;
    } else {
        assert(n * 0 == 0) by (nonlinear_arith);
    }
}

/// The bound on the table entries stays small for few points: beside the root table, each point
/// counts for at most one table on each further level.
pub proof fn few_points_need_few_tables(widths: Seq<usize>, n: nat)
    requires
        widths.len() > 0,
    ensures
        dense_len(widths, n) <= widths[0] + n * widths_from(widths, 1),
        dense_len(widths, 0) == widths[0],
{
    lemma_dense_is_sparse(widths, n, 1, widths[0] as nat);
    lemma_dense_is_sparse(widths, 0, 1, widths[0] as nat);
    let rest = widths_from(widths, 1);
    assert(0 * rest == 0) by (nonlinear_arith);
}

/// An index type stands for every number below its largest value, which marks an empty entry, and
/// for no other.
pub proof fn index_types_count_to_their_largest_value(x: usize)
    ensures
        <u8 as Index>::from_usize_spec(x) is Some <==> x < u8::MAX,
        <u16 as Index>::from_usize_spec(x) is Some <==> x < u16::MAX,
        <u32 as Index>::from_usize_spec(x) is Some <==> x < u32::MAX,
        <u64 as Index>::from_usize_spec(x) is Some <==> x < u64::MAX,
        <usize as Index>::from_usize_spec(x) is Some <==> x < usize::MAX,
        <u8 as Index>::from_usize_spec(x) matches Some(i) ==> i == x && i.to_usize_spec() == x,
        <u16 as Index>::from_usize_spec(x) matches Some(i) ==> i == x && i.to_usize_spec() == x,
        <u32 as Index>::from_usize_spec(x) matches Some(i) ==> i == x && i.to_usize_spec() == x,
        <u64 as Index>::from_usize_spec(x) matches Some(i) ==> i == x && i.to_usize_spec() == x,
        <usize as Index>::from_usize_spec(x) matches Some(i) ==> i == x && i.to_usize_spec() == x,
{
}

// ---------------------------------------------------------------------------------------------
// Leaves
// ---------------------------------------------------------------------------------------------

proof fn lemma_doubled(j: nat, n: nat) -> (m: nat)
    ensures
        m >= j,
        doubled_to(pow2(j), n) == pow2(m),
        pow2(m) >= n,
        m > j ==> pow2((m - 1) as nat) < n,
    decreases
            (if pow2(j) < n {
                n - pow2(j)
            } else {
                0
            }),
{
    vstd::arithmetic::power2::lemma_pow2_pos(j);
    if pow2(j) >= n {
        j
    } else {
        lemma_pow2_unfold(j + 1);
        assert(pow2(j + 1) == 2 * pow2(j));
        lemma_doubled(j + 1, n)
    }
}

/// A tree has the smallest power of two of leaves of 32 items each that hold all of its items.
pub proof fn leaves_are_a_power_of_two(items: nat) -> (m: nat)
    ensures
        leaf_count(items) == pow2(m),
        32 * leaf_count(items) >= items,
        m > 0 ==> 32 * pow2((m - 1) as nat) < items,
{
    vstd::arithmetic::power2::lemma2_to64();
    let m = lemma_doubled(0, (items + 31) / 32);
    m
}

/// Each item of a tree takes four bytes for each coordinate and four for its number; each leaf takes
/// sixteen for its extents, and fifteen for the stem that leads to it where there is more than one.
/// Two of the smallest trees take a few bytes more.
pub proof fn tree_bytes_add_up(items: nat, more: nat, k: nat, tree_bytes: nat)
    ensures
        leaf_count(items + more) == leaf_count(items) ==> kd_tree_bytes(items + more, k, tree_bytes)
            == kd_tree_bytes(items, k, tree_bytes) + more * (4 * k + 4),
        leaf_count(items) > 2 ==> kd_tree_bytes(items, k, tree_bytes) == tree_bytes + items * (4 * k
            + 4) + leaf_count(items) * 31,
        leaf_count(items) == 2 ==> kd_tree_bytes(items, k, tree_bytes) == tree_bytes + items * (4
            * k + 4) + 2 * 31 + 16,
        leaf_count(items) == 1 ==> kd_tree_bytes(items, k, tree_bytes) == tree_bytes + items * (4
            * k + 4) + 16 + 7,
{
    let u = k * 4 + 4;
    assert((items + more) * u == items * u + more * u) by (nonlinear_arith);
    assert(u == 4 * k + 4);
}

} // verus!

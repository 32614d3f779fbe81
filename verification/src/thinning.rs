//! What the Morton-order filter keeps.
//!
//! The filter of [`filter`](crate::filter) drops a point only for being near one that it keeps.

use crate::axis::{gt, times, Axis};
use crate::exact::{
    compares_numbers, exact_distance, exact_times, lemma_true_distsq, true_distsq,
};
use crate::filter::{
    bit, codes, deposited, deposited_bits, filtered, filtered_is_a_part, highest, in_morton_order,
    lowest, morton_code, morton_filtered, ones_below, quantized, thinned, CODE_MASK,
};
use crate::scan::distsq_upto;
use crate::sorting::{
    stable_order, stable_order_is_ascending, stable_order_is_stable, stable_order_keeps_items,
};
use vstd::prelude::*;

verus! {

// ---------------------------------------------------------------------------------------------
// One pass
// ---------------------------------------------------------------------------------------------

/// Whether the squared distance from `p` to `q` is above `rsq`.
pub open spec fn is_far<A: Axis>(p: [A; 3], q: [A; 3], rsq: A) -> bool {
    gt(distsq_upto(p@, q@, 3), rsq)
}

/// Where nothing rounds, points are far exactly if their distance is above `min_sep`.
pub proof fn far_points_are_farther_than_the_separation<A: Axis>(
    value: spec_fn(A) -> real,
    p: [A; 3],
    q: [A; 3],
    min_sep: A,
)
    requires
        compares_numbers(value),
        exact_distance(value, p@, q@),
        exact_times(value, min_sep, min_sep),
    ensures
        is_far(p, q, times(min_sep, min_sep)) <==> ({
            let x = value(p[0]) - value(q[0]);
            let y = value(p[1]) - value(q[1]);
            let z = value(p[2]) - value(q[2]);
            x * x + y * y + z * z > value(min_sep) * value(min_sep)
        }),
{
    lemma_true_distsq(value, p@, q@, 3);
    reveal_with_fuel(true_distsq, 4);
}

/// Where the run of points ends that begins with the point at `sel[j]`.
pub open spec fn run_end(sel: Seq<int>, j: int, len: nat) -> int {
    if j + 1 < sel.len() {
        sel[j + 1]
    } else {
        len as int
    }
}

/// Whether position `i` follows `sel[j]` in the run that begins there.
pub open spec fn in_run(sel: Seq<int>, j: int, i: int, len: nat) -> bool {
    sel[j] < i < run_end(sel, j, len)
}

/// Whether `sel` are the positions, in order, at which a greedy pass over `points` keeps a point:
/// the first, and then each time the next one that is far from the last one kept.
pub open spec fn selects<A: Axis>(points: Seq<[A; 3]>, rsq: A, sel: Seq<int>) -> bool {
    &&& sel.len() > 0
    &&& sel[0] == 0
    &&& forall|j: int| 0 <= j < sel.len() ==> 0 <= #[trigger] sel[j] < points.len()
    &&& forall|i: int, j: int| 0 <= i < j < sel.len() ==> #[trigger] sel[i] < #[trigger] sel[j]
    &&& forall|i: int, j: int|
        #![trigger sel[i], sel[j]]
        0 <= i < sel.len() && j == i + 1 && j < sel.len() ==> is_far(
            points[sel[i]],
            points[sel[j]],
            rsq,
        )
    &&& forall|i: int, j: int|
        0 <= j < sel.len() && #[trigger] in_run(sel, j, i, points.len()) ==> !is_far(
            points[sel[j]],
            points[i],
            rsq,
        )
}

/// Thinning keeps the first point, and then each time the next one that is far from the last one
/// kept.
pub proof fn thinned_is_greedy<A: Axis>(points: Seq<[A; 3]>, rsq: A) -> (sel: Seq<int>)
    requires
        points.len() > 0,
    ensures
        selects(points, rsq, sel),
        thinned(points, rsq) == sel.map_values(|i: int| points[i]),
    decreases points.len(),
{
    if points.len() == 1 {
        let sel = seq![0int];
        assert(thinned(points, rsq) =~= sel.map_values(|i: int| points[i]));
        sel
    } else {
        let fewer = points.drop_last();
        let last = points.len() - 1;
        let before = thinned_is_greedy(fewer, rsq);
        let kept = thinned(fewer, rsq);
        assert(kept =~= before.map_values(|i: int| points[i]));
        assert(kept.last() == points[before.last()]);
        if is_far(points[before.last()], points[last], rsq) {
            let sel = before.push(last);
            assert(thinned(points, rsq) =~= sel.map_values(|i: int| points[i]));
            assert forall|i: int, j: int|
                #![trigger sel[i], sel[j]]
                0 <= i < sel.len() && j == i + 1 && j < sel.len() implies is_far(
                points[sel[i]],
                points[sel[j]],
                rsq,
            ) by {
                assert(sel[i] == before[i]);
                if j < before.len() {
                    assert(sel[j] == before[j]);
                    assert(is_far(fewer[before[i]], fewer[before[j]], rsq));
                }
            }
            assert forall|i: int, j: int|
                0 <= j < sel.len() && #[trigger] in_run(sel, j, i, points.len()) implies !is_far(
                points[sel[j]],
                points[i],
                rsq,
            ) by {
                if j < before.len() {
                    assert(sel[j] == before[j]);
                    if j + 1 < before.len() {
                        assert(sel[j + 1] == before[j + 1]);
                    }
                    assert(in_run(before, j, i, fewer.len()));
                    assert(fewer[i] == points[i] && fewer[before[j]] == points[before[j]]);
                }
            }
            assert(selects(points, rsq, sel));
            sel
        } else {
            assert(thinned(points, rsq) =~= before.map_values(|i: int| points[i]));
            assert forall|i: int, j: int|
                #![trigger before[i], before[j]]
                0 <= i < before.len() && j == i + 1 && j < before.len() implies is_far(
                points[before[i]],
                points[before[j]],
                rsq,
            ) by {
                assert(is_far(fewer[before[i]], fewer[before[j]], rsq));
            }
            assert forall|i: int, j: int|
                0 <= j < before.len() && #[trigger] in_run(
                    before,
                    j,
                    i,
                    points.len(),
                ) implies !is_far(points[before[j]], points[i], rsq) by {
                if i < last {
                    assert(in_run(before, j, i, fewer.len()));
                    assert(fewer[i] == points[i] && fewer[before[j]] == points[before[j]]);
                } else {
                    assert(j == before.len() - 1);
                }
            }
            assert(selects(points, rsq, before));
            before
        }
    }
}

/// The position in `sel` of the run that holds position `i`.
proof fn lemma_run_of(sel: Seq<int>, i: int, len: nat) -> (j: int)
    requires
        sel.len() > 0,
        sel[0] == 0,
        0 <= i < len,
    ensures
        0 <= j < sel.len(),
        sel[j] == i || in_run(sel, j, i, len),
    decreases sel.len(),
{
    if sel.last() <= i {
        sel.len() - 1
    } else {
        let fewer = sel.drop_last();
        let j = lemma_run_of(fewer, i, len);
        if j + 1 < fewer.len() {
            assert(sel[j + 1] == fewer[j + 1]);
        }
        j
    }
}

/// Whether `p` is one of `kept` or lies near one of them.
pub open spec fn is_represented<A: Axis>(kept: Seq<[A; 3]>, p: [A; 3], rsq: A) -> bool {
    exists|j: int|
        0 <= j < kept.len() && (#[trigger] kept[j] == p || !is_far(kept[j], p, rsq))
}

/// Thinning drops only points that lie near one that is kept.
pub proof fn thinned_drops_only_near_points<A: Axis>(points: Seq<[A; 3]>, rsq: A)
    ensures
        forall|i: int|
            0 <= i < points.len() ==> is_represented(
                thinned(points, rsq),
                #[trigger] points[i],
                rsq,
            ),
{
    if points.len() > 0 {
        let sel = thinned_is_greedy(points, rsq);
        let kept = thinned(points, rsq);
        assert forall|i: int| 0 <= i < points.len() implies is_represented(
            kept,
            #[trigger] points[i],
            rsq,
        ) by {
            let j = lemma_run_of(sel, i, points.len());
            assert(kept[j] == points[sel[j]]);
        }
    }
}

/// Whether any two of `points` at different positions are far from each other.
pub open spec fn all_far<A: Axis>(points: Seq<[A; 3]>, rsq: A) -> bool {
    forall|i: int, j: int|
        #![trigger points[i], points[j]]
        0 <= i < points.len() && 0 <= j < points.len() && i != j ==> is_far(
            points[i],
            points[j],
            rsq,
        )
}

/// Points that are all far from each other are all kept.
pub proof fn thinned_keeps_far_points<A: Axis>(points: Seq<[A; 3]>, rsq: A)
    requires
        all_far(points, rsq),
    ensures
        thinned(points, rsq) == points,
    decreases points.len(),
{
    if points.len() > 1 {
        let fewer = points.drop_last();
        assert forall|i: int, j: int|
            #![trigger fewer[i], fewer[j]]
            0 <= i < fewer.len() && 0 <= j < fewer.len() && i != j implies is_far(
            fewer[i],
            fewer[j],
            rsq,
        ) by {
            assert(fewer[i] == points[i] && fewer[j] == points[j]);
        }
        thinned_keeps_far_points(fewer, rsq);
        let a = points[points.len() - 2];
        let b = points[points.len() - 1];
        assert(fewer.last() == a);
        assert(is_far(a, b, rsq));
        assert(fewer.push(b) =~= points);
    }
}

/// Arranging points in Morton order keeps each of them, and puts them in ascending order of their
/// codes within the box over all of them; points with equal codes keep their order.
pub proof fn morton_order_arranges_the_points<A: Axis>(
    points: Seq<[A; 3]>,
    permutation: Seq<usize>,
) -> (places: Seq<usize>)
    requires
        points.len() <= usize::MAX,
    ensures
        places.len() == points.len(),
        places.no_duplicates(),
        forall|i: int| 0 <= i < places.len() ==> #[trigger] places[i] < points.len(),
        forall|n: int| 0 <= n < points.len() ==> #[trigger] places.contains(n as usize),
        in_morton_order(points, permutation) == places.map_values(|n: usize| points[n as int]),
        forall|i: int, j: int|
            #![trigger places[i], places[j]]
            0 <= i < j < places.len() ==> {
                let a = morton_code(
                    points[places[i] as int]@,
                    lowest(points),
                    highest(points),
                    permutation,
                );
                let b = morton_code(
                    points[places[j] as int]@,
                    lowest(points),
                    highest(points),
                    permutation,
                );
                a < b || (a == b && places[i] < places[j])
            },
{
    let keys = codes(points, permutation);
    let places = stable_order(keys);
    stable_order_is_ascending(keys);
    stable_order_is_stable(keys);
    assert(in_morton_order(points, permutation) =~= places.map_values(
        |n: usize| points[n as int],
    ));
    assert forall|i: int, j: int|
        #![trigger places[i], places[j]]
        0 <= i < j < places.len() implies {
        let a = morton_code(
            points[places[i] as int]@,
            lowest(points),
            highest(points),
            permutation,
        );
        let b = morton_code(
            points[places[j] as int]@,
            lowest(points),
            highest(points),
            permutation,
        );
        a < b || (a == b && places[i] < places[j])
    } by {
        assert(keys[places[i] as int] <= keys[places[j] as int]);
    }
    places
}

/// A pass drops only points that lie within `min_sep` of one that it keeps, as the squared distance
/// is computed.
pub proof fn pass_drops_only_near_points<A: Axis>(
    points: Seq<[A; 3]>,
    min_sep: A,
    permutation: Seq<usize>,
)
    requires
        points.len() <= usize::MAX,
    ensures
        forall|i: int|
            0 <= i < points.len() ==> is_represented(
                filtered(points, min_sep, permutation),
                #[trigger] points[i],
                times(min_sep, min_sep),
            ),
{
    let rsq = times(min_sep, min_sep);
    let kept = filtered(points, min_sep, permutation);
    if points.len() < 2 {
        assert(forall|i: int| 0 <= i < points.len() ==> kept[i] == #[trigger] points[i]);
    } else {
        let arranged = in_morton_order(points, permutation);
        let places = morton_order_arranges_the_points(points, permutation);
        thinned_drops_only_near_points(arranged, rsq);
        assert forall|i: int| 0 <= i < points.len() implies is_represented(
            kept,
            #[trigger] points[i],
            rsq,
        ) by {
            assert(places.contains(i as usize));
            let j = choose|j: int| 0 <= j < places.len() && places[j] == i as usize;
            assert(arranged[j] == points[i]);
        }
    }
}

/// A pass walks through the points in Morton order, and keeps the first, and then each time the next
/// one that is far from the last one kept: `r.0` are the positions of the points in Morton order, and
/// `r.1` the steps of the walk at which a point is kept. A single point is always kept.
pub proof fn pass_is_a_greedy_walk<A: Axis>(
    points: Seq<[A; 3]>,
    min_sep: A,
    permutation: Seq<usize>,
) -> (r: (Seq<usize>, Seq<int>))
    requires
        points.len() <= usize::MAX,
    ensures
        points.len() < 2 ==> filtered(points, min_sep, permutation) == points,
        points.len() >= 2 ==> {
            let walk = r.0.map_values(|n: usize| points[n as int]);
            &&& r.0.len() == points.len()
            &&& r.0.no_duplicates()
            &&& forall|i: int| 0 <= i < r.0.len() ==> #[trigger] r.0[i] < points.len()
            &&& forall|i: int, j: int|
                #![trigger r.0[i], r.0[j]]
                0 <= i < j < r.0.len() ==> {
                    let a = morton_code(
                        points[r.0[i] as int]@,
                        lowest(points),
                        highest(points),
                        permutation,
                    );
                    let b = morton_code(
                        points[r.0[j] as int]@,
                        lowest(points),
                        highest(points),
                        permutation,
                    );
                    a < b || (a == b && r.0[i] < r.0[j])
                }
            &&& selects(walk, times(min_sep, min_sep), r.1)
            &&& filtered(points, min_sep, permutation) == r.1.map_values(|i: int| walk[i])
        },
{
    if points.len() < 2 {
        (Seq::empty(), Seq::empty())
    } else {
        let places = morton_order_arranges_the_points(points, permutation);
        let sel = thinned_is_greedy(
            in_morton_order(points, permutation),
            times(min_sep, min_sep),
        );
        (places, sel)
    }
}

/// A pass leaves its points in ascending order of their codes within the box over all points that
/// it was given.
pub proof fn pass_leaves_morton_order<A: Axis>(
    points: Seq<[A; 3]>,
    min_sep: A,
    permutation: Seq<usize>,
)
    requires
        2 <= points.len() <= usize::MAX,
    ensures
        forall|i: int, j: int|
            #![trigger
                filtered(points, min_sep, permutation)[i],
                filtered(points, min_sep, permutation)[j]]
            0 <= i < j < filtered(points, min_sep, permutation).len() ==> morton_code(
                filtered(points, min_sep, permutation)[i]@,
                lowest(points),
                highest(points),
                permutation,
            ) <= morton_code(
                filtered(points, min_sep, permutation)[j]@,
                lowest(points),
                highest(points),
                permutation,
            ),
{
    let rsq = times(min_sep, min_sep);
    let arranged = in_morton_order(points, permutation);
    let places = morton_order_arranges_the_points(points, permutation);
    let sel = thinned_is_greedy(arranged, rsq);
    let kept = filtered(points, min_sep, permutation);
    assert forall|i: int, j: int|
        #![trigger kept[i], kept[j]]
        0 <= i < j < kept.len() implies morton_code(
        kept[i]@,
        lowest(points),
        highest(points),
        permutation,
    ) <= morton_code(kept[j]@, lowest(points), highest(points), permutation) by {
        assert(kept[i] == points[places[sel[i]] as int]);
        assert(kept[j] == points[places[sel[j]] as int]);
        assert(sel[i] < sel[j]);
    }
}

/// A pass over points that are all farther than `min_sep` from each other keeps them all.
pub proof fn pass_keeps_far_points<A: Axis>(
    points: Seq<[A; 3]>,
    min_sep: A,
    permutation: Seq<usize>,
)
    requires
        points.len() <= usize::MAX,
        all_far(points, times(min_sep, min_sep)),
    ensures
        filtered(points, min_sep, permutation).to_multiset() == points.to_multiset(),
        filtered(points, min_sep, permutation).len() == points.len(),
        all_far(filtered(points, min_sep, permutation), times(min_sep, min_sep)),
{
    if points.len() >= 2 {
        let rsq = times(min_sep, min_sep);
        let keys = codes(points, permutation);
        let arranged = in_morton_order(points, permutation);
        let places = morton_order_arranges_the_points(points, permutation);
        stable_order_keeps_items(keys, points);
        assert(arranged =~= Seq::new(
            keys.len(),
            |i: int| points[stable_order(keys)[i] as int],
        ));
        assert forall|i: int, j: int|
            #![trigger arranged[i], arranged[j]]
            0 <= i < arranged.len() && 0 <= j < arranged.len() && i != j implies is_far(
            arranged[i],
            arranged[j],
            rsq,
        ) by {
            assert(arranged[i] == points[places[i] as int]);
            assert(arranged[j] == points[places[j] as int]);
            assert(places[i] != places[j]);
        }
        thinned_keeps_far_points(arranged, rsq);
    }
}

// ---------------------------------------------------------------------------------------------
// Codes
// ---------------------------------------------------------------------------------------------

proof fn lemma_mask_bit(i: nat, n: nat)
    requires
        i < 3,
        n < 32,
    ensures
        bit(CODE_MASK << (i as u32), n) <==> n >= i && (n - i) % 3 == 0 && n - i < 30,
{
    let s = i as u32;
    let t = n as u32;
    assert(((0x0924_9249u32 << s) >> t) & 1u32 == 1u32 <==> t >= s && (t - s) % 3 == 0 && t - s
        < 30) by (bit_vector)
        requires
            s < 3,
            t < 32,
    ;
}

proof fn lemma_mask_rank(i: nat, n: nat)
    requires
        i < 3,
        n <= 32,
    ensures
        ones_below(CODE_MASK << (i as u32), n) == if n <= i {
            0
        } else if n - i > 30 {
            10
        } else {
            (n - i + 2) / 3
        },
    decreases n,
{
    if n > 0 {
        lemma_mask_rank(i, (n - 1) as nat);
        lemma_mask_bit(i, (n - 1) as nat);
    }
}

proof fn lemma_or_bit(x: u32, y: u32, n: nat)
    requires
        n < 32,
    ensures
        bit(x | y, n) <==> bit(x, n) || bit(y, n),
{
    let t = n as u32;
    assert(((x | y) >> t) & 1u32 == 1u32 <==> (x >> t) & 1u32 == 1u32 || (y >> t) & 1u32 == 1u32)
        by (bit_vector)
        requires
            t < 32,
    ;
}

proof fn lemma_word_bit(a: u32, i: nat, b: nat)
    requires
        i < 3,
        b < 32,
    ensures
        bit(deposited(a, CODE_MASK << (i as u32), 32), b) <==> b >= i && (b - i) % 3 == 0 && b - i
            < 30 && bit(a, ((b - i) / 3) as nat),
{
    deposited_bits(a, CODE_MASK << (i as u32), 32, b);
    lemma_mask_bit(i, b);
    lemma_mask_rank(i, b);
    if b >= i && (b - i) % 3 == 0 && b - i < 30 && b > i {
        assert((b - i + 2) / 3 == (b - i) / 3);
    }
}

/// A Morton code interleaves the lowest ten bits of the three positions: bit `3 b + i` of the code
/// is bit `b` of the position on the axis that comes at place `i` of the permutation. The highest
/// two bits are not set.
pub proof fn morton_code_interleaves<A: Axis>(
    p: Seq<A>,
    lo: Seq<A>,
    hi: Seq<A>,
    permutation: Seq<usize>,
    i: nat,
    b: nat,
)
    requires
        i < 3,
        b < 10,
    ensures
        bit(morton_code(p, lo, hi, permutation), 3 * b + i) <==> bit(
            quantized(
                p[permutation[i as int] as int],
                lo[permutation[i as int] as int],
                hi[permutation[i as int] as int],
            ),
            b,
        ),
        !bit(morton_code(p, lo, hi, permutation), 30),
        !bit(morton_code(p, lo, hi, permutation), 31),
{
    let at = |j: int|
        quantized(
            p[permutation[j] as int],
            lo[permutation[j] as int],
            hi[permutation[j] as int],
        );
    let x = deposited(at(0), CODE_MASK << 0u32, 32);
    let y = deposited(at(1), CODE_MASK << 1u32, 32);
    let z = deposited(at(2), CODE_MASK << 2u32, 32);
    assert(morton_code(p, lo, hi, permutation) == x | y | z);
    assert forall|n: nat| n < 32 implies (#[trigger] bit(x | y | z, n) <==> (n < 30 && bit(
        at((n % 3) as int),
        n / 3,
    ))) by {
        lemma_or_bit(x | y, z, n);
        lemma_or_bit(x, y, n);
        lemma_word_bit(at(0), 0, n);
        lemma_word_bit(at(1), 1, n);
        lemma_word_bit(at(2), 2, n);
    }
    let n = 3 * b + i;
    assert(n % 3 == i && n / 3 == b);
    assert(bit(x | y | z, n) <==> bit(at(i as int), b));
}

// ---------------------------------------------------------------------------------------------
// All passes
// ---------------------------------------------------------------------------------------------

/// Whether `s` is an arrangement of the three axes.
pub open spec fn arranges_axes(s: Seq<usize>) -> bool {
    s.len() == 3 && s[0] < 3 && s[1] < 3 && s[2] < 3 && s[0] != s[1] && s[0] != s[2] && s[1]
        != s[2]
}

/// Whether `s` comes before `t`, compared axis by axis.
pub open spec fn arranged_before(s: Seq<usize>, t: Seq<usize>) -> bool {
    s[0] < t[0] || (s[0] == t[0] && (s[1] < t[1] || (s[1] == t[1] && s[2] < t[2])))
}

/// The filter makes one pass for each of the six arrangements of the axes, in ascending order.
pub proof fn morton_filter_passes<A: Axis>(points: Seq<[A; 3]>, min_sep: A) -> (r: (
    Seq<Seq<[A; 3]>>,
    Seq<Seq<usize>>,
))
    ensures
        r.0.len() == 7,
        r.1.len() == 6,
        r.0[0] == points,
        r.0[6] == morton_filtered(points, min_sep),
        forall|i: int|
            #![trigger r.1[i]]
            0 <= i < 6 ==> arranges_axes(r.1[i]) && r.0[i + 1] == filtered(
                r.0[i],
                min_sep,
                r.1[i],
            ),
        forall|i: int, j: int|
            #![trigger r.1[i], r.1[j]]
            0 <= i < j < 6 ==> arranged_before(r.1[i], r.1[j]),
{
    let orders = seq![
        seq![0usize, 1usize, 2usize],
        seq![0usize, 2usize, 1usize],
        seq![1usize, 0usize, 2usize],
        seq![1usize, 2usize, 0usize],
        seq![2usize, 0usize, 1usize],
        seq![2usize, 1usize, 0usize],
    ];
    let a = filtered(points, min_sep, orders[0]);
    let b = filtered(a, min_sep, orders[1]);
    let c = filtered(b, min_sep, orders[2]);
    let d = filtered(c, min_sep, orders[3]);
    let e = filtered(d, min_sep, orders[4]);
    let f = filtered(e, min_sep, orders[5]);
    (seq![points, a, b, c, d, e, f], orders)
}

/// A cloud whose points are all farther than `min_sep` from each other is kept whole.
pub proof fn morton_filter_keeps_far_points<A: Axis>(points: Seq<[A; 3]>, min_sep: A)
    requires
        points.len() <= usize::MAX,
        all_far(points, times(min_sep, min_sep)),
    ensures
        morton_filtered(points, min_sep).to_multiset() == points.to_multiset(),
        morton_filtered(points, min_sep).len() == points.len(),
{
    let (stages, orders) = morton_filter_passes(points, min_sep);
    assert(orders[0] == orders[0]);
    pass_keeps_far_points(stages[0], min_sep, orders[0]);
    assert(stages[1] == filtered(stages[0], min_sep, orders[0]));
    pass_keeps_far_points(stages[1], min_sep, orders[1]);
    assert(stages[2] == filtered(stages[1], min_sep, orders[1]));
    pass_keeps_far_points(stages[2], min_sep, orders[2]);
    assert(stages[3] == filtered(stages[2], min_sep, orders[2]));
    pass_keeps_far_points(stages[3], min_sep, orders[3]);
    assert(stages[4] == filtered(stages[3], min_sep, orders[3]));
    pass_keeps_far_points(stages[4], min_sep, orders[4]);
    assert(stages[5] == filtered(stages[4], min_sep, orders[4]));
    pass_keeps_far_points(stages[5], min_sep, orders[5]);
    assert(stages[6] == filtered(stages[5], min_sep, orders[5]));
}

/// Whether each point of `chain` is near the one after it, which comes first in the distance.
pub open spec fn is_chain<A: Axis>(chain: Seq<[A; 3]>, rsq: A) -> bool {
    forall|i: int, j: int|
        #![trigger chain[i], chain[j]]
        0 <= i < chain.len() && j == i + 1 && j < chain.len() ==> !is_far(
            chain[j],
            chain[i],
            rsq,
        )
}

proof fn lemma_chain<A: Axis>(
    stages: Seq<Seq<[A; 3]>>,
    orders: Seq<Seq<usize>>,
    min_sep: A,
    n: nat,
    p: [A; 3],
) -> (chain: Seq<[A; 3]>)
    requires
        n < stages.len(),
        stages.len() == orders.len() + 1,
        forall|i: int|
            #![trigger orders[i]]
            0 <= i < orders.len() ==> stages[i + 1] == filtered(stages[i], min_sep, orders[i]),
        stages[stages.len() - 1 - n].len() <= usize::MAX,
        stages[stages.len() - 1 - n].contains(p),
    ensures
        1 <= chain.len() <= n + 1,
        chain[0] == p,
        stages.last().contains(chain.last()),
        is_chain(chain, times(min_sep, min_sep)),
    decreases n,
{
    let rsq = times(min_sep, min_sep);
    if n == 0 {
        seq![p]
    } else {
        let s = stages.len() - 1 - n;
        let points = stages[s];
        let kept = filtered(points, min_sep, orders[s]);
        assert(stages[s + 1] == kept);
        pass_drops_only_near_points(points, min_sep, orders[s]);
        filtered_is_a_part(points, min_sep, orders[s]);
        let i = choose|i: int| 0 <= i < points.len() && points[i] == p;
        assert(is_represented(kept, points[i], rsq));
        let j = choose|j: int|
            0 <= j < kept.len() && (#[trigger] kept[j] == p || !is_far(kept[j], p, rsq));
        assert(kept.contains(kept[j]));
        let rest = lemma_chain(stages, orders, min_sep, (n - 1) as nat, kept[j]);
        if kept[j] == p {
            rest
        } else {
            let chain = seq![p] + rest;
            assert forall|x: int, y: int|
                #![trigger chain[x], chain[y]]
                0 <= x < chain.len() && y == x + 1 && y < chain.len() implies !is_far(
                chain[y],
                chain[x],
                rsq,
            ) by {
                assert(chain[y] == rest[y - 1]);
                if x > 0 {
                    assert(chain[x] == rest[x - 1]);
                }
            }
            assert(chain.last() == rest.last());
            chain
        }
    }
}

/// From every point a chain of at most seven points, each within `min_sep` of the next, leads to a
/// point that the filter keeps.
pub proof fn morton_filter_drops_only_near_points<A: Axis>(
    points: Seq<[A; 3]>,
    min_sep: A,
    p: [A; 3],
) -> (chain: Seq<[A; 3]>)
    requires
        points.len() <= usize::MAX,
        points.contains(p),
    ensures
        1 <= chain.len() <= 7,
        chain[0] == p,
        morton_filtered(points, min_sep).contains(chain.last()),
        is_chain(chain, times(min_sep, min_sep)),
{
    let (stages, orders) = morton_filter_passes(points, min_sep);
    lemma_chain(stages, orders, min_sep, 6, p)
}

} // verus!

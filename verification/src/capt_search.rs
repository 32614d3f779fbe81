//! A simplified CAPT (collision-affording point tree) query, step by step: a single descent to a
//! leaf, and a scan of the points that the leaf affords.

use crate::aabb::{cloud, finite};
use crate::axis::{gt, le, minus, ordered, times, Axis};
use crate::kd_search::{
    check_in_order, checked_of, first_within, lemma_box_of, lemma_first_within,
};
use crate::laws::{box_is_no_farther_than_its_points, contains, rounds_monotonically};
use crate::scan::{any_within, distsq, distsq_upto};
use crate::tree::{node_wf, Node, Tree};
use crate::viz::{box_of, Aabb};
use vstd::prelude::*;

verus! {

/// A leaf's affordance buffer: every point that could be hit by a query that ends in the leaf.
#[derive(Clone, Debug)]
pub struct Affordance<A> {
    /// The points within the maximum radius of the leaf's box.
    pub points: Vec<[A; 3]>,
    /// The number of points of the leaf itself.
    pub own_count: usize,
    /// The box over the points, if there are any.
    pub bbox: Option<Aabb<A>>,
}

/// The points that lie within a squared distance of `rsq` of the box of node `leaf`.
pub open spec fn afforded<A: Axis>(
    nodes: Seq<Node<A>>,
    leaf: int,
    points: Seq<[A; 3]>,
    rsq: A,
) -> Seq<[A; 3]>
    decreases points.len(),
{
    if points.len() == 0 {
        Seq::empty()
    } else {
        let sofar = afforded(nodes, leaf, points.drop_last(), rsq);
        if le(nodes[leaf].bbox@.closest_distsq(points.last()@, 3), rsq) {
            sofar.push(points.last())
        } else {
            sofar
        }
    }
}

/// Collect the points that the leaf with index `leaf_idx` affords for queries of radius up to
/// `r_max`.
pub fn build_affordance<A: Axis>(
    tree: &Tree<A>,
    leaf_idx: usize,
    all_points: &[[A; 3]],
    r_max: A,
) -> (r: Affordance<A>)
    requires
        leaf_idx < tree.nodes@.len(),
    ensures
        r.points@ == afforded(tree.nodes@, leaf_idx as int, all_points@, times(r_max, r_max)),
        r.own_count == tree.nodes@[leaf_idx as int].points@.len(),
        match r.bbox {
            Some(b) => r.points@.len() > 0 && b@ == box_of(r.points@),
            None => r.points@.len() == 0,
        },
{
    proof {
        A::total_operators();
    }
    let rsq = r_max * r_max;
    let node = &tree.nodes[leaf_idx];
    let mut points: Vec<[A; 3]> = Vec::new();
    let mut i: usize = 0;
    assert(all_points@.take(0) =~= Seq::<[A; 3]>::empty());
    while i < all_points.len()
        invariant
            i <= all_points.len(),
            leaf_idx < tree.nodes@.len(),
            node == tree.nodes@[leaf_idx as int],
            points@ == afforded(tree.nodes@, leaf_idx as int, all_points@.take(i as int), rsq),
        decreases all_points.len() - i,
    {
        proof {
            A::total_operators();
            let taken = all_points@.take(i + 1);
            assert(taken.drop_last() =~= all_points@.take(i as int));
            assert(taken.last() == all_points@[i as int]);
        }
        if node.bbox.closest_distsq_to(&all_points[i]) <= rsq {
            points.push(all_points[i]);
        }
        i += 1;
    }
    assert(all_points@.take(i as int) =~= all_points@);
    let bbox: Option<Aabb<A>> = if points.len() > 0 {
        Some(Aabb::of(points.as_slice()))
    } else {
        None
    };
    Affordance { own_count: node.points.len(), points, bbox }
}

/// The nodes on the way from node `i` down to the leaf on the side of `c` of every split.
pub open spec fn descent<A: Axis>(nodes: Seq<Node<A>>, i: int, c: Seq<A>) -> Seq<usize>
    decreases i,
{
    let n = nodes[i];
    match (n.left, n.right) {
        (Some(l), Some(r)) if 0 <= l < i && 0 <= r < i => seq![i as usize] + descent(
            nodes,
            if le(c[n.axis as int], n.test) {
                l as int
            } else {
                r as int
            },
            c,
        ),
        _ => seq![i as usize],
    }
}

/// Descend from the root to the leaf on the side of `center` of every split, recording the nodes
/// on the way.
pub fn descend<A: Axis>(tree: &Tree<A>, center: &[A; 3]) -> (path: Vec<usize>)
    requires
        tree.wf(),
    ensures
        path@ == descent(tree.nodes@, tree.root as int, center@),
        path@.len() > 0,
        path@.last() < tree.nodes@.len(),
        tree.nodes@[path@.last() as int].is_leaf_spec(),
{
    let mut path: Vec<usize> = Vec::new();
    let mut idx: usize = tree.root;
    assert(path@ + descent(tree.nodes@, idx as int, center@) =~= descent(
        tree.nodes@,
        tree.root as int,
        center@,
    ));
    loop
        invariant
            tree.wf(),
            idx < tree.nodes@.len(),
            path@ + descent(tree.nodes@, idx as int, center@) == descent(
                tree.nodes@,
                tree.root as int,
                center@,
            ),
        decreases idx,
    {
        let ghost before = path@;
        let ghost here = descent(tree.nodes@, idx as int, center@);
        proof {
            A::total_operators();
            assert(node_wf(tree.nodes@, idx as int));
        }
        let node = &tree.nodes[idx];
        path.push(idx);
        if node.is_leaf() {
            assert(path@ =~= before + here);
            return path;
        }
        let next: usize = if center[node.axis] <= node.test {
            node.left.unwrap()
        } else {
            node.right.unwrap()
        };
        assert(path@ + descent(tree.nodes@, next as int, center@) =~= before + here);
        idx = next;
    }
}

/// The steps of a query.
#[derive(Clone, Debug)]
pub struct CaptTrace<A> {
    /// The nodes on the way to the leaf.
    pub path: Vec<usize>,
    /// What the leaf affords.
    pub affordance: Affordance<A>,
    /// Whether the box of the affordance is in range.
    pub in_range: bool,
    /// The points that were checked, in order.
    pub checked: Vec<[A; 3]>,
    /// The point that was found.
    pub hit: Option<[A; 3]>,
}

/// Query `tree` for a point within `radius` of `center`, recording every step. `all_points` are
/// the points that the tree was built from, and `r_max` is the largest radius that it affords.
pub fn run_query<A: Axis>(
    tree: &Tree<A>,
    all_points: &[[A; 3]],
    center: &[A; 3],
    radius: A,
    r_max: A,
) -> (r: CaptTrace<A>)
    requires
        tree.wf(),
    ensures
        ({
            let rsq = times(radius, radius);
            let path = descent(tree.nodes@, tree.root as int, center@);
            let buffer = afforded(
                tree.nodes@,
                path.last() as int,
                all_points@,
                times(r_max, r_max),
            );
            let in_range = buffer.len() > 0 && !gt(
                box_of(buffer).closest_distsq(center@, 3),
                rsq,
            );
            &&& r.path@ == path
            &&& r.affordance.points@ == buffer
            &&& r.affordance.own_count == tree.nodes@[path.last() as int].points@.len()
            &&& match r.affordance.bbox {
                Some(b) => buffer.len() > 0 && b@ == box_of(buffer),
                None => buffer.len() == 0,
            }
            &&& r.hit == found(
                tree.nodes@,
                path.last() as int,
                all_points@,
                times(r_max, r_max),
                center@,
                rsq,
            )
            &&& r.in_range == in_range
            &&& r.checked@ == if in_range {
                checked_of(buffer, center@, rsq)
            } else {
                Seq::empty()
            }
        }),
{
    proof {
        A::total_operators();
    }
    let rsq = radius * radius;
    let path: Vec<usize> = descend(tree, center);
    let leaf: usize = path[path.len() - 1];
    let affordance: Affordance<A> = build_affordance(tree, leaf, all_points, r_max);
    let in_range: bool = match &affordance.bbox {
        Some(b) => !(b.closest_distsq_to(center) > rsq),
        None => false,
    };
    if !in_range {
        let checked: Vec<[A; 3]> = Vec::new();
        assert(checked@ =~= Seq::<[A; 3]>::empty());
        return CaptTrace { path, affordance, in_range, checked, hit: None };
    }
    let (checked, hit) = check_in_order(&affordance.points, center, rsq);
    CaptTrace { path, affordance, in_range, checked, hit }
}

/// What a query that ends in node `leaf` finds.
pub open spec fn found<A: Axis>(
    nodes: Seq<Node<A>>,
    leaf: int,
    points: Seq<[A; 3]>,
    rsq_max: A,
    c: Seq<A>,
    rsq: A,
) -> Option<[A; 3]> {
    let buffer = afforded(nodes, leaf, points, rsq_max);
    if buffer.len() > 0 && !gt(box_of(buffer).closest_distsq(c, 3), rsq) {
        first_within(buffer, c, rsq)
    } else {
        None
    }
}

/// A node affords those of the points that are close enough to its box.
proof fn lemma_afforded<A: Axis>(nodes: Seq<Node<A>>, leaf: int, points: Seq<[A; 3]>, rsq: A)
    ensures
        forall|p: [A; 3]| #[trigger]
            afforded(nodes, leaf, points, rsq).contains(p) <==> points.contains(p) && le(
                nodes[leaf].bbox@.closest_distsq(p@, 3),
                rsq,
            ),
    decreases points.len(),
{
    if points.len() > 0 {
        let fewer = points.drop_last();
        let last = points.last();
        lemma_afforded(nodes, leaf, fewer, rsq);
        let sofar = afforded(nodes, leaf, fewer, rsq);
        let all = afforded(nodes, leaf, points, rsq);
        assert(fewer.push(last) =~= points);
        assert forall|p: [A; 3]| #[trigger] all.contains(p) <==> points.contains(p) && le(
            nodes[leaf].bbox@.closest_distsq(p@, 3),
            rsq,
        ) by {
            lemma_push_contains(fewer, last, p);
            lemma_push_contains(sofar, last, p);
            assert(sofar.contains(p) <==> fewer.contains(p) && le(
                nodes[leaf].bbox@.closest_distsq(p@, 3),
                rsq,
            ));
        }
    }
}

proof fn lemma_push_contains<T>(s: Seq<T>, x: T, y: T)
    ensures
        s.push(x).contains(y) <==> s.contains(y) || y == x,
{
    if s.contains(y) {
        let i = choose|i: int| 0 <= i < s.len() && s[i] == y;
        assert(s.push(x)[i] == y);
    }
    assert(s.push(x)[s.len() as int] == x);
}

/// A query never makes up a hit: where it finds a point, checking every point finds one.
pub proof fn hit_implies_brute_force<A: Axis>(
    nodes: Seq<Node<A>>,
    leaf: int,
    points: Seq<[A; 3]>,
    rsq_max: A,
    c: Seq<A>,
    rsq: A,
)
    ensures
        found(nodes, leaf, points, rsq_max, c, rsq) matches Some(p) ==> points.contains(p)
            && any_within(cloud(points), c, rsq),
{
    let buffer = afforded(nodes, leaf, points, rsq_max);
    lemma_first_within(buffer, c, rsq);
    lemma_afforded(nodes, leaf, points, rsq_max);
    if let Some(p) = found(nodes, leaf, points, rsq_max, c, rsq) {
        assert(buffer.contains(p));
        let i = choose|i: int| 0 <= i < points.len() && points[i] == p;
        assert(le(distsq(cloud(points)[i], c), rsq));
    }
}

/// If any of the points is close enough, then one that is close enough is afforded by the leaf.
pub open spec fn affords_a_hit<A: Axis>(
    nodes: Seq<Node<A>>,
    leaf: int,
    points: Seq<[A; 3]>,
    rsq_max: A,
    c: Seq<A>,
    rsq: A,
) -> bool {
    any_within(cloud(points), c, rsq) ==> exists|i: int|
        #![trigger points[i]]
        0 <= i < points.len() && le(distsq(points[i]@, c), rsq) && le(
            nodes[leaf].bbox@.closest_distsq(points[i]@, 3),
            rsq_max,
        )
}

/// A query finds a point where checking every point finds one, exactly if the leaf affords a point
/// that is close enough wherever there is one.
pub proof fn query_is_brute_force<A: Axis>(
    nodes: Seq<Node<A>>,
    leaf: int,
    points: Seq<[A; 3]>,
    rsq_max: A,
    c: Seq<A>,
    rsq: A,
)
    requires
        rounds_monotonically::<A>(),
        forall|i: int| 0 <= i < points.len() ==> finite((#[trigger] points[i])@),
        c.len() == 3,
    ensures
        found(nodes, leaf, points, rsq_max, c, rsq) is Some == any_within(cloud(points), c, rsq)
            <==> affords_a_hit(nodes, leaf, points, rsq_max, c, rsq),
{
    let buffer = afforded(nodes, leaf, points, rsq_max);
    lemma_first_within(buffer, c, rsq);
    lemma_afforded(nodes, leaf, points, rsq_max);
    hit_implies_brute_force(nodes, leaf, points, rsq_max, c, rsq);
    if let Some(p) = found(nodes, leaf, points, rsq_max, c, rsq) {
        assert(buffer.contains(p));
        let i = choose|i: int| 0 <= i < points.len() && points[i] == p;
        assert(le(distsq(points[i]@, c), rsq));
    }
    if any_within(cloud(points), c, rsq) && affords_a_hit(nodes, leaf, points, rsq_max, c, rsq) {
        let i = choose|i: int|
            #![trigger points[i]]
            0 <= i < points.len() && le(distsq(points[i]@, c), rsq) && le(
                nodes[leaf].bbox@.closest_distsq(points[i]@, 3),
                rsq_max,
            );
        let p = points[i];
        assert(points.contains(p));
        assert(buffer.contains(p));
        let j = choose|j: int| 0 <= j < buffer.len() && buffer[j] == p;
        assert forall|j: int| 0 <= j < buffer.len() implies finite((#[trigger] buffer[j])@) by {
            assert(buffer.contains(buffer[j]));
            let m = choose|m: int| 0 <= m < points.len() && points[m] == buffer[j];
            assert(finite(points[m]@));
        }
        lemma_box_of(buffer);
        let b = box_of(buffer);
        assert(contains(b, buffer[j]@));
        box_is_no_farther_than_its_points(b, p@, c, 3);
        assert(le(b.closest_distsq(c, 3), rsq));
        assert(cloud(buffer)[j] == p@);
        assert(any_within(cloud(buffer), c, rsq));
    }
}

/// The square of a difference does not depend on the order of its operands.
pub open spec fn squares_evenly<A: Axis>() -> bool {
    forall|a: A, b: A|
        a.is_finite_spec() && b.is_finite_spec() ==> #[trigger] minus(a, b).square_spec() == minus(
            b,
            a,
        ).square_spec()
}

proof fn lemma_distance_is_even<A: Axis>(p: Seq<A>, c: Seq<A>, n: nat)
    requires
        squares_evenly::<A>(),
        finite(p),
        finite(c),
        n <= p.len(),
        n <= c.len(),
    ensures
        distsq_upto(p, c, n) == distsq_upto(c, p, n),
    decreases n,
{
    if n > 0 {
        lemma_distance_is_even(p, c, (n - 1) as nat);
        assert(p[n - 1].is_finite_spec() && c[n - 1].is_finite_spec());
    }
}

/// A query whose center lies in the box of the leaf that it ends in, with a radius that the tree
/// affords, finds a point exactly if checking every point does.
pub proof fn query_inside_a_leaf_is_brute_force<A: Axis>(
    nodes: Seq<Node<A>>,
    leaf: int,
    points: Seq<[A; 3]>,
    rsq_max: A,
    c: Seq<A>,
    rsq: A,
)
    requires
        rounds_monotonically::<A>(),
        squares_evenly::<A>(),
        forall|i: int| 0 <= i < points.len() ==> finite((#[trigger] points[i])@),
        finite(nodes[leaf].bbox@.lo),
        finite(nodes[leaf].bbox@.hi),
        c.len() == 3,
        finite(c),
        contains(nodes[leaf].bbox@, c),
        le(rsq, rsq_max),
    ensures
        found(nodes, leaf, points, rsq_max, c, rsq) is Some == any_within(cloud(points), c, rsq),
{
    let b = nodes[leaf].bbox@;
    if any_within(cloud(points), c, rsq) {
        let i = choose|i: int|
            0 <= i < cloud(points).len() && le(distsq(#[trigger] cloud(points)[i], c), rsq);
        let p = points[i];
        assert(cloud(points)[i] == p@);
        assert(finite(p@));
        lemma_distance_is_even(p@, c, 3);
        assert(ordered(distsq(p@, c)));
        box_is_no_farther_than_its_points(b, c, p@, 3);
        assert(le(b.closest_distsq(p@, 3), rsq_max));
    }
    query_is_brute_force(nodes, leaf, points, rsq_max, c, rsq);
}

} // verus!

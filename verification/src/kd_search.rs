//! A classic k-d tree's ball search, step by step.

use crate::aabb::{cloud, finite, Bounds};
use crate::axis::{gt, le, max_spec, min_spec, ordered, times, Axis};
use crate::laws::{contains, box_is_no_farther_than_its_points, orders_values, rounds_monotonically};
use crate::scan::{any_within, distsq};
use crate::tree::{built, node_wf, nodes_wf, points_of, shape_of, Item, Node, Shape, Tree};
use crate::viz::{box_of, box_union};
use vstd::prelude::*;

verus! {

/// What a search does at a node.
#[derive(Clone, Copy, Debug, PartialEq, Eq, Structural)]
pub enum Visit {
    /// Its box is too far away: leave out everything below.
    Pruned,
    /// Check its points.
    Leaf,
    /// Descend, first on the side of the center.
    Descend,
}

/// The points that are checked in a leaf: up to the first that is close enough.
pub open spec fn checked_of<A: Axis>(points: Seq<[A; 3]>, c: Seq<A>, rsq: A) -> Seq<[A; 3]>
    decreases points.len(),
{
    if points.len() == 0 {
        Seq::empty()
    } else if le(distsq(points[0]@, c), rsq) {
        seq![points[0]]
    } else {
        seq![points[0]] + checked_of(points.skip(1), c, rsq)
    }
}

/// The first point that is close enough.
pub open spec fn first_within<A: Axis>(points: Seq<[A; 3]>, c: Seq<A>, rsq: A) -> Option<[A; 3]>
    decreases points.len(),
{
    if points.len() == 0 {
        None
    } else if le(distsq(points[0]@, c), rsq) {
        Some(points[0])
    } else {
        first_within(points.skip(1), c, rsq)
    }
}

/// What a search from a node down does: the nodes that it visits, the points that it checks, and
/// the point that it finds.
pub struct Course<A> {
    pub visits: Seq<(usize, Visit)>,
    pub checked: Seq<[A; 3]>,
    pub hit: Option<[A; 3]>,
}

/// The course of a search from node `i` down.
pub open spec fn course<A: Axis>(nodes: Seq<Node<A>>, i: int, c: Seq<A>, rsq: A) -> Course<A>
    decreases i,
{
    let n = nodes[i];
    if gt(n.bbox@.closest_distsq(c, 3), rsq) {
        Course { visits: seq![(i as usize, Visit::Pruned)], checked: Seq::empty(), hit: None }
    } else {
        match (n.left, n.right) {
            (Some(l), Some(r)) if 0 <= l < i && 0 <= r < i => {
                let near = if le(c[n.axis as int], n.test) {
                    l
                } else {
                    r
                };
                let far = if le(c[n.axis as int], n.test) {
                    r
                } else {
                    l
                };
                let first = course(nodes, near as int, c, rsq);
                if first.hit is Some {
                    Course {
                        visits: seq![(i as usize, Visit::Descend)] + first.visits,
                        checked: first.checked,
                        hit: first.hit,
                    }
                } else {
                    let second = course(nodes, far as int, c, rsq);
                    Course {
                        visits: seq![(i as usize, Visit::Descend)] + first.visits + second.visits,
                        checked: first.checked + second.checked,
                        hit: second.hit,
                    }
                }
            },
            _ => Course {
                visits: seq![(i as usize, Visit::Leaf)],
                checked: checked_of(n.points@, c, rsq),
                hit: first_within(n.points@, c, rsq),
            },
        }
    }
}

/// Check points in order, up to the first that is close enough.
pub fn check_in_order<A: Axis>(points: &Vec<[A; 3]>, center: &[A; 3], rsq: A) -> (r: (
    Vec<[A; 3]>,
    Option<[A; 3]>,
))
    ensures
        r.0@ == checked_of(points@, center@, rsq),
        r.1 == first_within(points@, center@, rsq),
{
    let mut checked: Vec<[A; 3]> = Vec::new();
    let mut i: usize = 0;
    assert(points@.skip(0) =~= points@);
    assert(checked@ + checked_of(points@, center@, rsq) =~= checked_of(points@, center@, rsq));
    while i < points.len()
        invariant
            i <= points.len(),
            checked@ + checked_of(points@.skip(i as int), center@, rsq) == checked_of(
                points@,
                center@,
                rsq,
            ),
            first_within(points@, center@, rsq) == first_within(
                points@.skip(i as int),
                center@,
                rsq,
            ),
        decreases points.len() - i,
    {
        let p: [A; 3] = points[i];
        let ghost rest = points@.skip(i as int);
        let ghost sofar = checked@;
        proof {
            A::total_operators();
            assert(rest[0] == p);
            assert(rest.skip(1) =~= points@.skip(i + 1));
        }
        checked.push(p);
        if crate::viz::distsq(&p, center) <= rsq {
            assert(checked@ =~= sofar + checked_of(rest, center@, rsq));
            return (checked, Some(p));
        }
        assert(checked@ + checked_of(rest.skip(1), center@, rsq) =~= sofar + checked_of(
            rest,
            center@,
            rsq,
        ));
        i += 1;
    }
    assert(checked@ + checked_of(points@.skip(i as int), center@, rsq) =~= checked@);
    (checked, None)
}

/// The steps of a search.
#[derive(Clone, Debug)]
pub struct Search<A> {
    /// The nodes that were visited, in order.
    pub visits: Vec<(usize, Visit)>,
    /// The points that were checked, in order.
    pub checked_points: Vec<[A; 3]>,
}

impl<A: Axis> Search<A> {
    /// Recursively search `tree` starting at `node_idx`.
    pub fn search(&mut self, tree: &Tree<A>, node_idx: usize, center: &[A; 3], rsq: A) -> (hit:
        Option<[A; 3]>)
        requires
            nodes_wf(tree.nodes@),
            node_idx < tree.nodes@.len(),
        ensures
            hit == course(tree.nodes@, node_idx as int, center@, rsq).hit,
            final(self).visits@ == old(self).visits@ + course(
                tree.nodes@,
                node_idx as int,
                center@,
                rsq,
            ).visits,
            final(self).checked_points@ == old(self).checked_points@ + course(
                tree.nodes@,
                node_idx as int,
                center@,
                rsq,
            ).checked,
        decreases node_idx,
    {
        let ghost visits = self.visits@;
        let ghost checked = self.checked_points@;
        let ghost all = course(tree.nodes@, node_idx as int, center@, rsq);
        proof {
            A::total_operators();
            assert(node_wf(tree.nodes@, node_idx as int));
        }
        let node = &tree.nodes[node_idx];
        if node.bbox.closest_distsq_to(center) > rsq {
            self.visits.push((node_idx, Visit::Pruned));
            assert(self.visits@ =~= visits + all.visits);
            assert(self.checked_points@ =~= checked + all.checked);
            return None;
        }
        if node.is_leaf() {
            self.visits.push((node_idx, Visit::Leaf));
            let (mut checked_here, hit) = check_in_order(&node.points, center, rsq);
            self.checked_points.append(&mut checked_here);
            assert(self.visits@ =~= visits + all.visits);
            return hit;
        }
        self.visits.push((node_idx, Visit::Descend));
        let left: usize = node.left.unwrap();
        let right: usize = node.right.unwrap();
        let goes_left: bool = center[node.axis] <= node.test;
        let near: usize = if goes_left {
            left
        } else {
            right
        };
        let far: usize = if goes_left {
            right
        } else {
            left
        };
        if let Some(hit) = self.search(tree, near, center, rsq) {
            assert(self.visits@ =~= visits + all.visits);
            return Some(hit);
        }
        let hit: Option<[A; 3]> = self.search(tree, far, center, rsq);
        assert(self.visits@ =~= visits + all.visits);
        assert(self.checked_points@ =~= checked + all.checked);
        hit
    }
}

/// Search the whole of `tree` for a point within `radius` of `center`, recording every step.
pub fn run_query<A: Axis>(tree: &Tree<A>, center: &[A; 3], radius: A) -> (r: (
    Search<A>,
    Option<[A; 3]>,
))
    requires
        tree.wf(),
    ensures
        ({
            let all = course(
                tree.nodes@,
                tree.root as int,
                center@,
                times(radius, radius),
            );
            &&& r.0.visits@ == all.visits
            &&& r.0.checked_points@ == all.checked
            &&& r.1 == all.hit
        }),
{
    proof {
        A::total_operators();
    }
    let mut search: Search<A> = Search { visits: Vec::new(), checked_points: Vec::new() };
    let hit: Option<[A; 3]> = search.search(tree, tree.root, center, radius * radius);
    proof {
        let all = course(tree.nodes@, tree.root as int, center@, times(radius, radius));
        assert(search.visits@ =~= all.visits);
        assert(search.checked_points@ =~= all.checked);
    }
    (search, hit)
}

// ---------------------------------------------------------------------------------------------
// What a search finds
// ---------------------------------------------------------------------------------------------

pub(crate) proof fn lemma_first_within<A: Axis>(points: Seq<[A; 3]>, c: Seq<A>, rsq: A)
    ensures
        first_within(points, c, rsq) matches Some(p) ==> points.contains(p) && le(
            distsq(p@, c),
            rsq,
        ),
        first_within(points, c, rsq) is Some <==> any_within(cloud(points), c, rsq),
    decreases points.len(),
{
    if points.len() > 0 {
        let rest = points.skip(1);
        lemma_first_within(rest, c, rsq);
        assert(cloud(points)[0] == points[0]@);
        assert(points.contains(points[0]));
        if let Some(p) = first_within(rest, c, rsq) {
            let i = choose|i: int| 0 <= i < rest.len() && rest[i] == p;
            assert(points[i + 1] == p);
        }
        if any_within(cloud(rest), c, rsq) {
            let i = choose|i: int|
                0 <= i < cloud(rest).len() && le(distsq(#[trigger] cloud(rest)[i], c), rsq);
            assert(cloud(points)[i + 1] == cloud(rest)[i]);
        }
        if any_within(cloud(points), c, rsq) && !le(distsq(points[0]@, c), rsq) {
            let i = choose|i: int|
                0 <= i < cloud(points).len() && le(distsq(#[trigger] cloud(points)[i], c), rsq);
            assert(cloud(rest)[i - 1] == cloud(points)[i]);
        }
    }
}

/// Whether the box of every node contains every point below it, and all of these are finite.
pub open spec fn boxed<A: Axis>(shape: Shape<A>) -> bool
    decreases shape,
{
    &&& finite(shape.bbox().lo) && finite(shape.bbox().hi)
    &&& shape.bbox().lo.len() == 3 && shape.bbox().hi.len() == 3
    &&& forall|i: int|
        0 <= i < shape.points().len() ==> finite((#[trigger] shape.points()[i])@) && contains(
            shape.bbox(),
            shape.points()[i]@,
        )
    &&& match shape {
        Shape::Leaf { .. } => true,
        Shape::Split { left, right, .. } => boxed(*left) && boxed(*right),
    }
}

/// Whether one of the points below lies within a squared distance of `rsq` from `c`.
pub open spec fn any_below<A: Axis>(shape: Shape<A>, c: Seq<A>, rsq: A) -> bool {
    any_within(cloud(shape.points()), c, rsq)
}

proof fn lemma_any_below<A: Axis>(a: Seq<[A; 3]>, b: Seq<[A; 3]>, c: Seq<A>, rsq: A)
    ensures
        any_within(cloud(a + b), c, rsq) <==> any_within(cloud(a), c, rsq) || any_within(
            cloud(b),
            c,
            rsq,
        ),
{
    let all = cloud(a + b);
    if any_within(all, c, rsq) {
        let i = choose|i: int| 0 <= i < all.len() && le(distsq(#[trigger] all[i], c), rsq);
        if i < a.len() {
            assert(cloud(a)[i] == all[i]);
        } else {
            assert(cloud(b)[i - a.len()] == all[i]);
        }
    }
    if any_within(cloud(a), c, rsq) {
        let i = choose|i: int| 0 <= i < a.len() && le(distsq(#[trigger] cloud(a)[i], c), rsq);
        assert(all[i] == cloud(a)[i]);
    }
    if any_within(cloud(b), c, rsq) {
        let i = choose|i: int| 0 <= i < b.len() && le(distsq(#[trigger] cloud(b)[i], c), rsq);
        assert(all[i + a.len()] == cloud(b)[i]);
    }
}

/// A search never makes up a hit: what it finds is one of the points, and close enough.
pub proof fn hit_is_a_point_in_range<A: Axis>(nodes: Seq<Node<A>>, i: int, c: Seq<A>, rsq: A)
    requires
        nodes_wf(nodes),
        0 <= i < nodes.len(),
    ensures
        course(nodes, i, c, rsq).hit matches Some(p) ==> shape_of(nodes, i).points().contains(p)
            && le(distsq(p@, c), rsq),
    decreases i,
{
    let n = nodes[i];
    assert(node_wf(nodes, i));
    match (n.left, n.right) {
        (Some(l), Some(r)) => {
            hit_is_a_point_in_range(nodes, l as int, c, rsq);
            hit_is_a_point_in_range(nodes, r as int, c, rsq);
            let a = shape_of(nodes, l as int).points();
            let b = shape_of(nodes, r as int).points();
            assert forall|p: [A; 3]| a.contains(p) || b.contains(p) implies (a + b).contains(p) by {
                if a.contains(p) {
                    let j = choose|j: int| 0 <= j < a.len() && a[j] == p;
                    assert((a + b)[j] == p);
                } else {
                    let j = choose|j: int| 0 <= j < b.len() && b[j] == p;
                    assert((a + b)[j + a.len()] == p);
                }
            }
        },
        _ => {
            lemma_first_within(n.points@, c, rsq);
        },
    }
}

/// Pruning loses nothing: a search finds a point exactly if checking every point does.
pub proof fn search_is_brute_force<A: Axis>(nodes: Seq<Node<A>>, i: int, c: Seq<A>, rsq: A)
    requires
        rounds_monotonically::<A>(),
        nodes_wf(nodes),
        0 <= i < nodes.len(),
        boxed(shape_of(nodes, i)),
        c.len() == 3,
    ensures
        course(nodes, i, c, rsq).hit is Some <==> any_below(shape_of(nodes, i), c, rsq),
    decreases i,
{
    let n = nodes[i];
    let shape = shape_of(nodes, i);
    assert(node_wf(nodes, i));
    if gt(n.bbox@.closest_distsq(c, 3), rsq) {
        if any_below(shape, c, rsq) {
            let points = shape.points();
            let j = choose|j: int|
                0 <= j < cloud(points).len() && le(distsq(#[trigger] cloud(points)[j], c), rsq);
            let p = points[j];
            assert(finite(p@) && contains(shape.bbox(), p@));
            assert(ordered(distsq(p@, c)));
            box_is_no_farther_than_its_points(shape.bbox(), p@, c, 3);
            assert(le(n.bbox@.closest_distsq(c, 3), rsq));
        }
    } else {
        match (n.left, n.right) {
            (Some(l), Some(r)) => {
                search_is_brute_force(nodes, l as int, c, rsq);
                search_is_brute_force(nodes, r as int, c, rsq);
                lemma_any_below(
                    shape_of(nodes, l as int).points(),
                    shape_of(nodes, r as int).points(),
                    c,
                    rsq,
                );
            },
            _ => {
                lemma_first_within(n.points@, c, rsq);
            },
        }
    }
}

pub(crate) proof fn lemma_box_of<A: Axis>(points: Seq<[A; 3]>)
    requires
        orders_values::<A>(),
        forall|i: int| 0 <= i < points.len() ==> finite((#[trigger] points[i])@),
    ensures
        box_of(points).lo.len() == 3 && box_of(points).hi.len() == 3,
        points.len() > 0 ==> finite(box_of(points).lo) && finite(box_of(points).hi),
        forall|i: int|
            0 <= i < points.len() ==> contains(box_of(points), (#[trigger] points[i])@),
        points.len() == 0 ==> forall|k: int|
            #![trigger box_of(points).lo[k]]
            0 <= k < 3 ==> box_of(points).lo[k] == A::INFINITY && box_of(points).hi[k]
                == A::NEG_INFINITY,
    decreases points.len(),
{
    if points.len() > 0 {
        let fewer = points.drop_last();
        let p = points[points.len() - 1];
        assert forall|i: int| 0 <= i < fewer.len() implies finite((#[trigger] fewer[i])@) by {
            assert(fewer[i] == points[i]);
        }
        lemma_box_of(fewer);
        let a = box_of(fewer);
        let b = Bounds::at(p@);
        let u = box_union(a, b);
        assert forall|k: int| 0 <= k < 3 implies {
            &&& (#[trigger] u.lo[k]).is_finite_spec()
            &&& u.hi[k].is_finite_spec()
            &&& le(u.lo[k], p@[k])
            &&& le(p@[k], u.hi[k])
            &&& le(u.lo[k], a.lo[k])
            &&& le(a.hi[k], u.hi[k])
        } by {
            let x = p@[k];
            assert(x.is_finite_spec());
            assert(a.lo[k] == a.lo[k]);
            assert(a.hi[k] == a.hi[k]);
            if fewer.len() == 0 {
                assert(lt_infinities(x));
            } else {
                assert(a.lo[k].is_finite_spec() && a.hi[k].is_finite_spec());
            }
            lemma_min_max(a.lo[k], a.hi[k], x);
        }
        assert forall|i: int| 0 <= i < points.len() implies contains(
            u,
            (#[trigger] points[i])@,
        ) by {
            let q = points[i]@;
            assert forall|k: int|
                #![trigger q[k]]
                0 <= k < q.len() implies le(u.lo[k], q[k]) && le(q[k], u.hi[k]) by {
                assert(u.lo[k] == u.lo[k]);
                if i < fewer.len() {
                    assert(fewer[i] == points[i]);
                    assert(contains(a, fewer[i]@));
                    assert(le(a.lo[k], q[k]) && le(q[k], a.hi[k]));
                }
            }
        }
    }
}

/// A finite value lies between the infinities.
spec fn lt_infinities<A: Axis>(x: A) -> bool {
    crate::axis::lt(x, A::INFINITY) && crate::axis::lt(A::NEG_INFINITY, x)
}

/// The smaller and the larger of two values that compare bound both.
proof fn lemma_min_max<A: Axis>(lo: A, hi: A, x: A)
    requires
        orders_values::<A>(),
        x.is_finite_spec(),
        lo.is_finite_spec() || lo == A::INFINITY,
        hi.is_finite_spec() || hi == A::NEG_INFINITY,
    ensures
        min_spec(lo, x).is_finite_spec(),
        max_spec(hi, x).is_finite_spec(),
        le(min_spec(lo, x), x),
        le(x, max_spec(hi, x)),
        le(min_spec(lo, x), lo),
        le(hi, max_spec(hi, x)),
{
    assert(lt_infinities(x));
    assert(ordered(x));
    assert(ordered(lo)) by {
        if lo == A::INFINITY {
            assert(le(x, A::INFINITY));
        }
    }
    assert(ordered(hi)) by {
        if hi == A::NEG_INFINITY {
            assert(le(A::NEG_INFINITY, x));
        }
    }
    assert(gt(x, hi) <==> crate::axis::lt(hi, x));
    if !crate::axis::lt(x, lo) {
        assert(le(lo, x));
    }
    if !crate::axis::lt(hi, x) {
        assert(le(x, hi));
    }
}

/// A tree that was built from finite points has every point in the boxes above it.
pub proof fn built_is_boxed<A: Axis>(items: Seq<Item<A>>, axis: int, cap: nat)
    requires
        orders_values::<A>(),
        0 < items.len() <= usize::MAX,
        cap > 0,
        forall|i: int| 0 <= i < items.len() ==> finite((#[trigger] items[i]).point@),
    ensures
        boxed(built(items, axis, cap)),
    decreases items.len(),
{
    let shape = built(items, axis, cap);
    if items.len() <= cap || items.len() <= 1 {
        let points = points_of(items);
        assert forall|i: int| 0 <= i < points.len() implies finite((#[trigger] points[i])@) by {
            assert(points[i] == items[i].point);
        }
        lemma_box_of(points);
    } else {
        let sorted = crate::tree::along(items, axis);
        let mid = (items.len() / 2) as int;
        let lhs = sorted.take(mid);
        let rhs = sorted.skip(mid);
        crate::tree::lemma_along(items, axis);
        sorted.to_multiset_ensures();
        items.to_multiset_ensures();
        assert forall|i: int| 0 <= i < sorted.len() implies finite((#[trigger] sorted[i]).point@) by {
            assert(sorted.contains(sorted[i]));
            assert(sorted.to_multiset().count(sorted[i]) > 0);
            assert(items.contains(sorted[i]));
            let j = choose|j: int| 0 <= j < items.len() && items[j] == sorted[i];
            assert(finite(items[j].point@));
        }
        assert forall|i: int| 0 <= i < lhs.len() implies finite((#[trigger] lhs[i]).point@) by {
            assert(lhs[i] == sorted[i]);
        }
        assert forall|i: int| 0 <= i < rhs.len() implies finite((#[trigger] rhs[i]).point@) by {
            assert(rhs[i] == sorted[i + mid]);
        }
        built_is_boxed(lhs, (axis + 1) % 3, cap);
        built_is_boxed(rhs, (axis + 1) % 3, cap);
        let left = built(lhs, (axis + 1) % 3, cap);
        let right = built(rhs, (axis + 1) % 3, cap);
        lemma_union_contains(left, right, shape.bbox());
        assert(shape.points() == left.points() + right.points());
    }
}

proof fn lemma_union_contains<A: Axis>(left: Shape<A>, right: Shape<A>, u: Bounds<A>)
    requires
        orders_values::<A>(),
        boxed(left),
        boxed(right),
        u == box_union(left.bbox(), right.bbox()),
    ensures
        finite(u.lo) && finite(u.hi),
        u.lo.len() == 3 && u.hi.len() == 3,
        forall|i: int|
            0 <= i < (left.points() + right.points()).len() ==> finite(
                (#[trigger] (left.points() + right.points())[i])@,
            ) && contains(u, (left.points() + right.points())[i]@),
{
    let a = left.bbox();
    let b = right.bbox();
    assert forall|k: int| 0 <= k < 3 implies {
        &&& (#[trigger] u.lo[k]).is_finite_spec()
        &&& u.hi[k].is_finite_spec()
        &&& le(u.lo[k], a.lo[k])
        &&& le(u.lo[k], b.lo[k])
        &&& le(a.hi[k], u.hi[k])
        &&& le(b.hi[k], u.hi[k])
    } by {
        assert(a.lo[k].is_finite_spec() && a.hi[k].is_finite_spec());
        assert(b.lo[k].is_finite_spec() && b.hi[k].is_finite_spec());
        lemma_min_max(a.lo[k], a.hi[k], b.lo[k]);
        lemma_min_max(a.lo[k], a.hi[k], b.hi[k]);
    }
    assert forall|k: int| 0 <= k < 3 implies (#[trigger] u.hi[k]).is_finite_spec() by {
        assert(u.lo[k].is_finite_spec());
    }
    let all = left.points() + right.points();
    assert forall|i: int| 0 <= i < all.len() implies finite((#[trigger] all[i])@) && contains(
        u,
        all[i]@,
    ) by {
        let q = all[i]@;
        if i < left.points().len() {
            assert(all[i] == left.points()[i]);
            assert(contains(a, left.points()[i]@));
        } else {
            assert(all[i] == right.points()[i - left.points().len()]);
            assert(contains(b, right.points()[i - left.points().len()]@));
        }
        assert forall|k: int|
            #![trigger q[k]]
            0 <= k < q.len() implies le(u.lo[k], q[k]) && le(q[k], u.hi[k]) by {
            assert(u.lo[k].is_finite_spec());
            if i < left.points().len() {
                assert(le(a.lo[k], q[k]) && le(q[k], a.hi[k]));
            } else {
                assert(le(b.lo[k], q[k]) && le(q[k], b.hi[k]));
            }
        }
    }
}

/// Whether both sides of `b` on axis `k` touch one of `points`.
pub open spec fn touches_on<A: Axis>(b: Bounds<A>, points: Seq<[A; 3]>, k: int) -> bool {
    &&& exists|i: int| 0 <= i < points.len() && (#[trigger] points[i])@[k] == b.lo[k]
    &&& exists|i: int| 0 <= i < points.len() && (#[trigger] points[i])@[k] == b.hi[k]
}

/// Whether every side of `b` touches one of `points`.
pub open spec fn touches<A: Axis>(b: Bounds<A>, points: Seq<[A; 3]>) -> bool {
    forall|k: int| 0 <= k < 3 ==> #[trigger] touches_on(b, points, k)
}

/// Whether the box of every node touches points below it on every side: with [`boxed`], that it is
/// the smallest box over them.
pub open spec fn tight<A: Axis>(shape: Shape<A>) -> bool
    decreases shape,
{
    &&& touches(shape.bbox(), shape.points())
    &&& match shape {
        Shape::Leaf { .. } => true,
        Shape::Split { left, right, .. } => tight(*left) && tight(*right),
    }
}

proof fn lemma_touches_more<A: Axis>(
    b: Bounds<A>,
    some: Seq<[A; 3]>,
    all: Seq<[A; 3]>,
    shift: int,
    k: int,
)
    requires
        touches(b, some),
        0 <= k < 3,
        0 <= shift,
        shift + some.len() <= all.len(),
        forall|i: int| 0 <= i < some.len() ==> #[trigger] some[i] == all[i + shift],
    ensures
        touches_on(b, all, k),
{
    assert(touches_on(b, some, k));
    let i = choose|i: int| 0 <= i < some.len() && (#[trigger] some[i])@[k] == b.lo[k];
    assert(all[i + shift]@[k] == b.lo[k]);
    let j = choose|j: int| 0 <= j < some.len() && (#[trigger] some[j])@[k] == b.hi[k];
    assert(all[j + shift]@[k] == b.hi[k]);
}

proof fn lemma_box_touches<A: Axis>(points: Seq<[A; 3]>)
    requires
        orders_values::<A>(),
        points.len() > 0,
        forall|i: int| 0 <= i < points.len() ==> finite((#[trigger] points[i])@),
    ensures
        touches(box_of(points), points),
    decreases points.len(),
{
    let fewer = points.drop_last();
    let last = points.len() - 1;
    let p = points[last];
    let b = box_of(points);
    assert forall|i: int| 0 <= i < fewer.len() implies finite((#[trigger] fewer[i])@) by {
        assert(fewer[i] == points[i]);
    }
    lemma_box_of(fewer);
    if fewer.len() > 0 {
        lemma_box_touches(fewer);
    }
    assert forall|k: int| 0 <= k < 3 implies #[trigger] touches_on(b, points, k) by {
        let a = box_of(fewer);
        assert(points[last]@[k] == p@[k]);
        assert(p@[k].is_finite_spec());
        if fewer.len() == 0 {
            assert(a.lo[k] == A::INFINITY && a.hi[k] == A::NEG_INFINITY);
            assert(lt_infinities(p@[k]));
            assert(gt(p@[k], A::NEG_INFINITY));
        } else {
            lemma_touches_more(a, fewer, points, 0, k);
        }
    }
}

proof fn lemma_union_touches<A: Axis>(
    a: Bounds<A>,
    some: Seq<[A; 3]>,
    b: Bounds<A>,
    others: Seq<[A; 3]>,
    all: Seq<[A; 3]>,
)
    requires
        touches(a, some),
        touches(b, others),
        all == some + others,
    ensures
        touches(box_union(a, b), all),
{
    let u = box_union(a, b);
    assert forall|k: int| 0 <= k < 3 implies #[trigger] touches_on(u, all, k) by {
        lemma_touches_more(a, some, all, 0, k);
        lemma_touches_more(b, others, all, some.len() as int, k);
        assert(u.lo[k] == a.lo[k] || u.lo[k] == b.lo[k]);
        assert(u.hi[k] == a.hi[k] || u.hi[k] == b.hi[k]);
    }
}

/// A tree that was built from finite points has the smallest boxes.
pub proof fn built_is_tight<A: Axis>(items: Seq<Item<A>>, axis: int, cap: nat)
    requires
        orders_values::<A>(),
        0 < items.len() <= usize::MAX,
        cap > 0,
        forall|i: int| 0 <= i < items.len() ==> finite((#[trigger] items[i]).point@),
    ensures
        tight(built(items, axis, cap)),
    decreases items.len(),
{
    let shape = built(items, axis, cap);
    if items.len() <= cap || items.len() <= 1 {
        let points = points_of(items);
        assert forall|i: int| 0 <= i < points.len() implies finite((#[trigger] points[i])@) by {
            assert(points[i] == items[i].point);
        }
        lemma_box_touches(points);
        assert(touches(shape.bbox(), shape.points()));
    } else {
        let sorted = crate::tree::along(items, axis);
        let mid = (items.len() / 2) as int;
        let lhs = sorted.take(mid);
        let rhs = sorted.skip(mid);
        crate::tree::along_is_ascending(items, axis);
        assert forall|i: int| 0 <= i < sorted.len() implies finite((#[trigger] sorted[i]).point@) by {
            let j = choose|j: int| 0 <= j < items.len() && items[j] == sorted[i];
            assert(finite(items[j].point@));
        }
        assert forall|i: int| 0 <= i < lhs.len() implies finite((#[trigger] lhs[i]).point@) by {
            assert(lhs[i] == sorted[i]);
        }
        assert forall|i: int| 0 <= i < rhs.len() implies finite((#[trigger] rhs[i]).point@) by {
            assert(rhs[i] == sorted[i + mid]);
        }
        built_is_tight(lhs, (axis + 1) % 3, cap);
        built_is_tight(rhs, (axis + 1) % 3, cap);
        let left = built(lhs, (axis + 1) % 3, cap);
        let right = built(rhs, (axis + 1) % 3, cap);
        let all = left.points() + right.points();
        lemma_union_touches(left.bbox(), left.points(), right.bbox(), right.points(), all);
        assert(shape.points() == all);
        assert(tight(left) && tight(right));
    }
}

} // verus!

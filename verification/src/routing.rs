//! Where searches of a tree go.
//!
//! A descent follows the splits, and so ends in the leaf whose box holds the center; a search with
//! pruning goes to the near side first and stops at the first point in range.

use crate::aabb::{cloud, finite, Bounds};
use crate::axis::{gt, le, lt, times, Axis};
use crate::capt_search::{
    afforded, descent, found, query_inside_a_leaf_is_brute_force, squares_evenly,
};
use crate::exact::{exact_times, stands_for};
use crate::kd_search::{
    boxed, built_is_boxed, built_is_tight, checked_of, course, first_within, tight, touches_on,
    Visit,
};
use crate::laws::{contains, orders_values, rounds_monotonically};
use crate::scan::{any_within, distsq, distsq_upto};
use crate::tree::{
    along, along_is_ascending, built, built_holds_its_points, built_splits_in_order, keys_follow_coordinates, node_wf,
    nodes_wf, points_of, shape_of, splits_in_order, Item, Node, Shape,
};
use vstd::prelude::*;

verus! {

// ---------------------------------------------------------------------------------------------
// Descents
// ---------------------------------------------------------------------------------------------

/// Whether `b` is a child of `a`.
pub open spec fn is_child<A: Axis>(nodes: Seq<Node<A>>, a: usize, b: usize) -> bool {
    nodes[a as int].left == Some(b) || nodes[a as int].right == Some(b)
}

/// Whether `way` leads from node `i` to a leaf, each time from a node to one of its children.
pub open spec fn leads_down<A: Axis>(nodes: Seq<Node<A>>, i: int, way: Seq<usize>) -> bool {
    &&& way.len() > 0
    &&& way[0] == i
    &&& forall|j: int| 0 <= j < way.len() ==> 0 <= #[trigger] way[j] < nodes.len()
    &&& nodes[way.last() as int].left is None
    &&& nodes[way.last() as int].right is None
    &&& forall|j: int, k: int|
        #![trigger way[j], way[k]]
        0 <= j < way.len() && k == j + 1 && k < way.len() ==> is_child(nodes, way[j], way[k])
}

/// A descent leads from its first node to a leaf. At each node it goes left exactly where the
/// coordinate of the center on the axis of the node is at most the split value, and right
/// otherwise.
pub proof fn descent_follows_the_splits<A: Axis>(nodes: Seq<Node<A>>, i: int, c: Seq<A>)
    requires
        nodes_wf(nodes),
        0 <= i < nodes.len() <= usize::MAX,
    ensures
        leads_down(nodes, i, descent(nodes, i, c)),
        forall|j: int, k: int|
            #![trigger descent(nodes, i, c)[j], descent(nodes, i, c)[k]]
            0 <= j < descent(nodes, i, c).len() && k == j + 1 && k < descent(nodes, i, c).len()
                ==> {
                let n = nodes[descent(nodes, i, c)[j] as int];
                let next = descent(nodes, i, c)[k];
                &&& le(c[n.axis as int], n.test) ==> n.left == Some(next)
                &&& !le(c[n.axis as int], n.test) ==> n.right == Some(next)
            },
    decreases i,
{
    let n = nodes[i];
    let path = descent(nodes, i, c);
    assert(node_wf(nodes, i));
    match (n.left, n.right) {
        (Some(l), Some(r)) => {
            let next = if le(c[n.axis as int], n.test) {
                l
            } else {
                r
            };
            descent_follows_the_splits(nodes, next as int, c);
            let rest = descent(nodes, next as int, c);
            assert(path =~= seq![i as usize] + rest);
            assert(forall|j: int| 0 < j < path.len() ==> #[trigger] path[j] == rest[j - 1]);
            assert(path.last() == rest.last());
            assert forall|j: int, k: int|
                #![trigger path[j], path[k]]
                0 <= j < path.len() && k == j + 1 && k < path.len() implies {
                let m = nodes[path[j] as int];
                &&& is_child(nodes, path[j], path[k])
                &&& le(c[m.axis as int], m.test) ==> m.left == Some(path[k])
                &&& !le(c[m.axis as int], m.test) ==> m.right == Some(path[k])
            } by {
                assert(path[k] == rest[k - 1]);
                if j > 0 {
                    assert(path[j] == rest[j - 1]);
                    assert(is_child(nodes, rest[j - 1], rest[k - 1]));
                } else {
                    assert(rest[0] == next);
                }
            }
        },
        _ => {},
    }
}

/// Whether `c` is told apart from the split values of the nodes of `way`, each on its axis.
pub open spec fn off_the_splits<A: Axis>(nodes: Seq<Node<A>>, way: Seq<usize>, c: Seq<A>) -> bool {
    forall|j: int|
        #![trigger way[j]]
        0 <= j < way.len() - 1 ==> {
            let n = nodes[way[j] as int];
            !(le(c[n.axis as int], n.test) && le(n.test, c[n.axis as int]))
        }
}

proof fn lemma_way<A: Axis>(nodes: Seq<Node<A>>, i: int, way: Seq<usize>, c: Seq<A>)
    requires
        orders_values::<A>(),
        nodes_wf(nodes),
        0 <= i < nodes.len() <= usize::MAX,
        splits_in_order(shape_of(nodes, i)),
        boxed(shape_of(nodes, i)),
        tight(shape_of(nodes, i)),
        leads_down(nodes, i, way),
        off_the_splits(nodes, way, c),
        c.len() == 3,
        contains(nodes[way.last() as int].bbox@, c),
    ensures
        descent(nodes, i, c) == way,
        boxed(shape_of(nodes, way.last() as int)),
        tight(shape_of(nodes, way.last() as int)),
        forall|p: [A; 3]| #[trigger]
            nodes[way.last() as int].points@.contains(p) ==> shape_of(nodes, i).points().contains(
                p,
            ),
    decreases way.len(),
{
    let n = nodes[i];
    assert(node_wf(nodes, i));
    if way.len() == 1 {
        assert(way =~= seq![i as usize]);
    } else {
        let rest = way.skip(1);
        let next = rest[0];
        assert(is_child(nodes, way[0], way[1]));
        assert(forall|j: int| 0 <= j < rest.len() ==> #[trigger] rest[j] == way[j + 1]);
        assert(rest.last() == way.last());
        assert forall|j: int, k: int|
            #![trigger rest[j], rest[k]]
            0 <= j < rest.len() && k == j + 1 && k < rest.len() implies is_child(
            nodes,
            rest[j],
            rest[k],
        ) by {
            assert(is_child(nodes, way[j + 1], way[k + 1]));
        }
        assert(leads_down(nodes, next as int, rest));
        assert(off_the_splits(nodes, rest, c));
        let l = n.left->0;
        let r = n.right->0;
        lemma_way(nodes, next as int, rest, c);
        let left = shape_of(nodes, l as int);
        let right = shape_of(nodes, r as int);
        let shape = shape_of(nodes, i);
        assert(shape.points() == left.points() + right.points());
        let m = way.last() as int;
        let b = nodes[m].bbox@;
        let points = nodes[m].points@;
        let k = n.axis as int;
        assert(shape_of(nodes, m).points() == points);
        assert(touches_on(b, points, k));
        assert(way[0] == i);
        let below = shape_of(nodes, next as int).points();
        let u = choose|u: int| 0 <= u < points.len() && (#[trigger] points[u])@[k] == b.hi[k];
        let v = choose|v: int| 0 <= v < points.len() && (#[trigger] points[v])@[k] == b.lo[k];
        assert(points.contains(points[u]) && points.contains(points[v]));
        assert(below.contains(points[u]) && below.contains(points[v]));
        let x = choose|x: int| 0 <= x < below.len() && below[x] == points[u];
        let y = choose|y: int| 0 <= y < below.len() && below[y] == points[v];
        assert(le(b.lo[k], c[k]) && le(c[k], b.hi[k]));
        if next == l && (next != r || le(c[k], n.test)) {
            assert(le(left.points()[x]@[k], n.test));
            assert(le(c[k], n.test));
        } else {
            assert(next == r);
            assert(le(n.test, right.points()[y]@[k]));
            assert(le(n.test, c[k]));
        }
        assert(descent(nodes, i, c) =~= way);
        assert forall|p: [A; 3]| #[trigger] points.contains(p) implies shape.points().contains(
            p,
        ) by {
            assert(below.contains(p));
            let z = choose|z: int| 0 <= z < below.len() && below[z] == p;
            if next == l {
                assert(shape.points()[z] == p);
            } else {
                assert(shape.points()[z + left.points().len()] == p);
            }
        }
    }
}

/// Where the center lies in the box of a leaf, and on none of the splits above it, the descent ends
/// in that leaf.
pub proof fn descent_ends_in_the_leaf_of_the_center<A: Axis>(
    nodes: Seq<Node<A>>,
    i: int,
    way: Seq<usize>,
    c: Seq<A>,
)
    requires
        orders_values::<A>(),
        nodes_wf(nodes),
        0 <= i < nodes.len() <= usize::MAX,
        splits_in_order(shape_of(nodes, i)),
        boxed(shape_of(nodes, i)),
        tight(shape_of(nodes, i)),
        leads_down(nodes, i, way),
        off_the_splits(nodes, way, c),
        c.len() == 3,
        contains(nodes[way.last() as int].bbox@, c),
    ensures
        descent(nodes, i, c) == way,
{
    lemma_way(nodes, i, way, c);
}

/// In a tree that was built from finite points, a query whose center lies in the box of a leaf, on
/// none of the splits above it, and whose radius the tree affords, finds a point exactly if checking
/// every point does.
pub proof fn query_in_a_box_is_brute_force<A: Axis>(
    nodes: Seq<Node<A>>,
    root: int,
    way: Seq<usize>,
    items: Seq<Item<A>>,
    cap: nat,
    points: Seq<[A; 3]>,
    rsq_max: A,
    c: Seq<A>,
    rsq: A,
)
    requires
        rounds_monotonically::<A>(),
        squares_evenly::<A>(),
        nodes_wf(nodes),
        0 <= root < nodes.len() <= usize::MAX,
        0 < items.len() <= usize::MAX,
        cap > 0,
        keys_follow_coordinates(items),
        forall|i: int| 0 <= i < items.len() ==> finite((#[trigger] items[i]).point@),
        shape_of(nodes, root) == built(items, 0, cap),
        forall|i: int| 0 <= i < points.len() ==> finite((#[trigger] points[i])@),
        leads_down(nodes, root, way),
        off_the_splits(nodes, way, c),
        c.len() == 3,
        finite(c),
        contains(nodes[way.last() as int].bbox@, c),
        le(rsq, rsq_max),
    ensures
        descent(nodes, root, c) == way,
        found(nodes, descent(nodes, root, c).last() as int, points, rsq_max, c, rsq) is Some
            <==> any_within(cloud(points), c, rsq),
{
    built_splits_in_order(items, 0, cap);
    built_is_boxed(items, 0, cap);
    built_is_tight(items, 0, cap);
    lemma_way(nodes, root, way, c);
    let m = way.last() as int;
    assert(shape_of(nodes, m).bbox() == nodes[m].bbox@);
    query_inside_a_leaf_is_brute_force(nodes, m, points, rsq_max, c, rsq);
}

/// In a tree that was built from finite points, a query whose center lies in the box of a leaf, on
/// none of the splits above it, and whose radius is at most the maximum radius, finds a point exactly
/// if one lies within the radius.
pub proof fn query_up_to_the_maximum_radius_is_brute_force<A: Axis>(
    value: spec_fn(A) -> real,
    nodes: Seq<Node<A>>,
    root: int,
    way: Seq<usize>,
    items: Seq<Item<A>>,
    cap: nat,
    points: Seq<[A; 3]>,
    r_max: A,
    c: Seq<A>,
    radius: A,
)
    requires
        rounds_monotonically::<A>(),
        squares_evenly::<A>(),
        stands_for(value),
        exact_times(value, radius, radius),
        exact_times(value, r_max, r_max),
        0 as real <= value(radius),
        value(radius) <= value(r_max),
        nodes_wf(nodes),
        0 <= root < nodes.len() <= usize::MAX,
        0 < items.len() <= usize::MAX,
        cap > 0,
        keys_follow_coordinates(items),
        forall|i: int| 0 <= i < items.len() ==> finite((#[trigger] items[i]).point@),
        shape_of(nodes, root) == built(items, 0, cap),
        forall|i: int| 0 <= i < points.len() ==> finite((#[trigger] points[i])@),
        leads_down(nodes, root, way),
        off_the_splits(nodes, way, c),
        c.len() == 3,
        finite(c),
        contains(nodes[way.last() as int].bbox@, c),
    ensures
        found(
            nodes,
            descent(nodes, root, c).last() as int,
            points,
            times(r_max, r_max),
            c,
            times(radius, radius),
        ) is Some <==> any_within(cloud(points), c, times(radius, radius)),
{
    let a = value(radius);
    let b = value(r_max);
    assert(a * a <= b * b) by (nonlinear_arith)
        requires
            0 as real <= a,
            a <= b,
    ;
    assert(le(times(radius, radius), times(r_max, r_max)));
    query_in_a_box_is_brute_force(
        nodes,
        root,
        way,
        items,
        cap,
        points,
        times(r_max, r_max),
        c,
        times(radius, radius),
    );
}

// ---------------------------------------------------------------------------------------------
// Searches with pruning
// ---------------------------------------------------------------------------------------------

/// Points are checked in order up to the first that is close enough, which is found; where there is
/// none, all of them are checked.
pub proof fn checking_stops_at_the_first_hit<A: Axis>(
    points: Seq<[A; 3]>,
    c: Seq<A>,
    rsq: A,
) -> (n: int)
    ensures
        0 <= n <= points.len(),
        forall|i: int| 0 <= i < n ==> !le(distsq((#[trigger] points[i])@, c), rsq),
        n < points.len() ==> {
            &&& le(distsq(points[n]@, c), rsq)
            &&& first_within(points, c, rsq) == Some(points[n])
            &&& checked_of(points, c, rsq) == points.take(n + 1)
        },
        n == points.len() ==> first_within(points, c, rsq) is None && checked_of(points, c, rsq)
            == points,
    decreases points.len(),
{
    if points.len() == 0 {
        assert(checked_of(points, c, rsq) =~= points);
        0
    } else if le(distsq(points[0]@, c), rsq) {
        assert(checked_of(points, c, rsq) =~= points.take(1));
        0
    } else {
        let rest = points.skip(1);
        let m = checking_stops_at_the_first_hit(rest, c, rsq);
        assert forall|i: int| 0 <= i < m + 1 implies !le(
            distsq((#[trigger] points[i])@, c),
            rsq,
        ) by {
            if i > 0 {
                assert(rest[i - 1] == points[i]);
            }
        }
        if m < rest.len() {
            assert(rest[m] == points[m + 1]);
            assert(checked_of(points, c, rsq) =~= points.take(m + 2));
        } else {
            assert(checked_of(points, c, rsq) =~= points);
        }
        m + 1
    }
}

/// Whether a visit is what the node calls for: a node whose box is out of range is pruned, a leaf
/// is checked, and from any other node the search descends.
pub open spec fn visit_fits<A: Axis>(
    nodes: Seq<Node<A>>,
    visit: (usize, Visit),
    c: Seq<A>,
    rsq: A,
) -> bool {
    let n = nodes[visit.0 as int];
    let out_of_range = gt(n.bbox@.closest_distsq(c, 3), rsq);
    &&& 0 <= visit.0 < nodes.len()
    &&& visit.1 == Visit::Pruned <==> out_of_range
    &&& visit.1 == Visit::Leaf <==> !out_of_range && n.left is None
    &&& visit.1 == Visit::Descend <==> !out_of_range && n.left is Some
}

/// Whether the search found nothing where it made this visit.
pub open spec fn finds_nothing<A: Axis>(
    nodes: Seq<Node<A>>,
    visit: (usize, Visit),
    c: Seq<A>,
    rsq: A,
) -> bool {
    visit.1 == Visit::Leaf ==> !any_within(cloud(nodes[visit.0 as int].points@), c, rsq)
}

/// The child of a node on the side of the center, and the other one.
pub open spec fn sides<A: Axis>(n: Node<A>, c: Seq<A>) -> (usize, usize) {
    if le(c[n.axis as int], n.test) {
        (n.left->0, n.right->0)
    } else {
        (n.right->0, n.left->0)
    }
}

/// Whether after visit `j`, if it does not end there, a search goes to the child on the side of the
/// center.
pub open spec fn goes_near<A: Axis>(
    nodes: Seq<Node<A>>,
    visits: Seq<(usize, Visit)>,
    c: Seq<A>,
    j: int,
) -> bool {
    visits[j].1 == Visit::Descend ==> j + 1 < visits.len() && visits[j + 1].0 == sides(
        nodes[visits[j].0 as int],
        c,
    ).0
}

/// Whether each of `visits` is what the node calls for, nothing is found before the last, and from
/// each node that is not pruned the next visit is to the child on the side of the center.
pub open spec fn are_visits<A: Axis>(
    nodes: Seq<Node<A>>,
    visits: Seq<(usize, Visit)>,
    c: Seq<A>,
    rsq: A,
) -> bool {
    &&& visits.len() > 0
    &&& forall|j: int| 0 <= j < visits.len() ==> visit_fits(nodes, #[trigger] visits[j], c, rsq)
    &&& forall|j: int|
        0 <= j < visits.len() - 1 ==> finds_nothing(nodes, #[trigger] visits[j], c, rsq)
    &&& forall|j: int| 0 <= j < visits.len() ==> #[trigger] goes_near(nodes, visits, c, j)
}

proof fn lemma_visits_after<A: Axis>(
    nodes: Seq<Node<A>>,
    a: Seq<(usize, Visit)>,
    b: Seq<(usize, Visit)>,
    c: Seq<A>,
    rsq: A,
)
    requires
        are_visits(nodes, a, c, rsq),
        are_visits(nodes, b, c, rsq),
        finds_nothing(nodes, a.last(), c, rsq),
    ensures
        are_visits(nodes, a + b, c, rsq),
        (a + b).last() == b.last(),
{
    let all = a + b;
    let x = a.len() as int;
    assert(forall|j: int| 0 <= j < x ==> #[trigger] all[j] == a[j]);
    assert(forall|j: int| x <= j < all.len() ==> #[trigger] all[j] == b[j - x]);
    assert forall|j: int| 0 <= j < all.len() - 1 implies finds_nothing(
        nodes,
        #[trigger] all[j],
        c,
        rsq,
    ) by {
        if j == x - 1 {
            assert(all[j] == a.last());
        }
    }
    assert forall|j: int| 0 <= j < all.len() implies #[trigger] goes_near(nodes, all, c, j) by {
        if j < x {
            assert(goes_near(nodes, a, c, j));
        } else {
            assert(goes_near(nodes, b, c, j - x));
        }
    }
}

proof fn lemma_visits_below<A: Axis>(
    nodes: Seq<Node<A>>,
    head: (usize, Visit),
    a: Seq<(usize, Visit)>,
    c: Seq<A>,
    rsq: A,
)
    requires
        visit_fits(nodes, head, c, rsq),
        head.1 == Visit::Descend,
        are_visits(nodes, a, c, rsq),
        a[0].0 == sides(nodes[head.0 as int], c).0,
    ensures
        are_visits(nodes, seq![head] + a, c, rsq),
        (seq![head] + a).last() == a.last(),
{
    let all = seq![head] + a;
    assert(forall|j: int| 1 <= j < all.len() ==> #[trigger] all[j] == a[j - 1]);
    assert forall|j: int| 0 <= j < all.len() implies #[trigger] goes_near(nodes, all, c, j) by {
        if j > 0 {
            assert(goes_near(nodes, a, c, j - 1));
        }
    }
}

/// A search visits each node as its box and its children call for, from a node that it does not
/// prune going to the child on the side of the center next. It finds nothing before its last visit;
/// what it finds, it finds there.
pub proof fn search_goes_to_the_near_side_first<A: Axis>(
    nodes: Seq<Node<A>>,
    i: int,
    c: Seq<A>,
    rsq: A,
)
    requires
        nodes_wf(nodes),
        0 <= i < nodes.len() <= usize::MAX,
    ensures
        ({
            let r = course(nodes, i, c, rsq);
            &&& are_visits(nodes, r.visits, c, rsq)
            &&& r.visits[0].0 == i
            &&& r.hit is None ==> finds_nothing(nodes, r.visits.last(), c, rsq)
            &&& r.hit is Some ==> r.visits.last().1 == Visit::Leaf && r.hit == first_within(
                nodes[r.visits.last().0 as int].points@,
                c,
                rsq,
            )
        }),
    decreases i,
{
    let n = nodes[i];
    assert(node_wf(nodes, i));
    let r = course(nodes, i, c, rsq);
    if gt(n.bbox@.closest_distsq(c, 3), rsq) {
        assert(goes_near(nodes, r.visits, c, 0));
    } else if n.left is None {
        assert(goes_near(nodes, r.visits, c, 0));
        let m = checking_stops_at_the_first_hit(n.points@, c, rsq);
        let rows = cloud(n.points@);
        if m == n.points@.len() && any_within(rows, c, rsq) {
            let j = choose|j: int| 0 <= j < rows.len() && le(distsq(#[trigger] rows[j], c), rsq);
            assert(!le(distsq(n.points@[j]@, c), rsq));
        }
    } else {
        let (near, far) = sides(n, c);
        search_goes_to_the_near_side_first(nodes, near as int, c, rsq);
        search_goes_to_the_near_side_first(nodes, far as int, c, rsq);
        let first = course(nodes, near as int, c, rsq);
        let second = course(nodes, far as int, c, rsq);
        let head = (i as usize, Visit::Descend);
        lemma_visits_below(nodes, head, first.visits, c, rsq);
        if first.hit is None {
            lemma_visits_after(nodes, seq![head] + first.visits, second.visits, c, rsq);
        }
    }
}

/// Whether node `i` was visited.
pub open spec fn is_visited(visits: Seq<(usize, Visit)>, i: usize) -> bool {
    exists|j: int| 0 <= j < visits.len() && (#[trigger] visits[j]).0 == i
}

/// A search that finds nothing leaves nothing out but what it prunes: from each node that it
/// descends from, it visits both children.
pub proof fn search_without_a_hit_goes_everywhere<A: Axis>(
    nodes: Seq<Node<A>>,
    i: int,
    c: Seq<A>,
    rsq: A,
)
    requires
        nodes_wf(nodes),
        0 <= i < nodes.len() <= usize::MAX,
        course(nodes, i, c, rsq).hit is None,
    ensures
        is_visited(course(nodes, i, c, rsq).visits, i as usize),
        forall|j: int|
            #![trigger course(nodes, i, c, rsq).visits[j]]
            0 <= j < course(nodes, i, c, rsq).visits.len() && course(nodes, i, c, rsq).visits[j].1
                == Visit::Descend ==> {
                let n = nodes[course(nodes, i, c, rsq).visits[j].0 as int];
                &&& is_visited(course(nodes, i, c, rsq).visits, n.left->0)
                &&& is_visited(course(nodes, i, c, rsq).visits, n.right->0)
            },
    decreases i,
{
    let n = nodes[i];
    assert(node_wf(nodes, i));
    let all = course(nodes, i, c, rsq).visits;
    assert(all[0].0 == i);
    if !gt(n.bbox@.closest_distsq(c, 3), rsq) && n.left is Some {
        let (near, far) = sides(n, c);
        search_without_a_hit_goes_everywhere(nodes, near as int, c, rsq);
        search_without_a_hit_goes_everywhere(nodes, far as int, c, rsq);
        let a = course(nodes, near as int, c, rsq).visits;
        let b = course(nodes, far as int, c, rsq).visits;
        let x = a.len() as int;
        assert(all =~= seq![(i as usize, Visit::Descend)] + a + b);
        assert forall|m: usize| is_visited(a, m) || is_visited(b, m) implies #[trigger] is_visited(
            all,
            m,
        ) by {
            if is_visited(a, m) {
                let j = choose|j: int| 0 <= j < a.len() && (#[trigger] a[j]).0 == m;
                assert(all[j + 1] == a[j]);
            } else {
                let j = choose|j: int| 0 <= j < b.len() && (#[trigger] b[j]).0 == m;
                assert(all[j + 1 + x] == b[j]);
            }
        }
        assert(is_visited(all, near) && is_visited(all, far));
        assert forall|j: int|
            #![trigger all[j]]
            0 <= j < all.len() && all[j].1 == Visit::Descend implies {
            let m = nodes[all[j].0 as int];
            &&& is_visited(all, m.left->0)
            &&& is_visited(all, m.right->0)
        } by {
            if j == 0 {
            } else if j < 1 + x {
                assert(all[j] == a[j - 1]);
                let m = nodes[a[j - 1].0 as int];
                assert(is_visited(a, m.left->0) && is_visited(a, m.right->0));
            } else {
                assert(all[j] == b[j - 1 - x]);
                let m = nodes[b[j - 1 - x].0 as int];
                assert(is_visited(b, m.left->0) && is_visited(b, m.right->0));
            }
        }
    }
}

/// Whether every split has more than `cap` points below it.
pub open spec fn splits_above<A: Axis>(shape: Shape<A>, cap: nat) -> bool
    decreases shape,
{
    match shape {
        Shape::Leaf { .. } => true,
        Shape::Split { left, right, .. } => {
            &&& shape.points().len() > cap
            &&& splits_above(*left, cap)
            &&& splits_above(*right, cap)
        },
    }
}

/// A tree is split only where there are more points than fit in a leaf.
pub proof fn built_splits_only_above_the_capacity<A: Axis>(items: Seq<Item<A>>, axis: int, cap: nat)
    requires
        items.len() <= usize::MAX,
        cap > 0,
    ensures
        splits_above(built(items, axis, cap), cap),
        built(items, axis, cap).points().len() == items.len(),
    decreases items.len(),
{
    if items.len() > cap && items.len() > 1 {
        let sorted = along(items, axis);
        let mid = (items.len() / 2) as int;
        built_splits_only_above_the_capacity(sorted.take(mid), (axis + 1) % 3, cap);
        built_splits_only_above_the_capacity(sorted.skip(mid), (axis + 1) % 3, cap);
    }
}

/// Whether one of `points` has the coordinate `x` on axis `k`.
pub open spec fn has_coordinate<A: Axis>(points: Seq<[A; 3]>, k: int, x: A) -> bool {
    exists|i: int| 0 <= i < points.len() && (#[trigger] points[i])@[k] == x
}

/// Whether every split value is the coordinate of a point on the right.
pub open spec fn splits_at_points<A: Axis>(shape: Shape<A>) -> bool
    decreases shape,
{
    match shape {
        Shape::Leaf { .. } => true,
        Shape::Split { axis, test, left, right, .. } => {
            &&& has_coordinate(right.points(), axis, test)
            &&& splits_at_points(*left)
            &&& splits_at_points(*right)
        },
    }
}

/// A tree is split at points: the split value is the coordinate of one of the points on the right,
/// which, where the keys follow the coordinates, is the smallest of theirs.
pub proof fn built_splits_at_points<A: Axis>(items: Seq<Item<A>>, axis: int, cap: nat)
    requires
        items.len() <= usize::MAX,
        cap > 0,
    ensures
        splits_at_points(built(items, axis, cap)),
    decreases items.len(),
{
    if items.len() > cap && items.len() > 1 {
        let sorted = along(items, axis);
        let mid = (items.len() / 2) as int;
        let rhs = sorted.skip(mid);
        let next = (axis + 1) % 3;
        built_splits_at_points(sorted.take(mid), next, cap);
        built_splits_at_points(rhs, next, cap);
        built_holds_its_points(rhs, next, cap);
        let p = sorted[mid].point;
        let points = points_of(rhs);
        let below = built(rhs, next, cap).points();
        assert(points[0] == p);
        points.to_multiset_ensures();
        below.to_multiset_ensures();
        assert(points.contains(p));
        assert(points.to_multiset().count(p) > 0);
        assert(below.contains(p));
        let j = choose|j: int| 0 <= j < below.len() && below[j] == p;
        assert(below[j]@[axis] == p[axis]);
    }
}

/// Whether `points` come in ascending order along `axis`.
pub open spec fn ascends<A: Axis>(points: Seq<[A; 3]>, axis: int) -> bool {
    forall|i: int, j: int|
        #![trigger points[i], points[j]]
        0 <= i < j < points.len() ==> le(points[i]@[axis], points[j]@[axis])
}

/// Whether every leaf below a split has its points in ascending order along the axis of the split.
pub open spec fn leaves_ascend<A: Axis>(shape: Shape<A>) -> bool
    decreases shape,
{
    match shape {
        Shape::Leaf { .. } => true,
        Shape::Split { axis, left, right, .. } => {
            &&& *left is Leaf ==> ascends(left.points(), axis)
            &&& *right is Leaf ==> ascends(right.points(), axis)
            &&& leaves_ascend(*left)
            &&& leaves_ascend(*right)
        },
    }
}

/// A tree whose points fit in one leaf has them in the order in which they were given. Where the keys
/// follow the coordinates, any other leaf has its points in ascending order along the axis of the
/// split above it.
pub proof fn built_leaves_ascend<A: Axis>(items: Seq<Item<A>>, axis: int, cap: nat)
    requires
        items.len() <= usize::MAX,
        cap > 0,
        0 <= axis < 3,
        keys_follow_coordinates(items),
    ensures
        items.len() <= cap ==> built(items, axis, cap).points() == points_of(items),
        leaves_ascend(built(items, axis, cap)),
    decreases items.len(),
{
    if items.len() > cap && items.len() > 1 {
        let sorted = along(items, axis);
        let mid = (items.len() / 2) as int;
        let next = (axis + 1) % 3;
        along_is_ascending(items, axis);
        lemma_part_ascends(items, sorted, sorted.take(mid), 0, axis);
        lemma_part_ascends(items, sorted, sorted.skip(mid), mid, axis);
        built_leaves_ascend(sorted.take(mid), next, cap);
        built_leaves_ascend(sorted.skip(mid), next, cap);
    }
}

proof fn lemma_part_ascends<A: Axis>(
    items: Seq<Item<A>>,
    sorted: Seq<Item<A>>,
    part: Seq<Item<A>>,
    from: int,
    axis: int,
)
    requires
        keys_follow_coordinates(items),
        0 <= axis < 3,
        0 <= from,
        from + part.len() <= sorted.len(),
        sorted.len() == items.len(),
        forall|i: int| 0 <= i < part.len() ==> #[trigger] part[i] == sorted[i + from],
        forall|i: int, j: int|
            #![trigger sorted[i], sorted[j]]
            0 <= i < j < sorted.len() ==> sorted[i].keys[axis] <= sorted[j].keys[axis],
        forall|i: int| 0 <= i < sorted.len() ==> items.contains(#[trigger] sorted[i]),
    ensures
        ascends(points_of(part), axis),
        keys_follow_coordinates(part),
{
    let points = points_of(part);
    assert forall|i: int, j: int|
        #![trigger points[i], points[j]]
        0 <= i < j < points.len() implies le(points[i]@[axis], points[j]@[axis]) by {
        let a = sorted[i + from];
        let b = sorted[j + from];
        assert(part[i] == a && part[j] == b);
        assert(items.contains(a) && items.contains(b));
        assert(a.keys[axis] <= b.keys[axis]);
    }
    assert forall|a: Item<A>| #[trigger] part.contains(a) implies items.contains(a) by {
        let i = choose|i: int| 0 <= i < part.len() && part[i] == a;
        assert(items.contains(sorted[i + from]));
    }
}

/// The points that are checked in the leaves among `visits`, in order.
pub open spec fn checked_along<A: Axis>(
    nodes: Seq<Node<A>>,
    visits: Seq<(usize, Visit)>,
    c: Seq<A>,
    rsq: A,
) -> Seq<[A; 3]>
    decreases visits.len(),
{
    if visits.len() == 0 {
        Seq::empty()
    } else {
        let sofar = checked_along(nodes, visits.drop_last(), c, rsq);
        if visits.last().1 == Visit::Leaf {
            sofar + checked_of(nodes[visits.last().0 as int].points@, c, rsq)
        } else {
            sofar
        }
    }
}

proof fn lemma_checked_add<A: Axis>(
    nodes: Seq<Node<A>>,
    a: Seq<(usize, Visit)>,
    b: Seq<(usize, Visit)>,
    c: Seq<A>,
    rsq: A,
)
    ensures
        checked_along(nodes, a + b, c, rsq) == checked_along(nodes, a, c, rsq) + checked_along(
            nodes,
            b,
            c,
            rsq,
        ),
    decreases b.len(),
{
    if b.len() == 0 {
        assert(a + b =~= a);
        assert(checked_along(nodes, a, c, rsq) + Seq::<[A; 3]>::empty() =~= checked_along(
            nodes,
            a,
            c,
            rsq,
        ));
    } else {
        lemma_checked_add(nodes, a, b.drop_last(), c, rsq);
        assert((a + b).drop_last() =~= a + b.drop_last());
        assert((a + b).last() == b.last());
        assert(checked_along(nodes, a + b, c, rsq) =~= checked_along(nodes, a, c, rsq)
            + checked_along(nodes, b, c, rsq));
    }
}

/// A search checks the points of the leaves that it visits, in order, and no others.
pub proof fn search_checks_its_leaves<A: Axis>(nodes: Seq<Node<A>>, i: int, c: Seq<A>, rsq: A)
    requires
        nodes_wf(nodes),
        0 <= i < nodes.len() <= usize::MAX,
    ensures
        course(nodes, i, c, rsq).checked == checked_along(
            nodes,
            course(nodes, i, c, rsq).visits,
            c,
            rsq,
        ),
    decreases i,
{
    let n = nodes[i];
    assert(node_wf(nodes, i));
    let r = course(nodes, i, c, rsq);
    if gt(n.bbox@.closest_distsq(c, 3), rsq) || n.left is None {
        assert(r.visits.drop_last() =~= Seq::<(usize, Visit)>::empty());
        assert(checked_along(nodes, r.visits.drop_last(), c, rsq) == Seq::<[A; 3]>::empty());
        assert(r.checked =~= checked_along(nodes, r.visits, c, rsq));
    } else {
        let (near, far) = sides(n, c);
        search_checks_its_leaves(nodes, near as int, c, rsq);
        search_checks_its_leaves(nodes, far as int, c, rsq);
        let a = course(nodes, near as int, c, rsq).visits;
        let b = course(nodes, far as int, c, rsq).visits;
        let head = seq![(i as usize, Visit::Descend)];
        assert(head.drop_last() =~= Seq::<(usize, Visit)>::empty());
        assert(checked_along(nodes, head.drop_last(), c, rsq) == Seq::<[A; 3]>::empty());
        assert(checked_along(nodes, head, c, rsq) == Seq::<[A; 3]>::empty());
        lemma_checked_add(nodes, head, a, c, rsq);
        lemma_checked_add(nodes, head + a, b, c, rsq);
        assert(r.checked =~= checked_along(nodes, r.visits, c, rsq));
    }
}

/// Whether a query that ends in node `leaf` can find `p`: the leaf affords it, and it is close
/// enough.
pub open spec fn can_be_found<A: Axis>(
    nodes: Seq<Node<A>>,
    leaf: int,
    p: [A; 3],
    rsq_max: A,
    c: Seq<A>,
    rsq: A,
) -> bool {
    le(nodes[leaf].bbox@.closest_distsq(p@, 3), rsq_max) && le(distsq(p@, c), rsq)
}

/// A query finds the first of the points that it can find.
pub proof fn query_finds_the_first_point<A: Axis>(
    nodes: Seq<Node<A>>,
    leaf: int,
    points: Seq<[A; 3]>,
    rsq_max: A,
    c: Seq<A>,
    rsq: A,
) -> (n: int)
    ensures
        found(nodes, leaf, points, rsq_max, c, rsq) matches Some(p) ==> {
            &&& 0 <= n < points.len()
            &&& p == points[n]
            &&& can_be_found(nodes, leaf, points[n], rsq_max, c, rsq)
            &&& forall|i: int|
                0 <= i < n ==> !can_be_found(nodes, leaf, #[trigger] points[i], rsq_max, c, rsq)
        },
{
    lemma_first_afforded(nodes, leaf, points, rsq_max, c, rsq)
}

proof fn lemma_first_afforded<A: Axis>(
    nodes: Seq<Node<A>>,
    leaf: int,
    points: Seq<[A; 3]>,
    rsq_max: A,
    c: Seq<A>,
    rsq: A,
) -> (n: int)
    ensures
        first_within(afforded(nodes, leaf, points, rsq_max), c, rsq) matches Some(p) ==> {
            &&& 0 <= n < points.len()
            &&& p == points[n]
            &&& can_be_found(nodes, leaf, points[n], rsq_max, c, rsq)
            &&& forall|i: int|
                0 <= i < n ==> !can_be_found(nodes, leaf, #[trigger] points[i], rsq_max, c, rsq)
        },
        first_within(afforded(nodes, leaf, points, rsq_max), c, rsq) is None ==> forall|i: int|
            0 <= i < points.len() ==> !can_be_found(
                nodes,
                leaf,
                #[trigger] points[i],
                rsq_max,
                c,
                rsq,
            ),
    decreases points.len(),
{
    let buffer = afforded(nodes, leaf, points, rsq_max);
    if points.len() == 0 {
        0
    } else {
        let fewer = points.drop_last();
        let last = points.len() - 1;
        let before = afforded(nodes, leaf, fewer, rsq_max);
        let m = lemma_first_afforded(nodes, leaf, fewer, rsq_max, c, rsq);
        assert(forall|i: int| 0 <= i < last ==> #[trigger] points[i] == fewer[i]);
        let x = checking_stops_at_the_first_hit(before, c, rsq);
        let y = checking_stops_at_the_first_hit(buffer, c, rsq);
        assert(forall|i: int| 0 <= i < before.len() ==> #[trigger] buffer[i] == before[i]);
        if x < before.len() {
            assert(buffer[x] == before[x]);
            assert(y <= x);
            if y < x {
                assert(buffer[y] == before[y]);
            }
            assert(y == x);
            m
        } else {
            if y < buffer.len() {
                if y < before.len() {
                    assert(buffer[y] == before[y]);
                }
                assert(buffer[y] == points[last]);
            } else if can_be_found(nodes, leaf, points[last], rsq_max, c, rsq) {
                assert(buffer.last() == points[last]);
                assert(!le(distsq(buffer[buffer.len() - 1]@, c), rsq));
            }
            last
        }
    }
}

/// A leaf affords those points whose distance to its box is within the maximum radius, in order.
pub proof fn leaf_affords_what_is_near_its_box<A: Axis>(
    nodes: Seq<Node<A>>,
    leaf: int,
    points: Seq<[A; 3]>,
    rsq: A,
)
    ensures
        afforded(nodes, leaf, points, rsq) == points.filter(
            |p: [A; 3]| le(nodes[leaf].bbox@.closest_distsq(p@, 3), rsq),
        ),
    decreases points.len(),
{
    reveal(Seq::filter);
    if points.len() > 0 {
        leaf_affords_what_is_near_its_box(nodes, leaf, points.drop_last(), rsq);
    }
}

// ---------------------------------------------------------------------------------------------
// Distances to boxes
// ---------------------------------------------------------------------------------------------

proof fn lemma_same_distance<A: Axis>(b: Bounds<A>, p: Seq<A>, q: Seq<A>, n: nat)
    requires
        forall|k: int| 0 <= k < n ==> #[trigger] q[k] == b.clamp(k, p[k]),
    ensures
        b.closest_distsq(p, n) == distsq_upto(p, q, n),
    decreases n,
{
    if n > 0 {
        lemma_same_distance(b, p, q, (n - 1) as nat);
        assert(q[n - 1] == b.clamp(n - 1, p[n - 1]));
    }
}

/// The distance to a box is that to a point of the box: the point whose coordinates are those of `p`
/// where they lie within the box, and those of the nearer side where they do not.
pub proof fn distance_to_a_box_is_reached<A: Axis>(b: Bounds<A>, p: Seq<A>) -> (q: Seq<A>)
    requires
        orders_values::<A>(),
        b.lo.len() == p.len(),
        b.hi.len() == p.len(),
        finite(p),
        finite(b.lo),
        finite(b.hi),
        forall|k: int| 0 <= k < p.len() ==> le(#[trigger] b.lo[k], b.hi[k]),
    ensures
        q.len() == p.len(),
        contains(b, q),
        b.closest_distsq(p, p.len()) == distsq(p, q),
        forall|k: int|
            #![trigger q[k]]
            0 <= k < p.len() ==> {
                &&& lt(p[k], b.lo[k]) ==> q[k] == b.lo[k]
                &&& !lt(p[k], b.lo[k]) && gt(p[k], b.hi[k]) ==> q[k] == b.hi[k]
                &&& !lt(p[k], b.lo[k]) && !gt(p[k], b.hi[k]) ==> q[k] == p[k]
            },
{
    let q = Seq::new(p.len(), |k: int| b.clamp(k, p[k]));
    lemma_same_distance(b, p, q, p.len());
    assert forall|k: int| #![trigger q[k]] 0 <= k < q.len() implies le(b.lo[k], q[k]) && le(
        q[k],
        b.hi[k],
    ) by {
        assert(b.lo[k].is_finite_spec() && b.hi[k].is_finite_spec() && p[k].is_finite_spec());
        assert(le(b.lo[k], b.lo[k]) && le(b.hi[k], b.hi[k]));
        assert(gt(p[k], b.hi[k]) <==> lt(b.hi[k], p[k]));
    }
    q
}

} // verus!

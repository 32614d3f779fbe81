//! A minimal balanced binary point tree, shared by the figures of tree searches.
//!
//! Both figures build the exact same tree shape (recursive median split, round-robin axis) since
//! that's the part a k-d tree and a CAPT have in common; what differs between the two figures is
//! how the tree is *searched*.

use crate::aabb::Bounds;
use crate::axis::{le, Axis};
use crate::sorting::{
    order_by, stable_order, stable_order_is_ascending, stable_order_keeps_items,
};
use crate::viz::{box_of, box_union, Aabb};
use vstd::prelude::*;

verus! {

/// One node of a [`Tree`]. Internal nodes have `left`/`right` and no `points`; leaves have
/// `points` and no children.
#[derive(Clone, Debug)]
pub struct Node<A> {
    /// The bounding box of this node's own points (for a leaf) or the union of its children's
    /// boxes (for an internal node).
    pub bbox: Aabb<A>,
    /// The axis this node was split on, if it's an internal node.
    pub axis: usize,
    /// The split value used to route a query into `left` (`<= test`) or `right` (`> test`), if
    /// this is an internal node.
    pub test: A,
    pub left: Option<usize>,
    pub right: Option<usize>,
    /// This leaf's own points. Empty for internal nodes.
    pub points: Vec<[A; 3]>,
}

impl<A: Axis> Node<A> {
    /// Whether this node has no children.
    pub open spec fn is_leaf_spec(self) -> bool {
        self.left is None
    }

    /// Determine whether this node has no children.
    #[must_use]
    pub fn is_leaf(&self) -> (r: bool)
        ensures
            r == self.is_leaf_spec(),
    {
        self.left.is_none()
    }
}

/// An arena-allocated balanced binary tree over a point cloud.
#[derive(Clone, Debug)]
pub struct Tree<A> {
    pub nodes: Vec<Node<A>>,
    pub root: usize,
}

/// Whether the node at `i` has points and no children, or no points and two children that come
/// before it.
pub open spec fn node_wf<A: Axis>(nodes: Seq<Node<A>>, i: int) -> bool {
    match (nodes[i].left, nodes[i].right) {
        (None, None) => nodes[i].points@.len() > 0,
        (Some(l), Some(r)) => l < i && r < i && nodes[i].axis < 3 && nodes[i].points@.len() == 0,
        _ => false,
    }
}

/// Whether every node has points and no children, or no points and two children that come before
/// it.
pub open spec fn nodes_wf<A: Axis>(nodes: Seq<Node<A>>) -> bool {
    forall|i: int| 0 <= i < nodes.len() ==> #[trigger] node_wf(nodes, i)
}

impl<A: Axis> Tree<A> {
    /// The root is the last node, and every node has points and no children, or no points and two
    /// children that come before it.
    pub open spec fn wf(self) -> bool {
        nodes_wf(self.nodes@) && self.root + 1 == self.nodes@.len()
    }
}

/// What a tree looks like from one of its nodes down.
pub enum Shape<A> {
    Leaf { bbox: Bounds<A>, axis: int, test: A, points: Seq<[A; 3]> },
    Split { bbox: Bounds<A>, axis: int, test: A, left: Box<Shape<A>>, right: Box<Shape<A>> },
}

impl<A: Axis> Shape<A> {
    /// The box over the points below.
    pub open spec fn bbox(self) -> Bounds<A> {
        match self {
            Shape::Leaf { bbox, .. } => bbox,
            Shape::Split { bbox, .. } => bbox,
        }
    }

    /// The axis of the node.
    pub open spec fn axis(self) -> int {
        match self {
            Shape::Leaf { axis, .. } => axis,
            Shape::Split { axis, .. } => axis,
        }
    }

    /// The points below.
    pub open spec fn points(self) -> Seq<[A; 3]>
        decreases self,
    {
        match self {
            Shape::Leaf { points, .. } => points,
            Shape::Split { left, right, .. } => left.points() + right.points(),
        }
    }

    /// Whether no leaf has more than `cap` points.
    pub open spec fn leaves_within(self, cap: nat) -> bool
        decreases self,
    {
        match self {
            Shape::Leaf { points, .. } => points.len() <= cap,
            Shape::Split { left, right, .. } => left.leaves_within(cap) && right.leaves_within(cap),
        }
    }
}

/// What the tree with the given nodes looks like from node `i` down.
pub open spec fn shape_of<A: Axis>(nodes: Seq<Node<A>>, i: int) -> Shape<A>
    decreases i,
{
    let n = nodes[i];
    match (n.left, n.right) {
        (Some(l), Some(r)) if 0 <= l < i && 0 <= r < i => Shape::Split {
            bbox: n.bbox@,
            axis: n.axis as int,
            test: n.test,
            left: Box::new(shape_of(nodes, l as int)),
            right: Box::new(shape_of(nodes, r as int)),
        },
        _ => Shape::Leaf {
            bbox: n.bbox@,
            axis: n.axis as int,
            test: n.test,
            points: n.points@,
        },
    }
}

/// A point with a number for each axis by which it is ordered along that axis.
#[derive(Clone, Copy, Debug)]
pub struct Item<A> {
    pub point: [A; 3],
    pub keys: [u32; 3],
}

/// The points of `items`.
pub open spec fn points_of<A: Axis>(items: Seq<Item<A>>) -> Seq<[A; 3]> {
    Seq::new(items.len(), |i: int| items[i].point)
}

/// The numbers by which `items` are ordered along `axis`.
pub open spec fn keys_on<A: Axis>(items: Seq<Item<A>>, axis: int) -> Seq<u32> {
    Seq::new(items.len(), |i: int| items[i].keys[axis])
}

/// `items` in ascending order along `axis`.
pub open spec fn along<A: Axis>(items: Seq<Item<A>>, axis: int) -> Seq<Item<A>> {
    let order = stable_order(keys_on(items, axis));
    Seq::new(items.len(), |i: int| items[order[i] as int])
}

/// The tree over `items`: split at the median of a round-robin axis, down to leaves of at most
/// `cap` points.
pub open spec fn built<A: Axis>(items: Seq<Item<A>>, axis: int, cap: nat) -> Shape<A>
    decreases items.len(),
{
    if items.len() <= cap || items.len() <= 1 {
        Shape::Leaf {
            bbox: box_of(points_of(items)),
            axis,
            test: A::ZERO,
            points: points_of(items),
        }
    } else {
        let sorted = along(items, axis);
        let mid = (items.len() / 2) as int;
        let left = built(sorted.take(mid), (axis + 1) % 3, cap);
        let right = built(sorted.skip(mid), (axis + 1) % 3, cap);
        Shape::Split {
            bbox: box_union(left.bbox(), right.bbox()),
            axis,
            test: sorted[mid].point[axis],
            left: Box::new(left),
            right: Box::new(right),
        }
    }
}

/// What a tree looks like from a node down does not depend on the nodes after it.
proof fn lemma_shape_prefix<A: Axis>(a: Seq<Node<A>>, b: Seq<Node<A>>, i: int)
    requires
        0 <= i < a.len() <= b.len(),
        forall|j: int| 0 <= j < a.len() ==> #[trigger] b[j] == a[j],
    ensures
        shape_of(a, i) == shape_of(b, i),
    decreases i,
{
    assert(b[i] == a[i]);
    match (a[i].left, a[i].right) {
        (Some(l), Some(r)) => {
            if l < i && r < i {
                lemma_shape_prefix(a, b, l as int);
                lemma_shape_prefix(a, b, r as int);
            }
        },
        _ => {},
    }
}

/// Build a [`Tree`] over `points` by recursively splitting on the median of a round-robin axis,
/// stopping once a node holds `leaf_capacity` points or fewer.
///
/// `keys[i][k]` is the number by which `points[i]` is ordered along axis `k`.
#[must_use]
pub fn build<A: Axis>(points: &[[A; 3]], keys: &[[u32; 3]], leaf_capacity: usize) -> (tree: Tree<A>)
    requires
        points@.len() > 0,
        keys@.len() == points@.len(),
        leaf_capacity > 0,
    ensures
        tree.wf(),
        shape_of(tree.nodes@, tree.root as int) == built(
            Seq::new(points@.len(), |i: int| Item { point: points@[i], keys: keys@[i] }),
            0,
            leaf_capacity as nat,
        ),
{
    let ghost all = Seq::new(points@.len(), |i: int| Item { point: points@[i], keys: keys@[i] });
    let mut items: Vec<Item<A>> = Vec::with_capacity(points.len());
    let mut i: usize = 0;
    while i < points.len()
        invariant
            i <= points.len(),
            keys@.len() == points@.len(),
            items@.len() == i,
            forall|j: int|
                0 <= j < i ==> #[trigger] items@[j] == (Item { point: points@[j], keys: keys@[j] }),
        decreases points.len() - i,
    {
        items.push(Item { point: points[i], keys: keys[i] });
        i += 1;
    }
    assert(items@ =~= all);
    let mut nodes: Vec<Node<A>> = Vec::new();
    let root: usize = build_node(&mut nodes, &items, 0, leaf_capacity);
    Tree { nodes, root }
}

fn points_in<A: Axis>(items: &Vec<Item<A>>) -> (r: Vec<[A; 3]>)
    ensures
        r@ == points_of(items@),
{
    let mut r: Vec<[A; 3]> = Vec::with_capacity(items.len());
    let mut i: usize = 0;
    while i < items.len()
        invariant
            i <= items.len(),
            r@.len() == i,
            forall|j: int| 0 <= j < i ==> #[trigger] r@[j] == items@[j].point,
        decreases items.len() - i,
    {
        r.push(items[i].point);
        i += 1;
    }
    assert(r@ =~= points_of(items@));
    r
}

fn sort_along<A: Axis>(items: &Vec<Item<A>>, axis: usize) -> (r: Vec<Item<A>>)
    requires
        axis < 3,
    ensures
        r@ == along(items@, axis as int),
{
    let mut keys: Vec<u32> = Vec::with_capacity(items.len());
    let mut i: usize = 0;
    while i < items.len()
        invariant
            i <= items.len(),
            axis < 3,
            keys@.len() == i,
            forall|j: int| 0 <= j < i ==> #[trigger] keys@[j] == items@[j].keys@[axis as int],
        decreases items.len() - i,
    {
        keys.push(items[i].keys[axis]);
        i += 1;
    }
    assert(keys@ =~= keys_on(items@, axis as int));
    let order: Vec<usize> = order_by(&keys);
    let mut r: Vec<Item<A>> = Vec::with_capacity(items.len());
    let mut i: usize = 0;
    while i < order.len()
        invariant
            i <= order.len(),
            order@.len() == items@.len(),
            forall|j: int| 0 <= j < order@.len() ==> #[trigger] order@[j] < items@.len(),
            r@.len() == i,
            forall|j: int| 0 <= j < i ==> #[trigger] r@[j] == items@[order@[j] as int],
        decreases order.len() - i,
    {
        r.push(items[order[i]]);
        i += 1;
    }
    assert(r@ =~= along(items@, axis as int));
    r
}

fn part<A: Axis>(items: &Vec<Item<A>>, from: usize, to: usize) -> (r: Vec<Item<A>>)
    requires
        from <= to <= items@.len(),
    ensures
        r@ == items@.subrange(from as int, to as int),
{
    let mut r: Vec<Item<A>> = Vec::with_capacity(to - from);
    let mut i: usize = from;
    while i < to
        invariant
            from <= i <= to <= items@.len(),
            r@ =~= items@.subrange(from as int, i as int),
        decreases to - i,
    {
        r.push(items[i]);
        i += 1;
    }
    r
}

fn build_node<A: Axis>(
    nodes: &mut Vec<Node<A>>,
    items: &Vec<Item<A>>,
    axis: usize,
    leaf_capacity: usize,
) -> (idx: usize)
    requires
        nodes_wf(old(nodes)@),
        items@.len() > 0,
        axis < 3,
        leaf_capacity > 0,
    ensures
        nodes_wf(final(nodes)@),
        old(nodes)@.len() <= idx,
        idx + 1 == final(nodes)@.len(),
        forall|j: int|
            0 <= j < old(nodes)@.len() ==> #[trigger] final(nodes)@[j] == old(nodes)@[j],
        shape_of(final(nodes)@, idx as int) == built(items@, axis as int, leaf_capacity as nat),
    decreases items@.len(),
{
    let ghost before = nodes@;
    if items.len() <= leaf_capacity {
        let points: Vec<[A; 3]> = points_in(items);
        let bbox = Aabb::of(points.as_slice());
        let idx: usize = nodes.len();
        nodes.push(Node { bbox, axis, test: A::ZERO, left: None, right: None, points });
        proof {
            assert forall|i: int| 0 <= i < nodes@.len() implies #[trigger] node_wf(nodes@, i) by {
                if i < before.len() {
                    assert(node_wf(before, i));
                    assert(nodes@[i] == before[i]);
                }
            }
        }
        return idx;
    }
    let sorted: Vec<Item<A>> = sort_along(items, axis);
    let mid: usize = items.len() / 2;
    let test: A = sorted[mid].point[axis];
    let next_axis: usize = (axis + 1) % 3;
    let lhs: Vec<Item<A>> = part(&sorted, 0, mid);
    let rhs: Vec<Item<A>> = part(&sorted, mid, sorted.len());
    proof {
        assert(lhs@ =~= sorted@.take(mid as int));
        assert(rhs@ =~= sorted@.skip(mid as int));
    }
    let left: usize = build_node(nodes, &lhs, next_axis, leaf_capacity);
    let ghost with_left = nodes@;
    let right: usize = build_node(nodes, &rhs, next_axis, leaf_capacity);
    let ghost with_right = nodes@;
    let bbox = nodes[left].bbox.union(&nodes[right].bbox);
    let idx: usize = nodes.len();
    nodes.push(
        Node { bbox, axis, test, left: Some(left), right: Some(right), points: Vec::new() },
    );
    proof {
        assert forall|i: int| 0 <= i < nodes@.len() implies #[trigger] node_wf(nodes@, i) by {
            if i < with_right.len() {
                assert(node_wf(with_right, i));
                assert(nodes@[i] == with_right[i]);
            }
        }
        assert forall|j: int| 0 <= j < before.len() implies #[trigger] nodes@[j] == before[j] by {
            assert(with_left[j] == before[j]);
            assert(with_right[j] == with_left[j]);
        }
        lemma_shape_prefix(with_left, with_right, left as int);
        lemma_shape_prefix(with_right, nodes@, left as int);
        lemma_shape_prefix(with_right, nodes@, right as int);
        assert(shape_of(nodes@, left as int).bbox() == nodes@[left as int].bbox@);
        assert(shape_of(nodes@, right as int).bbox() == nodes@[right as int].bbox@);
    }
    idx
}

/// Items in order along an axis are the same items.
pub(crate) proof fn lemma_along<A: Axis>(items: Seq<Item<A>>, axis: int)
    requires
        items.len() <= usize::MAX,
    ensures
        along(items, axis).to_multiset() == items.to_multiset(),
{
    stable_order_keeps_items(keys_on(items, axis), items);
    assert(along(items, axis) =~= Seq::new(
        keys_on(items, axis).len(),
        |i: int| items[stable_order(keys_on(items, axis))[i] as int],
    ));
}

/// A tree holds exactly the points that it was built from, at most `cap` in each leaf.
pub proof fn built_holds_its_points<A: Axis>(items: Seq<Item<A>>, axis: int, cap: nat)
    requires
        items.len() <= usize::MAX,
        cap > 0,
    ensures
        built(items, axis, cap).points().to_multiset() == points_of(items).to_multiset(),
        built(items, axis, cap).leaves_within(cap),
    decreases items.len(),
{
    if items.len() > cap && items.len() > 1 {
        let sorted = along(items, axis);
        let mid = (items.len() / 2) as int;
        let lhs = sorted.take(mid);
        let rhs = sorted.skip(mid);
        built_holds_its_points(lhs, (axis + 1) % 3, cap);
        built_holds_its_points(rhs, (axis + 1) % 3, cap);
        lemma_along(items, axis);
        let f = |item: Item<A>| item.point;
        crate::sorting::lemma_mapped_multiset(sorted, items, f);
        assert(sorted.map_values(f) =~= points_of(sorted));
        assert(items.map_values(f) =~= points_of(items));
        assert(points_of(sorted) =~= points_of(lhs) + points_of(rhs));
        vstd::seq_lib::lemma_multiset_commutative(points_of(lhs), points_of(rhs));
        let left = built(lhs, (axis + 1) % 3, cap);
        let right = built(rhs, (axis + 1) % 3, cap);
        vstd::seq_lib::lemma_multiset_commutative(left.points(), right.points());
    }
}

/// Along an axis, the items come in ascending order of their keys.
pub proof fn along_is_ascending<A: Axis>(items: Seq<Item<A>>, axis: int)
    requires
        items.len() <= usize::MAX,
    ensures
        forall|i: int, j: int|
            #![trigger along(items, axis)[i], along(items, axis)[j]]
            0 <= i < j < items.len() ==> along(items, axis)[i].keys[axis] <= along(
                items,
                axis,
            )[j].keys[axis],
        forall|i: int|
            0 <= i < items.len() ==> items.contains(#[trigger] along(items, axis)[i]),
{
    let keys = keys_on(items, axis);
    stable_order_is_ascending(keys);
    let order = stable_order(keys);
    assert forall|i: int, j: int|
        #![trigger along(items, axis)[i], along(items, axis)[j]]
        0 <= i < j < items.len() implies along(items, axis)[i].keys[axis] <= along(
        items,
        axis,
    )[j].keys[axis] by {
        assert(order[i] < keys.len() && order[j] < keys.len());
        assert(keys[order[i] as int] <= keys[order[j] as int]);
    }
    assert forall|i: int| 0 <= i < items.len() implies items.contains(
        #[trigger] along(items, axis)[i],
    ) by {
        assert(order[i] < keys.len());
        assert(items[order[i] as int] == along(items, axis)[i]);
    }
}

/// Whether the keys of `items` order them along every axis as their coordinates do.
pub open spec fn keys_follow_coordinates<A: Axis>(items: Seq<Item<A>>) -> bool {
    forall|a: Item<A>, b: Item<A>, k: int|
        #![trigger items.contains(a), items.contains(b), a.keys[k], b.keys[k]]
        items.contains(a) && items.contains(b) && 0 <= k < 3 && a.keys[k] <= b.keys[k] ==> le(
            a.point[k],
            b.point[k],
        )
}

/// Whether, at every split, the two sides have the same number of points, or the right one more;
/// the coordinates on the left are at most the split value, and those on the right at least; and
/// both sides are split on the next axis.
pub open spec fn splits_in_order<A: Axis>(shape: Shape<A>) -> bool
    decreases shape,
{
    match shape {
        Shape::Leaf { points, .. } => points.len() >= 1,
        Shape::Split { axis, test, left, right, .. } => {
            &&& left.points().len() <= right.points().len() <= left.points().len() + 1
            &&& forall|i: int|
                0 <= i < left.points().len() ==> le((#[trigger] left.points()[i])@[axis], test)
            &&& forall|i: int|
                0 <= i < right.points().len() ==> le(test, (#[trigger] right.points()[i])@[axis])
            &&& left.axis() == (axis + 1) % 3
            &&& right.axis() == (axis + 1) % 3
            &&& splits_in_order(*left)
            &&& splits_in_order(*right)
        },
    }
}

proof fn lemma_built_members<A: Axis>(items: Seq<Item<A>>, axis: int, cap: nat)
    requires
        items.len() <= usize::MAX,
        cap > 0,
    ensures
        built(items, axis, cap).points().len() == items.len(),
        forall|p: [A; 3]| #[trigger]
            built(items, axis, cap).points().contains(p) ==> exists|j: int|
                0 <= j < items.len() && (#[trigger] items[j]).point == p,
{
    built_holds_its_points(items, axis, cap);
    let below = built(items, axis, cap).points();
    let points = points_of(items);
    below.to_multiset_ensures();
    points.to_multiset_ensures();
    assert forall|p: [A; 3]| #[trigger] below.contains(p) implies exists|j: int|
        0 <= j < items.len() && (#[trigger] items[j]).point == p by {
        assert(below.to_multiset().count(p) > 0);
        assert(points.contains(p));
        let j = choose|j: int| 0 <= j < points.len() && points[j] == p;
        assert(items[j].point == p);
    }
}

/// Where the keys follow the coordinates, a tree is split at the median of each axis in turn.
pub proof fn built_splits_in_order<A: Axis>(items: Seq<Item<A>>, axis: int, cap: nat)
    requires
        0 < items.len() <= usize::MAX,
        cap > 0,
        0 <= axis < 3,
        keys_follow_coordinates(items),
    ensures
        splits_in_order(built(items, axis, cap)),
        built(items, axis, cap).axis() == axis,
    decreases items.len(),
{
    if items.len() > cap && items.len() > 1 {
        let sorted = along(items, axis);
        let mid = (items.len() / 2) as int;
        let lhs = sorted.take(mid);
        let rhs = sorted.skip(mid);
        let next = (axis + 1) % 3;
        along_is_ascending(items, axis);
        assert forall|a: Item<A>| lhs.contains(a) || rhs.contains(a) implies items.contains(a) by {
            if lhs.contains(a) {
                let i = choose|i: int| 0 <= i < lhs.len() && lhs[i] == a;
                assert(sorted[i] == a);
            } else {
                let i = choose|i: int| 0 <= i < rhs.len() && rhs[i] == a;
                assert(sorted[i + mid] == a);
            }
        }
        built_splits_in_order(lhs, next, cap);
        built_splits_in_order(rhs, next, cap);
        lemma_built_members(lhs, next, cap);
        lemma_built_members(rhs, next, cap);
        let left = built(lhs, next, cap);
        let right = built(rhs, next, cap);
        let at = sorted[mid];
        let test = at.point[axis];
        assert(items.contains(at));
        assert forall|i: int| 0 <= i < left.points().len() implies le(
            (#[trigger] left.points()[i])@[axis],
            test,
        ) by {
            let p = left.points()[i];
            assert(left.points().contains(p));
            let j = choose|j: int| 0 <= j < lhs.len() && (#[trigger] lhs[j]).point == p;
            assert(sorted[j] == lhs[j]);
            assert(items.contains(sorted[j]));
            assert(sorted[j].keys[axis] <= at.keys[axis]);
        }
        assert forall|i: int| 0 <= i < right.points().len() implies le(
            test,
            (#[trigger] right.points()[i])@[axis],
        ) by {
            let p = right.points()[i];
            assert(right.points().contains(p));
            let j = choose|j: int| 0 <= j < rhs.len() && (#[trigger] rhs[j]).point == p;
            assert(sorted[j + mid] == rhs[j]);
            assert(items.contains(sorted[j + mid]));
            assert(at.keys[axis] <= sorted[j + mid].keys[axis]);
        }
    }
}

} // verus!

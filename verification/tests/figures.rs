use core::ops::{Add, Div, Mul, Sub};
use mvtable::capt_search;
use mvtable::clouds::{
    cluster_count, clustered_cloud, flatten_axis, lattice_cloud, query_grid, uniform_cloud,
};
use mvtable::filter::pdep;
use mvtable::kd_search::{self, Visit};
use mvtable::mvt_trace::{self, CellState};
use mvtable::tree::{build, Tree};
use mvtable::viz::{
    brute_force_collides, cell_bounds, distsq, first_occupied, grid_params, point_to_coords,
    queries, r_max, v3, Aabb,
};
use mvtable::{Axis, AxisSimdElement, MutableMvt};

/// A single-precision coordinate.
#[derive(Clone, Copy, Debug, PartialEq, PartialOrd)]
struct F32(f32);

impl Add for F32 {
    type Output = F32;
    fn add(self, other: F32) -> F32 {
        F32(self.0 + other.0)
    }
}

impl Sub for F32 {
    type Output = F32;
    fn sub(self, other: F32) -> F32 {
        F32(self.0 - other.0)
    }
}

impl Mul for F32 {
    type Output = F32;
    fn mul(self, other: F32) -> F32 {
        F32(self.0 * other.0)
    }
}

impl Div for F32 {
    type Output = F32;
    fn div(self, other: F32) -> F32 {
        F32(self.0 / other.0)
    }
}

impl Axis for F32 {
    const ZERO: F32 = F32(0.0);
    const INFINITY: F32 = F32(f32::INFINITY);
    const NEG_INFINITY: F32 = F32(f32::NEG_INFINITY);

    fn is_finite_spec(self) -> bool {
        self.is_finite()
    }

    fn square_spec(self) -> F32 {
        self.square()
    }

    fn to_index_spec(self) -> usize {
        self.to_index()
    }

    fn from_usize_spec(x: usize) -> F32 {
        F32::from_usize(x)
    }

    fn total_operators() {}

    fn is_finite(self) -> bool {
        self.0.is_finite()
    }

    fn square(self) -> F32 {
        F32(self.0 * self.0)
    }

    fn to_index(self) -> usize {
        self.0 as usize
    }

    fn from_usize(x: usize) -> F32 {
        F32(x as f32)
    }
}

impl AxisSimdElement for F32 {
    fn square_is_product() {}
}

fn wrap<const N: usize>(values: [f32; N]) -> [F32; N] {
    values.map(F32)
}

fn unwrap<const N: usize>(values: [F32; N]) -> [f32; N] {
    values.map(|x| x.0)
}

fn wrap_all<const K: usize>(points: &[[f32; K]]) -> Vec<[F32; K]> {
    points.iter().map(|&p| wrap(p)).collect()
}

/// A number that orders single-precision values.
fn key(x: F32) -> u32 {
    let bits = x.0.to_bits();
    if bits >> 31 == 1 {
        !bits
    } else {
        bits | 0x8000_0000
    }
}

fn scattered(n: usize) -> Vec<[F32; 3]> {
    (0..n)
        .map(|i| {
            wrap([
                (i * 37 % 101) as f32 * 0.03 - 1.5,
                (i * 53 % 89) as f32 * 0.025 - 1.0,
                (i * 71 % 97) as f32 * 0.02,
            ])
        })
        .collect()
}

fn tree_over(points: &[[F32; 3]], leaf_capacity: usize) -> Tree<F32> {
    let keys: Vec<[u32; 3]> = points.iter().map(|p| p.map(key)).collect();
    build(points, &keys, leaf_capacity)
}

#[test]
fn bits_are_deposited_in_order() {
    assert_eq!(pdep(0b101, 0b0100_1010), 0b0100_0010);
    assert_eq!(pdep(u32::MAX, 0x0924_9249), 0x0924_9249);
    assert_eq!(pdep(0b1_0000_0000_00, 0x0924_9249), 0);
    assert_eq!(pdep(0xdead_beef, u32::MAX), 0xdead_beef);
    assert_eq!(pdep(7, 0), 0);
}

#[test]
fn lattice_counts_along_the_first_axis_fastest() {
    let points = lattice_cloud::<F32, 2>(3, F32(0.5));
    assert_eq!(points.len(), 9);
    assert_eq!(points[0], wrap([0.0, 0.0]));
    assert_eq!(points[5], wrap([1.0, 0.5]));
    assert!(lattice_cloud::<F32, 3>(0, F32(0.5)).is_empty());
}

#[test]
fn query_grid_has_the_centers_of_cells() {
    let centers = query_grid::<F32, 2>(F32(1.0), 2);
    assert_eq!(
        centers,
        wrap_all(&[[-0.5, -0.5], [0.5, -0.5], [-0.5, 0.5], [0.5, 0.5]])
    );
}

#[test]
fn flattened_clouds_lose_an_axis() {
    let points = flatten_axis(wrap_all(&[[1.0, 2.0], [3.0, 4.0]]), 1, F32(9.0));
    assert_eq!(points, wrap_all(&[[1.0, 9.0], [3.0, 9.0]]));
}

#[test]
fn draws_are_grouped_into_points() {
    assert_eq!(
        uniform_cloud::<F32, 2>(2, &wrap([1.0, 2.0, 3.0, 4.0])),
        wrap_all(&[[1.0, 2.0], [3.0, 4.0]])
    );
    assert_eq!(
        clustered_cloud(
            &wrap_all(&[[10.0, 10.0], [20.0, 20.0]]),
            &[1, 0],
            &wrap([1.0, 2.0, 3.0, 4.0])
        ),
        wrap_all(&[[21.0, 22.0], [13.0, 14.0]])
    );
}

#[test]
fn boxes_of_a_figure() {
    let b = Aabb::of(&wrap_all(&[[0.0, 5.0, -1.0], [2.0, 3.0, 1.0]]));
    assert_eq!(b.lo, wrap([0.0, 3.0, -1.0]));
    assert_eq!(b.hi, wrap([2.0, 5.0, 1.0]));
    assert_eq!(b.size(), wrap([2.0, 2.0, 2.0]));
    assert_eq!(r_max(&b), F32(0.2));
    let d = b.dilate(F32(0.5));
    assert_eq!(d.lo, wrap([-0.5, 2.5, -1.5]));
    assert_eq!(d.hi, wrap([2.5, 5.5, 1.5]));
    assert_eq!(b.closest_distsq_to(&wrap([1.0, 4.0, 0.0])), F32(0.0));
    assert_eq!(b.closest_distsq_to(&wrap([5.0, 9.0, 0.0])), F32(25.0));
    assert_eq!(distsq(&wrap([0.0, 0.0, 0.0]), &wrap([1.0, 2.0, 2.0])), F32(9.0));
    assert_eq!(v3(wrap([1.0, 2.0, 3.0])), (F32(1.0), F32(2.0), F32(3.0)));
}

#[test]
fn queries_of_a_figure() {
    let [miss, hit] = queries(F32(0.5));
    assert_eq!(miss, ("miss", wrap([0.0, 0.0, 1.6]), F32(0.5 * 0.9)));
    assert_eq!(hit, ("hit", wrap([-1.4, 0.0, 1.0]), F32(0.5 * 0.9)));
}

#[test]
fn cells_of_a_figure() {
    let b = Aabb {
        lo: wrap([0.0, 0.0, 1.0]),
        hi: wrap([2.0, 1.0, 1.0]),
    };
    let (width, scale) = grid_params(&b, F32(0.5));
    assert_eq!(width, [4, 2, 1]);
    assert_eq!(scale, wrap([2.0, 2.0, 2.0]));
    assert_eq!(point_to_coords(&wrap([1.2, 0.9, 1.0]), b.lo, scale, width), [2, 1, 0]);
    let cell = cell_bounds([2, 1, 0], &b.lo, &wrap([0.5, 0.5, 0.5]));
    assert_eq!(cell.lo, wrap([1.0, 0.5, 1.0]));
    assert_eq!(cell.hi, wrap([1.5, 1.0, 1.5]));
    let points = wrap_all(&[[0.1, 0.1, 1.0], [0.2, 0.2, 1.0], [1.2, 0.9, 1.0]]);
    assert_eq!(
        first_occupied(&points, b.lo, scale, width),
        vec![Some([0, 0, 0]), None, Some([2, 1, 0])]
    );
}

#[test]
fn tree_holds_its_points() {
    let points = scattered(100);
    let tree = tree_over(&points, 8);
    let mut stored: Vec<[f32; 3]> = Vec::new();
    for node in &tree.nodes {
        assert!(node.points.len() <= 8);
        assert_eq!(node.is_leaf(), !node.points.is_empty());
        stored.extend(node.points.iter().map(|&p| unwrap(p)));
    }
    let mut expected: Vec<[f32; 3]> = points.iter().map(|&p| unwrap(p)).collect();
    stored.sort_by(|a, b| a.partial_cmp(b).unwrap());
    expected.sort_by(|a, b| a.partial_cmp(b).unwrap());
    assert_eq!(stored, expected);
}

#[test]
fn tree_splits_at_the_median() {
    let points = wrap_all(&[[3.0, 0.0, 0.0], [1.0, 0.0, 0.0], [2.0, 0.0, 0.0]]);
    let tree = tree_over(&points, 1);
    let root = &tree.nodes[tree.root];
    assert_eq!(root.axis, 0);
    assert_eq!(root.test, F32(2.0));
    assert_eq!(tree.nodes[root.left.unwrap()].points, wrap_all(&[[1.0, 0.0, 0.0]]));
    assert_eq!(tree.nodes[root.right.unwrap()].axis, 1);
    assert_eq!(root.bbox.lo, wrap([1.0, 0.0, 0.0]));
    assert_eq!(root.bbox.hi, wrap([3.0, 0.0, 0.0]));
}

#[test]
fn kd_search_is_brute_force() {
    let points = scattered(200);
    let tree = tree_over(&points, 8);
    let mut hits = 0;
    for c in query_grid::<F32, 3>(F32(1.5), 8) {
        for r in [0.05, 0.2, 0.6] {
            let (search, hit) = kd_search::run_query(&tree, &c, F32(r));
            assert_eq!(hit.is_some(), brute_force_collides(&points, &c, F32(r)));
            assert_eq!(search.visits[0].0, tree.root);
            if let Some(p) = hit {
                hits += 1;
                assert_eq!(search.checked_points.last(), Some(&p));
                assert!(distsq(&p, &c) <= F32(r * r));
            }
        }
    }
    assert!(hits > 0);
    let (search, hit) = kd_search::run_query(&tree, &wrap([99.0, 0.0, 0.0]), F32(1.0));
    assert_eq!(hit, None);
    assert_eq!(search.visits, vec![(tree.root, Visit::Pruned)]);
}

#[test]
fn capt_search_descends_to_one_leaf() {
    let points = scattered(200);
    let tree = tree_over(&points, 8);
    for c in query_grid::<F32, 3>(F32(1.5), 6) {
        let t = capt_search::run_query(&tree, &points, &c, F32(0.2), F32(0.2));
        assert_eq!(t.path[0], tree.root);
        let leaf = &tree.nodes[*t.path.last().unwrap()];
        assert!(leaf.is_leaf());
        assert_eq!(t.affordance.own_count, leaf.points.len());
        assert!(t.affordance.points.len() >= leaf.points.len());
        // nothing is made up
        assert!(t.hit.is_none() || brute_force_collides(&points, &c, F32(0.2)));
        assert!(t.in_range || t.checked.is_empty());
    }
    // a query at a point of the cloud finds one
    let t = capt_search::run_query(&tree, &points, &points[17], F32(0.0), F32(0.2));
    assert_eq!(t.hit.map(|p| distsq(&p, &points[17])), Some(F32(0.0)));
}

#[test]
fn trace_of_a_table_query() {
    let points = scattered(200);
    let mvt = MutableMvt::<3, F32>::new(&points, F32(0.3));
    for c in query_grid::<F32, 3>(F32(2.5), 8) {
        let t = mvt_trace::run_query(&mvt, &c, F32(0.25));
        assert_eq!(t.hit.is_some(), mvt.collides(&c, F32(0.25)));
        assert!(!t.culled || t.visits.is_empty());
        let cells: usize = (0..3).map(|k| t.last[k] - t.first[k] + 1).product();
        if !t.culled && t.hit.is_none() {
            assert_eq!(t.visits.len(), cells);
        }
        let counted: usize = t
            .visits
            .iter()
            .map(|v| match v.state {
                CellState::Checked(n) => n,
                _ => 0,
            })
            .sum();
        assert!(t.checked.len() <= counted);
        if t.hit.is_some() {
            assert_eq!(t.checked.last(), t.hit.as_ref());
            // the walk ends with the cell of the hit
            let before: usize = counted
                - match t.visits.last().unwrap().state {
                    CellState::Checked(n) => n,
                    _ => panic!("no points in the cell of the hit"),
                };
            assert!(t.checked.len() > before);
            assert!(t.checked[..t.checked.len() - 1]
                .iter()
                .all(|p| distsq(p, &c) > F32(0.25 * 0.25)));
        }
    }
}

#[test]
fn trace_checks_points_at_a_distance_that_is_not_a_number() {
    let mvt = MutableMvt::<3, F32>::new(&wrap_all(&[[1.0, 2.0, 3.0]]), F32(0.5));
    let t = mvt_trace::run_query(&mvt, &wrap([f32::NAN, 2.0, 3.0]), F32(0.25));
    assert!(!t.culled);
    assert_eq!(t.visits.len(), 1);
    assert_eq!(t.visits[0].state, CellState::Checked(1));
    assert_eq!(t.checked, wrap_all(&[[1.0, 2.0, 3.0]]));
    assert_eq!(t.hit, None);
}

/// The points below node `i` of `tree`.
fn points_below(tree: &Tree<F32>, i: usize) -> Vec<[F32; 3]> {
    let node = &tree.nodes[i];
    match (node.left, node.right) {
        (Some(left), Some(right)) => {
            let mut below = points_below(tree, left);
            below.extend(points_below(tree, right));
            below
        }
        _ => node.points.clone(),
    }
}

#[test]
fn tree_splits_in_order_with_tight_boxes() {
    let points = scattered(203);
    let tree = tree_over(&points, 8);
    assert_eq!(tree.root, tree.nodes.len() - 1);
    for (i, node) in tree.nodes.iter().enumerate() {
        let below = points_below(&tree, i);
        for k in 0..3 {
            let lo = below.iter().map(|p| p[k].0).fold(f32::INFINITY, f32::min);
            let hi = below.iter().map(|p| p[k].0).fold(f32::NEG_INFINITY, f32::max);
            assert_eq!((node.bbox.lo[k].0, node.bbox.hi[k].0), (lo, hi));
        }
        if let (Some(left), Some(right)) = (node.left, node.right) {
            assert!(node.points.is_empty());
            assert_eq!(tree.nodes[left].axis, (node.axis + 1) % 3);
            assert_eq!(tree.nodes[right].axis, (node.axis + 1) % 3);
            let (a, b) = (points_below(&tree, left), points_below(&tree, right));
            assert!(a.len().abs_diff(b.len()) <= 1);
            assert!(a.iter().all(|p| p[node.axis] <= node.test));
            assert!(b.iter().all(|p| node.test <= p[node.axis]));
        } else {
            assert!((1..=8).contains(&node.points.len()));
        }
    }
}

#[test]
fn capt_search_inside_a_leaf_is_brute_force() {
    let points = scattered(200);
    let tree = tree_over(&points, 8);
    let r_max = F32(0.3);
    let mut inside = 0;
    let mut hits = 0;
    for c in query_grid::<F32, 3>(F32(1.5), 12) {
        let t = capt_search::run_query(&tree, &points, &c, F32(0.25), r_max);
        let bbox = &tree.nodes[*t.path.last().unwrap()].bbox;
        let expected = brute_force_collides(&points, &c, F32(0.25));
        if (0..3).all(|k| bbox.lo[k] <= c[k] && c[k] <= bbox.hi[k]) {
            inside += 1;
            assert_eq!(t.hit.is_some(), expected);
            hits += usize::from(expected);
        }
    }
    assert!(inside > hits && hits > 0);
}

#[test]
fn at_least_one_cluster() {
    assert_eq!(cluster_count(0), 1);
    assert_eq!(cluster_count(1), 1);
    assert_eq!(cluster_count(400), 400);
}

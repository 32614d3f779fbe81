use mvtable::recording::{count_collided, RecordedQuery, RecordingWorld};
use mvtable::replay::{
    batch_collides, batch_to_simd, partition_indices, pick, seed_from, split_batches, subsample, to_batches, traces,
};
use mvtable::workload::{
    read_points, read_queries, write_points, write_queries, Query, RawQuery, UnexpectedEnd,
};

fn raw(x: u32, lanes: u8) -> RawQuery<u32> {
    RawQuery {
        center: [x, x + 1, x + 2],
        r: x + 3,
        lanes,
    }
}

fn query(x: u32) -> Query<u32> {
    Query {
        center: [x, x + 1, x + 2],
        r: x + 3,
    }
}

#[test]
fn points_are_little_endian_records() {
    let bytes = write_points(&[[1, 0x0203_0405, u32::MAX]]);
    assert_eq!(
        bytes,
        vec![1, 0, 0, 0, 0, 0, 0, 0, 1, 0, 0, 0, 5, 4, 3, 2, 255, 255, 255, 255]
    );
}

#[test]
fn points_read_back() {
    let coords = |x: f32, y: f32, z: f32| [x.to_bits(), y.to_bits(), z.to_bits()];
    let points = vec![coords(0.5, -1.25, 3.0), coords(f32::INFINITY, 0.0, 1e-20)];
    assert_eq!(read_points(&write_points(&points)), Ok(points));
    assert_eq!(read_points(&write_points(&[])), Ok(vec![]));
}

#[test]
fn truncated_files_are_errors() {
    let bytes = write_points(&[[1, 2, 3], [4, 5, 6]]);
    assert_eq!(read_points(&bytes[..7]), Err(UnexpectedEnd));
    assert_eq!(read_points(&bytes[..bytes.len() - 1]), Err(UnexpectedEnd));
    let mut longer = bytes.clone();
    longer.push(9);
    assert_eq!(read_points(&longer), Ok(vec![[1, 2, 3], [4, 5, 6]]));
    assert_eq!(read_queries(&[255; 8]), Err(UnexpectedEnd));
    assert_eq!(read_queries(&[]), Err(UnexpectedEnd));
}

#[test]
fn queries_read_back() {
    let queries = vec![
        RecordedQuery { x: 1, y: 2, z: 3, r: 4, collided: true, lanes: 1 },
        RecordedQuery { x: 500, y: 6, z: 7, r: 8, collided: false, lanes: 8 },
    ];
    let bytes = write_queries(&queries);
    assert_eq!(bytes.len(), 8 + 2 * 18);
    assert_eq!(&bytes[8 + 16..8 + 18], &[1, 1]);
    assert_eq!(&bytes[26 + 16..26 + 18], &[0, 8]);
    assert_eq!(
        read_queries(&bytes),
        Ok(vec![
            RawQuery { center: [1, 2, 3], r: 4, lanes: 1 },
            RawQuery { center: [500, 6, 7], r: 8, lanes: 8 },
        ])
    );
}

#[test]
fn world_records_queries_in_order() {
    let mut world = RecordingWorld::new();
    assert!(world.collides_ball(1, 2, 3, 4, true));
    assert!(!world.collides_balls([1, 5], [2, 6], [3, 7], [4, 8], false, [true, false]));
    let queries = world.take_queries();
    assert_eq!(
        queries,
        vec![
            RecordedQuery { x: 1, y: 2, z: 3, r: 4, collided: true, lanes: 1 },
            RecordedQuery { x: 1, y: 2, z: 3, r: 4, collided: true, lanes: 2 },
            RecordedQuery { x: 5, y: 6, z: 7, r: 8, collided: false, lanes: 2 },
        ]
    );
    assert!(world.take_queries().is_empty());
}

#[test]
fn splitting_recovers_what_was_asked() {
    let trace = vec![raw(10, 1), raw(20, 3), raw(30, 3), raw(40, 3), raw(50, 1)];
    let (scalar, batches) = split_batches::<u32, 3>(&trace);
    assert_eq!(scalar, vec![query(10), query(50)]);
    assert_eq!(batches, vec![[query(20), query(30), query(40)]]);
}

#[test]
fn splitting_drops_what_it_cannot_group() {
    // a width that is not split by, and a batch that was cut off
    let trace = vec![raw(10, 4), raw(20, 1), raw(30, 2), raw(40, 1), raw(50, 2), raw(60, 2), raw(70, 2)];
    let (scalar, batches) = split_batches::<u32, 2>(&trace);
    assert_eq!(scalar, vec![query(20), query(40)]);
    assert_eq!(batches, vec![[query(50), query(60)]]);
}

#[test]
fn subsample_picks_distinct_items() {
    let items: Vec<usize> = (0..1_000).map(|i| i * 3).collect();
    assert_eq!(subsample(items.clone(), 1_000, 7), items);
    let picked = subsample(items.clone(), 100, 7);
    assert_eq!(picked.len(), 100);
    let mut distinct = picked.clone();
    distinct.sort();
    distinct.dedup();
    assert_eq!(distinct.len(), 100);
    assert!(picked.iter().all(|x| items.contains(x)));
    // reproducible, and not just the first items
    assert_eq!(subsample(items.clone(), 100, 7), picked);
    assert_ne!(picked, items[..100].to_vec());
    assert_ne!(subsample(items, 100, 8), picked);
}

#[test]
fn items_are_picked_in_the_order_of_their_indices() {
    assert_eq!(pick(&[10, 20, 30], &[2, 0]), vec![30, 10]);
}

#[test]
fn seed_of_a_name() {
    assert_eq!(seed_from(""), 0);
    assert_eq!(seed_from("a"), 97);
    assert_eq!(seed_from("ab"), 97 * 31 + 98);
    let expected = "panda_box_1_with_a_long_name"
        .bytes()
        .fold(0u64, |h, b| h.wrapping_mul(31).wrapping_add(b as u64));
    assert_eq!(seed_from("panda_box_1_with_a_long_name"), expected);
}

#[test]
fn partition_is_complete() {
    assert_eq!(
        partition_indices(&[true, false, false, true]),
        (vec![0, 3], vec![1, 2])
    );
    assert_eq!(partition_indices(&[]), (vec![], vec![]));
}

#[test]
fn traces_without_items_are_left_out() {
    assert_eq!(
        traces(3, vec![1], vec![0, 2]),
        vec![
            ("all", vec![0, 1, 2]),
            ("colliding", vec![1]),
            ("non_colliding", vec![0, 2]),
        ]
    );
    assert_eq!(
        traces(2, vec![], vec![0, 1]),
        vec![("all", vec![0, 1]), ("non_colliding", vec![0, 1])]
    );
    assert!(traces(0, vec![], vec![]).is_empty());
}

#[test]
fn batches_are_transposed() {
    let (centers, radii) = batch_to_simd(&[query(10), query(20)]);
    assert_eq!(centers, [[10, 20], [11, 21], [12, 22]]);
    assert_eq!(radii, [13, 23]);
}

#[test]
fn remainder_of_batches_is_dropped() {
    let queries: Vec<Query<u32>> = (0..5).map(query).collect();
    let batches = to_batches::<u32, 2>(&queries);
    assert_eq!(batches, vec![[query(0), query(1)], [query(2), query(3)]]);
}

#[test]
fn collided_queries_are_counted() {
    let query = |collided| RecordedQuery { x: 1, y: 2, z: 3, r: 4, collided, lanes: 1 };
    assert_eq!(count_collided::<i32>(&[]), 0);
    assert_eq!(count_collided(&[query(true), query(false), query(true)]), 2);
}

#[test]
fn batch_collides_where_a_lane_does() {
    assert!(!batch_collides(&[]));
    assert!(!batch_collides(&[false, false]));
    assert!(batch_collides(&[false, false, true]));
}

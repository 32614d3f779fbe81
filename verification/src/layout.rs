//! How point clouds and query traces are laid out in files.

use crate::recording::RecordedQuery;
use crate::workload::{
    count_at, count_bytes, holds_records, lemma_query_record, lemma_record_at, point_at,
    point_bytes, points_read_back, queries_read_back, query_at, query_bytes, records_bytes,
    word_at,
};
use vstd::prelude::*;

verus! {

/// The number that `n` bytes from `at` on stand for, the least significant first.
pub open spec fn little_endian(bytes: Seq<u8>, at: int, n: nat) -> int
    decreases n,
{
    if n == 0 {
        0
    } else {
        bytes[at] + 256 * little_endian(bytes, at + 1, (n - 1) as nat)
    }
}

proof fn lemma_word(bytes: Seq<u8>, at: int)
    ensures
        little_endian(bytes, at, 4) == word_at(bytes, at),
{
    reveal_with_fuel(little_endian, 5);
}

proof fn lemma_count(bytes: Seq<u8>)
    ensures
        little_endian(bytes, 0, 8) == count_at(bytes, 0),
{
    reveal_with_fuel(little_endian, 9);
    lemma_word(bytes, 0);
    lemma_word(bytes, 4);
}

/// What is read from a file: the count from its first eight bytes, and each coordinate of a point
/// from four bytes of its record of twelve.
pub proof fn points_are_read_from_their_places(bytes: Seq<u8>, i: int)
    ensures
        count_at(bytes, 0) == little_endian(bytes, 0, 8),
        holds_records(bytes, 12) <==> bytes.len() >= 8 && bytes.len() >= 8 + little_endian(
            bytes,
            0,
            8,
        ) * 12,
        point_at(bytes, i)[0] == little_endian(bytes, 8 + 12 * i, 4),
        point_at(bytes, i)[1] == little_endian(bytes, 8 + 12 * i + 4, 4),
        point_at(bytes, i)[2] == little_endian(bytes, 8 + 12 * i + 8, 4),
{
    lemma_count(bytes);
    lemma_word(bytes, 8 + 12 * i);
    lemma_word(bytes, 8 + 12 * i + 4);
    lemma_word(bytes, 8 + 12 * i + 8);
}

/// What is read from a file: the count from its first eight bytes, the center and the radius of a
/// query from four bytes each of its record of eighteen, and its lane width from the last.
pub proof fn queries_are_read_from_their_places(bytes: Seq<u8>, i: int)
    ensures
        count_at(bytes, 0) == little_endian(bytes, 0, 8),
        holds_records(bytes, 18) <==> bytes.len() >= 8 && bytes.len() >= 8 + little_endian(
            bytes,
            0,
            8,
        ) * 18,
        query_at(bytes, i).center[0] == little_endian(bytes, 8 + 18 * i, 4),
        query_at(bytes, i).center[1] == little_endian(bytes, 8 + 18 * i + 4, 4),
        query_at(bytes, i).center[2] == little_endian(bytes, 8 + 18 * i + 8, 4),
        query_at(bytes, i).r == little_endian(bytes, 8 + 18 * i + 12, 4),
        query_at(bytes, i).lanes == bytes[8 + 18 * i + 17],
{
    lemma_count(bytes);
    lemma_word(bytes, 8 + 18 * i);
    lemma_word(bytes, 8 + 18 * i + 4);
    lemma_word(bytes, 8 + 18 * i + 8);
    lemma_word(bytes, 8 + 18 * i + 12);
}

/// The file of a point cloud has the number of points in its first eight bytes, and then twelve
/// bytes for each: four for each coordinate, all with the least significant byte first.
pub proof fn points_are_written_to_their_places(points: Seq<[u32; 3]>)
    requires
        points.len() <= usize::MAX,
    ensures
        ({
            let bytes = count_bytes(points.len() as u64) + records_bytes(
                points,
                |p: [u32; 3]| point_bytes(p),
            );
            &&& bytes.len() == 8 + 12 * points.len()
            &&& little_endian(bytes, 0, 8) == points.len()
            &&& forall|i: int|
                #![trigger points[i]]
                0 <= i < points.len() ==> {
                    &&& little_endian(bytes, 8 + 12 * i, 4) == points[i][0]
                    &&& little_endian(bytes, 8 + 12 * i + 4, 4) == points[i][1]
                    &&& little_endian(bytes, 8 + 12 * i + 8, 4) == points[i][2]
                }
        }),
{
    let f = |p: [u32; 3]| point_bytes(p);
    let bytes = count_bytes(points.len() as u64) + records_bytes(points, f);
    points_read_back(points);
    lemma_record_at(points, f, 12, 0);
    lemma_count(bytes);
    assert forall|i: int| #![trigger points[i]] 0 <= i < points.len() implies {
        &&& little_endian(bytes, 8 + 12 * i, 4) == points[i][0]
        &&& little_endian(bytes, 8 + 12 * i + 4, 4) == points[i][1]
        &&& little_endian(bytes, 8 + 12 * i + 8, 4) == points[i][2]
    } by {
        assert(point_at(bytes, i) == points[i]);
        points_are_read_from_their_places(bytes, i);
    }
}

/// The file of a query trace has the number of queries in its first eight bytes, and then eighteen
/// bytes for each: four for each coordinate of the center and for the radius, all with the least
/// significant byte first, one that is set if the query collided, and one for the lane width.
#[verifier::rlimit(40)]
pub proof fn queries_are_written_to_their_places(queries: Seq<RecordedQuery<u32>>)
    requires
        queries.len() <= usize::MAX,
    ensures
        ({
            let bytes = count_bytes(queries.len() as u64) + records_bytes(
                queries,
                |q: RecordedQuery<u32>| query_bytes(q),
            );
            &&& bytes.len() == 8 + 18 * queries.len()
            &&& little_endian(bytes, 0, 8) == queries.len()
            &&& forall|i: int|
                #![trigger queries[i]]
                0 <= i < queries.len() ==> {
                    &&& little_endian(bytes, 8 + 18 * i, 4) == queries[i].x
                    &&& little_endian(bytes, 8 + 18 * i + 4, 4) == queries[i].y
                    &&& little_endian(bytes, 8 + 18 * i + 8, 4) == queries[i].z
                    &&& little_endian(bytes, 8 + 18 * i + 12, 4) == queries[i].r
                    &&& bytes[8 + 18 * i + 16] == if queries[i].collided {
                        1int
                    } else {
                        0
                    }
                    &&& bytes[8 + 18 * i + 17] == queries[i].lanes
                }
        }),
{
    let f = |q: RecordedQuery<u32>| query_bytes(q);
    let head = count_bytes(queries.len() as u64);
    let body = records_bytes(queries, f);
    let bytes = head + body;
    queries_read_back(queries);
    lemma_record_at(queries, f, 18, 0);
    lemma_count(bytes);
    assert forall|i: int| #![trigger queries[i]] 0 <= i < queries.len() implies {
        &&& little_endian(bytes, 8 + 18 * i, 4) == queries[i].x
        &&& little_endian(bytes, 8 + 18 * i + 4, 4) == queries[i].y
        &&& little_endian(bytes, 8 + 18 * i + 8, 4) == queries[i].z
        &&& little_endian(bytes, 8 + 18 * i + 12, 4) == queries[i].r
        &&& bytes[8 + 18 * i + 16] == if queries[i].collided {
            1int
        } else {
            0
        }
        &&& bytes[8 + 18 * i + 17] == queries[i].lanes
    } by {
        let q = queries[i];
        lemma_record_at(queries, f, 18, i);
        assert(i * 18 == 18 * i);
        let at = 8 + 18 * i;
        assert(bytes.subrange(at, at + 18) =~= body.subrange(18 * i, 18 * i + 18));
        assert(bytes.subrange(at, at + 18) == query_bytes(q));
        lemma_query_record(bytes, at, q);
        lemma_word(bytes, at);
        lemma_word(bytes, at + 4);
        lemma_word(bytes, at + 8);
        lemma_word(bytes, at + 12);
        assert(bytes.subrange(at, at + 18)[16] == bytes[at + 16]);
        assert(bytes.subrange(at, at + 18)[17] == bytes[at + 17]);
    }
}

} // verus!

//! The files that hold point clouds and query traces.

use crate::recording::RecordedQuery;
use vstd::prelude::*;

verus! {

// ---------------------------------------------------------------------------------------------
// Files
// ---------------------------------------------------------------------------------------------

/// The file ended before all of its records.
#[derive(Clone, Copy, Debug, PartialEq, Eq, Structural)]
pub struct UnexpectedEnd;

/// The number that four bytes stand for, the least significant first.
pub open spec fn word_at(bytes: Seq<u8>, at: int) -> u32 {
    (bytes[at] + bytes[at + 1] * 0x100 + bytes[at + 2] * 0x1_0000 + bytes[at + 3]
        * 0x100_0000) as u32
}

/// The number that eight bytes stand for, the least significant first.
pub open spec fn count_at(bytes: Seq<u8>, at: int) -> nat {
    (word_at(bytes, at) + word_at(bytes, at + 4) * 0x1_0000_0000) as nat
}

/// The bytes of a number, the least significant first.
pub open spec fn word_bytes(x: u32) -> Seq<u8> {
    seq![
        (x % 0x100) as u8,
        (x / 0x100 % 0x100) as u8,
        (x / 0x1_0000 % 0x100) as u8,
        (x / 0x100_0000) as u8,
    ]
}

/// The bytes of a count, the least significant first.
pub open spec fn count_bytes(n: u64) -> Seq<u8> {
    word_bytes((n % 0x1_0000_0000) as u32) + word_bytes((n / 0x1_0000_0000) as u32)
}

fn read_word(bytes: &[u8], at: usize) -> (r: u32)
    requires
        at + 4 <= bytes@.len(),
    ensures
        r == word_at(bytes@, at as int),
{
    bytes[at] as u32 + bytes[at + 1] as u32 * 0x100 + bytes[at + 2] as u32 * 0x1_0000 + bytes[at
        + 3] as u32 * 0x100_0000
}

fn push_word(out: &mut Vec<u8>, x: u32)
    ensures
        final(out)@ == old(out)@ + word_bytes(x),
{
    out.push((x % 0x100) as u8);
    out.push((x / 0x100 % 0x100) as u8);
    out.push((x / 0x1_0000 % 0x100) as u8);
    out.push((x / 0x100_0000) as u8);
    assert(out@ =~= old(out)@ + word_bytes(x));
}

fn push_count(out: &mut Vec<u8>, n: u64)
    ensures
        final(out)@ == old(out)@ + count_bytes(n),
{
    push_word(out, (n % 0x1_0000_0000) as u32);
    push_word(out, (n / 0x1_0000_0000) as u32);
    assert(out@ =~= old(out)@ + count_bytes(n));
}

/// Read the count that a file starts with.
fn read_count(bytes: &[u8]) -> (r: u64)
    requires
        bytes@.len() >= 8,
    ensures
        r == count_at(bytes@, 0),
{
    read_word(bytes, 0) as u64 + read_word(bytes, 4) as u64 * 0x1_0000_0000
}

/// Whether `bytes` hold a count and that many records of `size` bytes.
pub open spec fn holds_records(bytes: Seq<u8>, size: nat) -> bool {
    bytes.len() >= 8 && 8 + count_at(bytes, 0) * size <= bytes.len()
}

/// The point in record `i`, each coordinate by its bit pattern.
pub open spec fn point_at(bytes: Seq<u8>, i: int) -> [u32; 3]
    recommends
        holds_records(bytes, 12),
{
    let at = 8 + i * 12;
    [word_at(bytes, at), word_at(bytes, at + 4), word_at(bytes, at + 8)]
}

/// Read a point cloud: a `u64` little-endian count followed by that many little-endian records of
/// three single-precision coordinates, which are given by their bit patterns.
pub fn read_points(bytes: &[u8]) -> (r: Result<Vec<[u32; 3]>, UnexpectedEnd>)
    ensures
        r is Ok <==> holds_records(bytes@, 12),
        r matches Ok(points) ==> {
            &&& points@.len() == count_at(bytes@, 0)
            &&& forall|i: int|
                0 <= i < points@.len() ==> #[trigger] points@[i] == point_at(bytes@, i)
        },
{
    if bytes.len() < 8 {
        return Err(UnexpectedEnd);
    }
    let count: u64 = read_count(bytes);
    let mut points: Vec<[u32; 3]> = Vec::new();
    let mut at: usize = 8;
    let mut i: u64 = 0;
    while i < count
        invariant
            i <= count,
            count == count_at(bytes@, 0),
            bytes@.len() >= 8,
            at == 8 + i * 12,
            at <= bytes@.len(),
            points@.len() == i,
            forall|j: int| 0 <= j < i ==> #[trigger] points@[j] == point_at(bytes@, j),
        decreases count - i,
    {
        if bytes.len() - at < 12 {
            return Err(UnexpectedEnd);
        }
        let p: [u32; 3] = [
            read_word(bytes, at),
            read_word(bytes, at + 4),
            read_word(bytes, at + 8),
        ];
        assert(p@ =~= point_at(bytes@, i as int)@);
        assert(p == point_at(bytes@, i as int));
        points.push(p);
        at = at + 12;
        i = i + 1;
    }
    Ok(points)
}

/// The bytes of one point.
pub open spec fn point_bytes(p: [u32; 3]) -> Seq<u8> {
    word_bytes(p[0]) + word_bytes(p[1]) + word_bytes(p[2])
}

/// The bytes of a sequence of records.
pub open spec fn records_bytes<T>(records: Seq<T>, f: spec_fn(T) -> Seq<u8>) -> Seq<u8>
    decreases records.len(),
{
    if records.len() == 0 {
        Seq::empty()
    } else {
        records_bytes(records.drop_last(), f) + f(records.last())
    }
}

/// Write `points` as a `u64` little-endian count followed by that many records of three
/// single-precision coordinates (12 bytes each, little-endian), given by their bit patterns.
pub fn write_points(points: &[[u32; 3]]) -> (out: Vec<u8>)
    ensures
        out@ == count_bytes(points@.len() as u64) + records_bytes(
            points@,
            |p: [u32; 3]| point_bytes(p),
        ),
{
    let ghost f = |p: [u32; 3]| point_bytes(p);
    let mut out: Vec<u8> = Vec::new();
    push_count(&mut out, points.len() as u64);
    let ghost head = count_bytes(points@.len() as u64);
    let mut i: usize = 0;
    assert(points@.take(0) =~= Seq::<[u32; 3]>::empty());
    assert(out@ =~= head + records_bytes(points@.take(0), f));
    while i < points.len()
        invariant
            i <= points.len(),
            f == (|p: [u32; 3]| point_bytes(p)),
            out@ == head + records_bytes(points@.take(i as int), f),
        decreases points.len() - i,
    {
        let p: [u32; 3] = points[i];
        push_word(&mut out, p[0]);
        push_word(&mut out, p[1]);
        push_word(&mut out, p[2]);
        proof {
            let taken = points@.take(i + 1);
            assert(taken.drop_last() =~= points@.take(i as int));
            assert(out@ =~= head + records_bytes(taken, f));
        }
        i += 1;
    }
    assert(points@.take(i as int) =~= points@);
    out
}

/// Record `i` of a sequence of records of `size` bytes each lies at `i * size`.
pub(crate) proof fn lemma_record_at<T>(records: Seq<T>, f: spec_fn(T) -> Seq<u8>, size: nat, i: int)
    requires
        forall|r: T| (#[trigger] f(r)).len() == size,
    ensures
        records_bytes(records, f).len() == records.len() * size,
        0 <= i < records.len() ==> {
            &&& 0 <= i * size
            &&& i * size + size <= records.len() * size
            &&& records_bytes(records, f).subrange(i * size, i * size + size) == f(records[i])
        },
    decreases records.len(),
{
    if records.len() > 0 {
        let n = records.len();
        let fewer = records.drop_last();
        lemma_record_at(fewer, f, size, i);
        assert((n - 1) * size + size == n * size) by (nonlinear_arith);
        if 0 <= i < n {
            assert(0 <= i * size && i * size + size <= n * size) by (nonlinear_arith)
                requires
                    0 <= i < n,
            ;
            if i < n - 1 {
                assert(i * size + size <= (n - 1) * size) by (nonlinear_arith)
                    requires
                        0 <= i < n - 1,
                ;
                assert(records_bytes(records, f).subrange(i * size, i * size + size)
                    =~= records_bytes(fewer, f).subrange(i * size, i * size + size));
            } else {
                assert(records_bytes(records, f).subrange(i * size, i * size + size) =~= f(
                    records.last(),
                ));
            }
        }
    } else {
        assert(0 * size == 0) by (nonlinear_arith);
    }
}

proof fn lemma_word_bytes(bytes: Seq<u8>, at: int, x: u32)
    requires
        0 <= at,
        at + 4 <= bytes.len(),
        bytes.subrange(at, at + 4) == word_bytes(x),
    ensures
        word_at(bytes, at) == x,
{
    let b = bytes.subrange(at, at + 4);
    assert(b[0] == bytes[at] && b[1] == bytes[at + 1] && b[2] == bytes[at + 2] && b[3] == bytes[at
        + 3]);
    assert(word_bytes(x)[0] == (x % 0x100) as u8);
    assert(word_bytes(x)[1] == (x / 0x100 % 0x100) as u8);
    assert(word_bytes(x)[2] == (x / 0x1_0000 % 0x100) as u8);
    assert(word_bytes(x)[3] == (x / 0x100_0000) as u8);
    lemma_word_digits(x);
}

/// A number is the sum of its digits in base 256.
proof fn lemma_word_digits(x: u32)
    by (bit_vector)
    ensures
        x / 0x100_0000 < 0x100,
        x % 0x100 + x / 0x100 % 0x100 * 0x100 + x / 0x1_0000 % 0x100 * 0x1_0000 + x / 0x100_0000
            * 0x100_0000 == x,
{
}

proof fn lemma_count_bytes(bytes: Seq<u8>, n: u64)
    requires
        bytes.len() >= 8,
        bytes.take(8) == count_bytes(n),
    ensures
        count_at(bytes, 0) == n,
{
    let head = count_bytes(n);
    assert(bytes.subrange(0, 4) =~= word_bytes((n % 0x1_0000_0000) as u32)) by {
        assert(bytes.take(8).subrange(0, 4) =~= bytes.subrange(0, 4));
        assert(head.subrange(0, 4) =~= word_bytes((n % 0x1_0000_0000) as u32));
    }
    assert(bytes.subrange(4, 8) =~= word_bytes((n / 0x1_0000_0000) as u32)) by {
        assert(bytes.take(8).subrange(4, 8) =~= bytes.subrange(4, 8));
        assert(head.subrange(4, 8) =~= word_bytes((n / 0x1_0000_0000) as u32));
    }
    lemma_word_bytes(bytes, 0, (n % 0x1_0000_0000) as u32);
    lemma_word_bytes(bytes, 4, (n / 0x1_0000_0000) as u32);
}

/// A word of a record lies at its offset from the start of the record.
proof fn lemma_word_in(bytes: Seq<u8>, at: int, record: Seq<u8>, offset: int, x: u32)
    requires
        0 <= at,
        at + record.len() <= bytes.len(),
        bytes.subrange(at, at + record.len()) == record,
        0 <= offset,
        offset + 4 <= record.len(),
        record.subrange(offset, offset + 4) == word_bytes(x),
    ensures
        word_at(bytes, at + offset) == x,
{
    let here = bytes.subrange(at, at + record.len());
    assert(bytes.subrange(at + offset, at + offset + 4) =~= here.subrange(offset, offset + 4));
    lemma_word_bytes(bytes, at + offset, x);
}

proof fn lemma_point_record(bytes: Seq<u8>, at: int, p: [u32; 3])
    requires
        0 <= at,
        at + 12 <= bytes.len(),
        bytes.subrange(at, at + 12) == point_bytes(p),
    ensures
        word_at(bytes, at) == p[0],
        word_at(bytes, at + 4) == p[1],
        word_at(bytes, at + 8) == p[2],
{
    let record = point_bytes(p);
    assert(record.subrange(0, 4) =~= word_bytes(p[0]));
    lemma_word_in(bytes, at, record, 0, p[0]);
    assert(record.subrange(4, 8) =~= word_bytes(p[1]));
    lemma_word_in(bytes, at, record, 4, p[1]);
    assert(record.subrange(8, 12) =~= word_bytes(p[2]));
    lemma_word_in(bytes, at, record, 8, p[2]);
}

/// Reading gives back the points that were written.
pub proof fn points_read_back(points: Seq<[u32; 3]>)
    requires
        points.len() <= usize::MAX,
    ensures
        ({
            let bytes = count_bytes(points.len() as u64) + records_bytes(
                points,
                |p: [u32; 3]| point_bytes(p),
            );
            &&& holds_records(bytes, 12)
            &&& count_at(bytes, 0) == points.len()
            &&& forall|i: int| 0 <= i < points.len() ==> #[trigger] point_at(bytes, i) == points[i]
        }),
{
    let f = |p: [u32; 3]| point_bytes(p);
    let head = count_bytes(points.len() as u64);
    let body = records_bytes(points, f);
    let bytes = head + body;
    assert(bytes.take(8) =~= head);
    lemma_record_at(points, f, 12, 0);
    lemma_count_bytes(bytes, points.len() as u64);
    assert forall|i: int| 0 <= i < points.len() implies #[trigger] point_at(bytes, i)
        == points[i] by {
        lemma_record_at(points, f, 12, i);
        let at = 8 + i * 12;
        assert(bytes.subrange(at, at + 12) =~= body.subrange(i * 12, i * 12 + 12));
        lemma_point_record(bytes, at, points[i]);
        assert(point_at(bytes, i)@ =~= points[i]@);
    }
}

/// A query read directly from a query trace file, still tagged with `lanes`: the width of the
/// batch that this query was part of (see [`RecordedQuery::lanes`]). `lanes == 1` means this was
/// an individually-issued single-configuration validity check; `lanes == L > 1` means it was one
/// lane of an `L`-wide batch issued together for a raked motion-segment validity check.
#[derive(Clone, Copy, Debug, PartialEq, Eq)]
pub struct RawQuery<A> {
    pub center: [A; 3],
    pub r: A,
    pub lanes: u8,
}

/// A collision query.
#[derive(Clone, Copy, Debug, PartialEq, Eq)]
pub struct Query<A> {
    pub center: [A; 3],
    pub r: A,
}

/// The query in record `i`, its values by their bit patterns.
pub open spec fn query_at(bytes: Seq<u8>, i: int) -> RawQuery<u32> {
    let at = 8 + i * 18;
    RawQuery {
        center: [word_at(bytes, at), word_at(bytes, at + 4), word_at(bytes, at + 8)],
        r: word_at(bytes, at + 12),
        lanes: bytes[at + 17],
    }
}

/// Read a query trace: a `u64` little-endian count followed by that many
/// `(x, y, z, r, collided, lanes)` little-endian records, whose single-precision values are given
/// by their bit patterns.
pub fn read_queries(bytes: &[u8]) -> (r: Result<Vec<RawQuery<u32>>, UnexpectedEnd>)
    ensures
        r is Ok <==> holds_records(bytes@, 18),
        r matches Ok(queries) ==> {
            &&& queries@.len() == count_at(bytes@, 0)
            &&& forall|i: int|
                0 <= i < queries@.len() ==> #[trigger] queries@[i] == query_at(bytes@, i)
        },
{
    if bytes.len() < 8 {
        return Err(UnexpectedEnd);
    }
    let count: u64 = read_count(bytes);
    let mut queries: Vec<RawQuery<u32>> = Vec::new();
    let mut at: usize = 8;
    let mut i: u64 = 0;
    while i < count
        invariant
            i <= count,
            count == count_at(bytes@, 0),
            bytes@.len() >= 8,
            at == 8 + i * 18,
            at <= bytes@.len(),
            queries@.len() == i,
            forall|j: int| 0 <= j < i ==> #[trigger] queries@[j] == query_at(bytes@, j),
        decreases count - i,
    {
        if bytes.len() - at < 18 {
            return Err(UnexpectedEnd);
        }
        let center: [u32; 3] = [
            read_word(bytes, at),
            read_word(bytes, at + 4),
            read_word(bytes, at + 8),
        ];
        assert(center@ =~= query_at(bytes@, i as int).center@);
        assert(center == query_at(bytes@, i as int).center);
        queries.push(RawQuery { center, r: read_word(bytes, at + 12), lanes: bytes[at + 17] });
        at = at + 18;
        i = i + 1;
    }
    Ok(queries)
}

/// The bytes of one recorded query.
pub open spec fn query_bytes(q: RecordedQuery<u32>) -> Seq<u8> {
    word_bytes(q.x) + word_bytes(q.y) + word_bytes(q.z) + word_bytes(q.r) + seq![
        if q.collided {
            1u8
        } else {
            0u8
        },
        q.lanes,
    ]
}

/// Write `queries` as a `u64` little-endian count followed by that many
/// `(x, y, z, r, collided, lanes)` records (4 little-endian single-precision values, given by
/// their bit patterns, + 2 `u8`s, 18 bytes each). `lanes` is the width of the batch each query was
/// part of (see [`RecordedQuery::lanes`]) and lets replay reconstruct the planner's true batch
/// structure.
pub fn write_queries(queries: &[RecordedQuery<u32>]) -> (out: Vec<u8>)
    ensures
        out@ == count_bytes(queries@.len() as u64) + records_bytes(
            queries@,
            |q: RecordedQuery<u32>| query_bytes(q),
        ),
{
    let ghost f = |q: RecordedQuery<u32>| query_bytes(q);
    let mut out: Vec<u8> = Vec::new();
    push_count(&mut out, queries.len() as u64);
    let ghost head = count_bytes(queries@.len() as u64);
    let mut i: usize = 0;
    assert(queries@.take(0) =~= Seq::<RecordedQuery<u32>>::empty());
    assert(out@ =~= head + records_bytes(queries@.take(0), f));
    while i < queries.len()
        invariant
            i <= queries.len(),
            f == (|q: RecordedQuery<u32>| query_bytes(q)),
            out@ == head + records_bytes(queries@.take(i as int), f),
        decreases queries.len() - i,
    {
        let q: RecordedQuery<u32> = queries[i];
        push_word(&mut out, q.x);
        push_word(&mut out, q.y);
        push_word(&mut out, q.z);
        push_word(&mut out, q.r);
        out.push(
            if q.collided {
                1u8
            } else {
                0u8
            },
        );
        out.push(q.lanes);
        proof {
            let taken = queries@.take(i + 1);
            assert(taken.drop_last() =~= queries@.take(i as int));
            assert(out@ =~= head + records_bytes(taken, f));
        }
        i += 1;
    }
    assert(queries@.take(i as int) =~= queries@);
    out
}

pub(crate) proof fn lemma_query_record(bytes: Seq<u8>, at: int, q: RecordedQuery<u32>)
    requires
        0 <= at,
        at + 18 <= bytes.len(),
        bytes.subrange(at, at + 18) == query_bytes(q),
    ensures
        word_at(bytes, at) == q.x,
        word_at(bytes, at + 4) == q.y,
        word_at(bytes, at + 8) == q.z,
        word_at(bytes, at + 12) == q.r,
        bytes[at + 17] == q.lanes,
{
    let record = query_bytes(q);
    assert(record.subrange(0, 4) =~= word_bytes(q.x));
    lemma_word_in(bytes, at, record, 0, q.x);
    assert(record.subrange(4, 8) =~= word_bytes(q.y));
    lemma_word_in(bytes, at, record, 4, q.y);
    assert(record.subrange(8, 12) =~= word_bytes(q.z));
    lemma_word_in(bytes, at, record, 8, q.z);
    assert(record.subrange(12, 16) =~= word_bytes(q.r));
    lemma_word_in(bytes, at, record, 12, q.r);
    assert(bytes.subrange(at, at + 18)[17] == bytes[at + 17]);
    assert(record[17] == q.lanes);
}

/// A recorded query as it is read back.
pub open spec fn raw_of<A>(q: RecordedQuery<A>) -> RawQuery<A> {
    RawQuery { center: [q.x, q.y, q.z], r: q.r, lanes: q.lanes }
}

/// Reading gives back the queries that were written, without their results.
pub proof fn queries_read_back(queries: Seq<RecordedQuery<u32>>)
    requires
        queries.len() <= usize::MAX,
    ensures
        ({
            let bytes = count_bytes(queries.len() as u64) + records_bytes(
                queries,
                |q: RecordedQuery<u32>| query_bytes(q),
            );
            &&& holds_records(bytes, 18)
            &&& count_at(bytes, 0) == queries.len()
            &&& forall|i: int|
                0 <= i < queries.len() ==> #[trigger] query_at(bytes, i) == raw_of(queries[i])
        }),
{
    let f = |q: RecordedQuery<u32>| query_bytes(q);
    let head = count_bytes(queries.len() as u64);
    let body = records_bytes(queries, f);
    let bytes = head + body;
    assert(bytes.take(8) =~= head);
    lemma_record_at(queries, f, 18, 0);
    lemma_count_bytes(bytes, queries.len() as u64);
    assert forall|i: int| 0 <= i < queries.len() implies #[trigger] query_at(bytes, i) == raw_of(
        queries[i],
    ) by {
        lemma_record_at(queries, f, 18, i);
        let at = 8 + i * 18;
        assert(bytes.subrange(at, at + 18) =~= body.subrange(i * 18, i * 18 + 18));
        lemma_query_record(bytes, at, queries[i]);
        assert(query_at(bytes, i).center@ =~= raw_of(queries[i]).center@);
    }
}

} // verus!

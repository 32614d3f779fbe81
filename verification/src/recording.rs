//! Recording the collision queries that a planner issues.

use vstd::prelude::*;

verus! {

/// A single collision-checking query and its ground-truth result.
#[derive(Clone, Copy, Debug, PartialEq, Eq)]
pub struct RecordedQuery<A> {
    /// Query sphere center, x coordinate.
    pub x: A,
    /// Query sphere center, y coordinate.
    pub y: A,
    /// Query sphere center, z coordinate.
    pub z: A,
    /// Query sphere radius.
    pub r: A,
    /// Whether this query collided with the world it was checked against.
    pub collided: bool,
    /// The width of the batch that this query was part of: 1 for a query that was issued on its
    /// own.
    pub lanes: u8,
}

/// The record of every scalar-equivalent collision query that a world is asked, in the order they
/// occur.
///
/// Batched queries are unpacked and recorded one lane at a time.
#[derive(Clone, Debug)]
pub struct RecordingWorld<A> {
    log: Vec<RecordedQuery<A>>,
}

impl<A: Copy> View for RecordingWorld<A> {
    type V = Seq<RecordedQuery<A>>;

    closed spec fn view(&self) -> Seq<RecordedQuery<A>> {
        self.log@
    }
}

/// The records of a batch of queries, one for each lane.
pub open spec fn lane_records<A, const L: usize>(
    xs: [A; L],
    ys: [A; L],
    zs: [A; L],
    rs: [A; L],
    collided: [bool; L],
) -> Seq<RecordedQuery<A>> {
    Seq::new(
        L as nat,
        |l: int|
            RecordedQuery {
                x: xs@[l],
                y: ys@[l],
                z: zs@[l],
                r: rs@[l],
                collided: collided@[l],
                lanes: L as u8,
            },
    )
}

impl<A: Copy> RecordingWorld<A> {
    /// Start with nothing recorded.
    #[must_use]
    pub fn new() -> (w: Self)
        ensures
            w@ == Seq::<RecordedQuery<A>>::empty(),
    {
        RecordingWorld { log: Vec::new() }
    }

    /// Remove and return every query recorded so far.
    pub fn take_queries(&mut self) -> (queries: Vec<RecordedQuery<A>>)
        ensures
            queries@ == old(self)@,
            final(self)@ == Seq::<RecordedQuery<A>>::empty(),
    {
        let mut queries: Vec<RecordedQuery<A>> = Vec::new();
        core::mem::swap(&mut self.log, &mut queries);
        queries
    }

    /// Record a query that was issued on its own, and pass on its result.
    pub fn collides_ball(&mut self, x: A, y: A, z: A, r: A, collided: bool) -> (c: bool)
        ensures
            c == collided,
            final(self)@ == old(self)@.push((RecordedQuery { x, y, z, r, collided, lanes: 1 })),
    {
        self.log.push(RecordedQuery { x, y, z, r, collided, lanes: 1 });
        collided
    }

    /// Record a batch of queries with the result of each lane, and pass on the result of the
    /// batch.
    pub fn collides_balls<const L: usize>(
        &mut self,
        xs: [A; L],
        ys: [A; L],
        zs: [A; L],
        rs: [A; L],
        any: bool,
        collided: [bool; L],
    ) -> (c: bool)
        requires
            L <= u8::MAX,
        ensures
            c == any,
            final(self)@ == old(self)@ + lane_records(xs, ys, zs, rs, collided),
    {
        let ghost before = self@;
        let ghost records = lane_records(xs, ys, zs, rs, collided);
        let mut l: usize = 0;
        assert(records.take(0) =~= Seq::<RecordedQuery<A>>::empty());
        while l < L
            invariant
                l <= L,
                L <= u8::MAX,
                records == lane_records(xs, ys, zs, rs, collided),
                self@ =~= before + records.take(l as int),
            decreases L - l,
        {
            self.log.push(
                RecordedQuery {
                    x: xs[l],
                    y: ys[l],
                    z: zs[l],
                    r: rs[l],
                    collided: collided[l],
                    lanes: L as u8,
                },
            );
            assert(records.take(l + 1) =~= records.take(l as int).push(records[l as int]));
            l += 1;
        }
        assert(records.take(L as int) =~= records);
        any
    }
}

/// Count the queries that collided.
pub fn count_collided<A: Copy>(queries: &[RecordedQuery<A>]) -> (n: usize)
    ensures
        n == queries@.filter(|q: RecordedQuery<A>| q.collided).len(),
{
    let ghost collided = |q: RecordedQuery<A>| q.collided;
    let mut n: usize = 0;
    let mut i: usize = 0;
    assert(queries@.take(0) =~= Seq::<RecordedQuery<A>>::empty());
    reveal(Seq::filter);
    while i < queries.len()
        invariant
            i <= queries.len(),
            n <= i,
            collided == (|q: RecordedQuery<A>| q.collided),
            n == queries@.take(i as int).filter(collided).len(),
        decreases queries.len() - i,
    {
        proof {
            reveal(Seq::filter);
            let taken = queries@.take(i + 1);
            assert(taken.drop_last() =~= queries@.take(i as int));
            assert(taken.last() == queries@[i as int]);
        }
        if queries[i].collided {
            n += 1;
        }
        i += 1;
    }
    assert(queries@.take(i as int) =~= queries@);
    n
}

} // verus!

//! What calls of [`get_leaf`](crate::grid::get_leaf) do to a pool of tables, one after another.

use crate::grid::{
    dense_from, dense_len, find, has_room, is_cell, is_path, leaf_taken,
    present_leaf_needs_nothing, tables_wf,
};
use crate::index::Index;
use crate::memory::saturated;
use crate::occupancy::{
    directory, table_len, table_len_is_bounded, taking_a_leaf_adds_its_tables,
};
use vstd::prelude::*;

verus! {

/// The path to the table that holds the slot of `cell`.
pub open spec fn leaf_path(cell: Seq<usize>) -> Seq<usize> {
    cell.take(cell.len() - 1)
}

/// Whether the table that holds the slot of `cell` is there.
pub open spec fn has_slot<I: Index>(tables: Seq<I>, cell: Seq<usize>) -> bool {
    find(tables, leaf_path(cell)) is Some
}

/// The slot of `cell`.
pub open spec fn slot_of<I: Index>(tables: Seq<I>, cell: Seq<usize>) -> int {
    find(tables, leaf_path(cell))->0 + cell.last()
}

/// Calling again for the same cell cannot fail, returns the same slot, and leaves the pool as it
/// is.
pub proof fn repeated_call_changes_nothing<I: Index>(
    before: Seq<I>,
    once: Seq<I>,
    twice: Seq<I>,
    widths: Seq<usize>,
    cell: Seq<usize>,
    first_slot: int,
    second_slot: int,
)
    requires
        widths.len() > 0,
        is_cell(widths, cell),
        leaf_taken(before, once, widths, cell, first_slot),
        leaf_taken(once, twice, widths, cell, second_slot),
    ensures
        has_room(once, widths, cell, 1, once.len() as int),
        twice == once,
        second_slot == first_slot,
{
    present_leaf_needs_nothing(once, widths, cell, 1, once.len() as int);
}

/// Different cells have different slots.
pub proof fn different_cells_have_different_slots<I: Index>(
    tables: Seq<I>,
    widths: Seq<usize>,
    a: Seq<usize>,
    b: Seq<usize>,
)
    requires
        widths.len() > 0,
        tables_wf(tables, widths),
        is_cell(widths, a),
        is_cell(widths, b),
        has_slot(tables, a),
        has_slot(tables, b),
        a != b,
    ensures
        slot_of(tables, a) != slot_of(tables, b),
{
    let last = widths.len() - 1;
    assert(is_path(widths, leaf_path(a)) && is_path(widths, leaf_path(b)));
    assert(a[last] < widths[last] && b[last] < widths[last]);
    if leaf_path(a) == leaf_path(b) {
        assert(a =~= leaf_path(a).push(a.last()));
        assert(b =~= leaf_path(b).push(b.last()));
    }
}

/// Whether `after` is `before` with other entries in slots of cells, and nowhere else.
pub open spec fn slots_written<I: Index>(
    before: Seq<I>,
    after: Seq<I>,
    widths: Seq<usize>,
) -> bool {
    &&& after.len() == before.len()
    &&& forall|i: int|
        #![trigger after[i]]
        0 <= i < before.len() && after[i] != before[i] ==> exists|cell: Seq<usize>| #[trigger]
            is_cell(widths, cell) && has_slot(before, cell) && slot_of(before, cell) == i
}

proof fn lemma_write_keeps_path<I: Index>(
    before: Seq<I>,
    after: Seq<I>,
    widths: Seq<usize>,
    q: Seq<usize>,
)
    requires
        widths.len() > 0,
        tables_wf(before, widths),
        slots_written(before, after, widths),
        is_path(widths, q),
        q.len() < widths.len(),
    ensures
        find(after, q) == find(before, q),
    decreases q.len(),
{
    if q.len() > 0 {
        let parent = q.drop_last();
        let d = q.last();
        let level = parent.len() as int;
        assert(is_path(widths, parent));
        lemma_write_keeps_path(before, after, widths, parent);
        assert(q[level] < widths[level]);
        if find(before, parent) is Some {
            let i = find(before, parent)->0 + d;
            assert(i < before.len());
            if after[i] != before[i] {
                let cell = choose|cell: Seq<usize>| #[trigger]
                    is_cell(widths, cell) && has_slot(before, cell) && slot_of(before, cell) == i;
                let last = widths.len() - 1;
                assert(is_path(widths, leaf_path(cell)));
                assert(cell[last] < widths[last]);
                assert(leaf_path(cell).len() == last);
                assert(parent != leaf_path(cell));
                assert(false);
            }
        }
    }
}

/// Writing to slots leaves the tables, and the slots of all cells, where they are.
pub proof fn writing_slots_keeps_the_tables<I: Index>(
    before: Seq<I>,
    after: Seq<I>,
    widths: Seq<usize>,
)
    requires
        widths.len() > 0,
        tables_wf(before, widths),
        slots_written(before, after, widths),
    ensures
        tables_wf(after, widths),
        forall|q: Seq<usize>|
            #![trigger find(after, q)]
            is_path(widths, q) && q.len() < widths.len() ==> find(after, q) == find(before, q),
{
    assert forall|q: Seq<usize>|
        #![trigger find(after, q)]
        is_path(widths, q) && q.len() < widths.len() implies find(after, q) == find(before, q) by {
        lemma_write_keeps_path(before, after, widths, q);
    }
    assert forall|p: Seq<usize>, q: Seq<usize>|
        #![trigger find(after, p), find(after, q)]
        is_path(widths, p) && p.len() < widths.len() && find(after, p) is Some && is_path(
            widths,
            q,
        ) && q.len() < widths.len() && find(after, q) is Some && p != q implies {
        ||| find(after, p)->0 + widths[p.len() as int] <= find(after, q)->0
        ||| find(after, q)->0 + widths[q.len() as int] <= find(after, p)->0
    } by {
        assert(find(before, p) == find(after, p) && find(before, q) == find(after, q));
    }
    assert forall|p: Seq<usize>|
        #![trigger find(after, p)]
        is_path(widths, p) && p.len() < widths.len() && find(after, p) is Some implies find(
        after,
        p,
    )->0 + widths[p.len() as int] <= after.len() by {
        assert(find(before, p) == find(after, p));
    }
}

/// A course of calls from a fresh root table on: call `i` is for `cells[i]`, finds the pool
/// `pools[i]`, returns `slots[i]` and leaves the pool `taken[i]`; the caller then writes to slots,
/// which gives `pools[i + 1]`.
pub open spec fn calls<I: Index>(
    pools: Seq<Seq<I>>,
    taken: Seq<Seq<I>>,
    slots: Seq<int>,
    widths: Seq<usize>,
    cells: Seq<Seq<usize>>,
) -> bool {
    &&& pools.len() == cells.len() + 1
    &&& taken.len() == cells.len()
    &&& slots.len() == cells.len()
    &&& pools[0] == Seq::new(widths[0] as nat, |i: int| I::SENTINEL)
    &&& forall|i: int|
        #![trigger cells[i]]
        0 <= i < cells.len() ==> {
            &&& is_cell(widths, cells[i])
            &&& leaf_taken(pools[i], taken[i], widths, cells[i], slots[i])
            &&& slots_written(taken[i], pools[i + 1], widths)
        }
}

proof fn lemma_calls<I: Index>(
    pools: Seq<Seq<I>>,
    taken: Seq<Seq<I>>,
    slots: Seq<int>,
    widths: Seq<usize>,
    cells: Seq<Seq<usize>>,
    n: int,
)
    requires
        widths.len() > 0,
        calls(pools, taken, slots, widths, cells),
        0 <= n <= cells.len(),
    ensures
        directory(pools[n], widths, cells.take(n)),
        forall|i: int|
            #![trigger cells[i]]
            0 <= i < n ==> has_slot(pools[n], cells[i]) && slot_of(pools[n], cells[i]) == slots[i],
    decreases n,
{
    if n == 0 {
        assert(cells.take(0) =~= Seq::<Seq<usize>>::empty());
        crate::grid::lemma_root_table(pools[0], widths);
    } else {
        let m = n - 1;
        lemma_calls(pools, taken, slots, widths, cells, m);
        let cell = cells[m];
        assert(is_cell(widths, cell));
        taking_a_leaf_adds_its_tables(
            pools[m],
            taken[m],
            widths,
            cells.take(m),
            cell,
            slots[m],
        );
        writing_slots_keeps_the_tables(taken[m], pools[n], widths);
        assert(cells.take(m).push(cell) =~= cells.take(n));
        assert forall|q: Seq<usize>|
            #![trigger find(pools[n], q)]
            is_path(widths, q) && 1 <= q.len() < widths.len() implies (find(pools[n], q)
            is Some <==> crate::occupancy::known(cells.take(n), q)) by {
            assert(find(taken[m], q) == find(pools[n], q));
        }
        assert forall|i: int|
            #![trigger cells[i]]
            0 <= i < n implies has_slot(pools[n], cells[i]) && slot_of(pools[n], cells[i])
            == slots[i] by {
            let q = leaf_path(cells[i]);
            assert(is_path(widths, q));
            assert(find(pools[n], q) == find(taken[m], q));
            if i < m {
                assert(find(pools[m], q) is Some);
            }
        }
    }
}

/// In a course of calls, the same cell always gets the same slot, and different cells get
/// different ones. A call for a cell that was asked for before cannot fail and leaves the pool as it
/// finds it.
pub proof fn slots_identify_cells<I: Index>(
    pools: Seq<Seq<I>>,
    taken: Seq<Seq<I>>,
    slots: Seq<int>,
    widths: Seq<usize>,
    cells: Seq<Seq<usize>>,
)
    requires
        widths.len() > 0,
        calls(pools, taken, slots, widths, cells),
    ensures
        forall|i: int, j: int|
            #![trigger slots[i], slots[j]]
            0 <= i < cells.len() && 0 <= j < cells.len() ==> (slots[i] == slots[j] <==> cells[i]
                == cells[j]),
        forall|i: int, j: int|
            #![trigger cells[i], cells[j]]
            0 <= i < j < cells.len() && cells[i] == cells[j] ==> {
                &&& has_room(pools[j], widths, cells[j], 1, pools[j].len() as int)
                &&& taken[j] == pools[j]
            },
{
    let n = cells.len() as int;
    lemma_calls(pools, taken, slots, widths, cells, n);
    assert forall|i: int, j: int|
        #![trigger slots[i], slots[j]]
        0 <= i < cells.len() && 0 <= j < cells.len() implies (slots[i] == slots[j] <==> cells[i]
        == cells[j]) by {
        assert(is_cell(widths, cells[i]) && is_cell(widths, cells[j]));
        if cells[i] != cells[j] {
            different_cells_have_different_slots(pools[n], widths, cells[i], cells[j]);
        }
    }
    assert forall|i: int, j: int|
        #![trigger cells[i], cells[j]]
        0 <= i < j < cells.len() && cells[i] == cells[j] implies {
        &&& has_room(pools[j], widths, cells[j], 1, pools[j].len() as int)
        &&& taken[j] == pools[j]
    } by {
        lemma_calls(pools, taken, slots, widths, cells, j);
        assert(is_cell(widths, cells[j]));
        assert(has_slot(pools[j], cells[i]));
        present_leaf_needs_nothing(pools[j], widths, cells[j], 1, pools[j].len() as int);
    }
}

/// The bound of [`reserve_bound`](crate::grid::reserve_bound) is safe: however the calls go, the
/// pool never has more entries than the bound for their number.
pub proof fn calls_stay_within_the_bound<I: Index>(
    pools: Seq<Seq<I>>,
    taken: Seq<Seq<I>>,
    slots: Seq<int>,
    widths: Seq<usize>,
    cells: Seq<Seq<usize>>,
)
    requires
        widths.len() > 0,
        calls(pools, taken, slots, widths, cells),
    ensures
        pools.last().len() == table_len(widths, cells),
        pools.last().len() <= dense_len(widths, cells.len()),
        pools.last().len() <= usize::MAX ==> pools.last().len() <= saturated(
            dense_len(widths, cells.len()) as int,
        ),
{
    let n = cells.len() as int;
    lemma_calls(pools, taken, slots, widths, cells, n);
    assert(cells.take(n) =~= cells);
    assert forall|j: int| 0 <= j < cells.len() implies is_cell(widths, #[trigger] cells[j]) by {}
    table_len_is_bounded(widths, cells, cells.len());
}

/// The bound does not go down where the number of points goes up.
pub proof fn bound_grows_with_the_points(widths: Seq<usize>, n: nat, m: nat)
    requires
        n <= m,
    ensures
        dense_len(widths, n) <= dense_len(widths, m),
        saturated(dense_len(widths, n) as int) <= saturated(dense_len(widths, m) as int),
{
    lemma_dense_from_grows(widths, n, m, 1, widths[0] as nat, widths[0] as nat);
}

proof fn lemma_dense_from_grows(
    widths: Seq<usize>,
    n: nat,
    m: nat,
    level: int,
    slots: nat,
    more: nat,
)
    requires
        n <= m,
        slots <= more,
    ensures
        dense_from(widths, n, level, slots) <= dense_from(widths, m, level, more),
    decreases widths.len() - level,
{
    if level < widths.len() {
        let w = widths[level] as nat;
        let a = if slots <= n {
            slots
        } else {
            n
        };
        let b = if more <= m {
            more
        } else {
            m
        };
        assert(a * w <= b * w) by (nonlinear_arith)
            requires
                a <= b,
        ;
        lemma_dense_from_grows(widths, n, m, level + 1, a * w, b * w);
    }
}

/// The number of tables on level `level` of a hierarchy in which every table is there: the product
/// of the widths above that level.
pub open spec fn full_tables(widths: Seq<usize>, level: int) -> nat
    decreases level,
{
    if level <= 0 {
        1
    } else {
        full_tables(widths, level - 1) * widths[level - 1] as nat
    }
}

/// The number of entries from level `level` on, where every table is there: a level has as many
/// entries as the level below it has tables.
pub open spec fn full_from(widths: Seq<usize>, level: int) -> nat
    decreases widths.len() - level,
{
    if level >= widths.len() {
        0
    } else {
        full_tables(widths, level + 1) + full_from(widths, level + 1)
    }
}

/// The bound is never above the size of the hierarchy in which every table is there.
pub proof fn bound_is_at_most_dense(widths: Seq<usize>, n: nat)
    requires
        widths.len() > 0,
    ensures
        dense_len(widths, n) <= full_from(widths, 0),
        saturated(dense_len(widths, n) as int) <= saturated(full_from(widths, 0) as int),
{
    assert(full_tables(widths, 1) == widths[0]) by {
        assert(full_tables(widths, 0) == 1);
        assert(1 * widths[0] as nat == widths[0]) by (nonlinear_arith);
    }
    lemma_dense_from_full(widths, n, 1, widths[0] as nat);
}

proof fn lemma_dense_from_full(widths: Seq<usize>, n: nat, level: int, slots: nat)
    requires
        1 <= level,
        slots <= full_tables(widths, level),
    ensures
        dense_from(widths, n, level, slots) <= full_from(widths, level),
    decreases widths.len() - level,
{
    if level < widths.len() {
        let w = widths[level] as nat;
        let a = if slots <= n {
            slots
        } else {
            n
        };
        let full = full_tables(widths, level);
        assert(a * w <= full * w) by (nonlinear_arith)
            requires
                a <= full,
        ;
        lemma_dense_from_full(widths, n, level + 1, a * w);
    }
}

} // verus!

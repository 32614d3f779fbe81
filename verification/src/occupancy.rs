//! The set of occupied cells that a table hierarchy represents, and the space that it takes.

use crate::grid::{
    attached, dense_from, dense_len, find, find_voxel, get_leaf, has_room, is_cell, is_path,
    leaf_taken, lemma_attached, missing, tables_wf, TooManyVoxels,
};
use crate::index::Index;
use vstd::prelude::*;

verus! {

/// Whether one of `cells` begins with `path`.
pub open spec fn known(cells: Seq<Seq<usize>>, path: Seq<usize>) -> bool {
    exists|j: int| 0 <= j < cells.len() && (#[trigger] cells[j]).take(path.len() as int) == path
}

/// The number of table entries that `cell` adds, from `level` on, to a hierarchy over `cells`: a
/// table for each of its prefixes that none of `cells` begins with.
pub open spec fn growth(
    widths: Seq<usize>,
    cells: Seq<Seq<usize>>,
    cell: Seq<usize>,
    level: int,
) -> nat
    decreases widths.len() - level,
{
    if level >= widths.len() {
        0
    } else if known(cells, cell.take(level)) {
        growth(widths, cells, cell, level + 1)
    } else {
        widths[level] as nat + growth(widths, cells, cell, level + 1)
    }
}

/// The number of table entries in a hierarchy over `cells`: the root table, and what each cell
/// adds to those before it.
pub open spec fn table_len(widths: Seq<usize>, cells: Seq<Seq<usize>>) -> nat
    decreases cells.len(),
{
    if cells.len() == 0 {
        widths[0] as nat
    } else {
        table_len(widths, cells.drop_last()) + growth(widths, cells.drop_last(), cells.last(), 1)
    }
}

/// Whether the index type and the address space have room for the tables that `cell` adds, from
/// `level` on, to a hierarchy over `cells`, laid end to end from offset `len`.
pub open spec fn tables_fit<I: Index>(
    widths: Seq<usize>,
    cells: Seq<Seq<usize>>,
    cell: Seq<usize>,
    level: int,
    len: int,
) -> bool
    decreases widths.len() - level,
{
    if level >= widths.len() {
        true
    } else if known(cells, cell.take(level)) {
        tables_fit::<I>(widths, cells, cell, level + 1, len)
    } else {
        &&& len + widths[level] <= usize::MAX
        &&& I::from_usize_spec(len as usize) is Some
        &&& tables_fit::<I>(widths, cells, cell, level + 1, len + widths[level])
    }
}

/// Whether a point in `cell` can be stored beside voxels for `cells`: its cell is one of them, or
/// the index type has room for one more voxel and the tables that lead to it.
pub open spec fn cell_fits<I: Index>(
    widths: Seq<usize>,
    cells: Seq<Seq<usize>>,
    cell: Seq<usize>,
) -> bool {
    ||| cells.contains(cell)
    ||| {
        &&& I::from_usize_spec(cells.len() as usize) is Some
        &&& tables_fit::<I>(widths, cells, cell, 1, table_len(widths, cells) as int)
    }
}

/// Whether the tables in the pool are the root table and those on the way to `cells`.
pub open spec fn directory<I: Index>(
    tables: Seq<I>,
    widths: Seq<usize>,
    cells: Seq<Seq<usize>>,
) -> bool {
    &&& tables_wf(tables, widths)
    &&& tables.len() == table_len(widths, cells)
    &&& forall|q: Seq<usize>|
        #![trigger find(tables, q)]
        is_path(widths, q) && 1 <= q.len() < widths.len() ==> (find(tables, q) is Some <==> known(
            cells,
            q,
        ))
}

/// Whether `tables` leads from exactly each of `cells` to its position, and has no tables but
/// those on the way to them.
pub open spec fn indexes<I: Index>(
    tables: Seq<I>,
    widths: Seq<usize>,
    cells: Seq<Seq<usize>>,
) -> bool {
    &&& directory(tables, widths, cells)
    &&& forall|j: int|
        0 <= j < cells.len() ==> is_cell(widths, #[trigger] cells[j]) && find(tables, cells[j])
            == Some(j as usize)
    &&& forall|q: Seq<usize>|
        #![trigger find(tables, q)]
        is_cell(widths, q) && find(tables, q) is Some ==> find(tables, q)->0 < cells.len()
            && cells[find(tables, q)->0 as int] == q
}

proof fn lemma_missing_is_growth<I: Index>(
    tables: Seq<I>,
    widths: Seq<usize>,
    cells: Seq<Seq<usize>>,
    cell: Seq<usize>,
    level: int,
    len: int,
)
    requires
        directory(tables, widths, cells),
        is_cell(widths, cell),
        1 <= level,
    ensures
        missing(tables, widths, cell, level) == growth(widths, cells, cell, level),
        has_room(tables, widths, cell, level, len) == tables_fit::<I>(
            widths,
            cells,
            cell,
            level,
            len,
        ),
    decreases widths.len() - level,
{
    if level < widths.len() {
        assert(is_path(widths, cell.take(level)));
        lemma_missing_is_growth(tables, widths, cells, cell, level + 1, len);
        lemma_missing_is_growth(tables, widths, cells, cell, level + 1, len + widths[level]);
    }
}

/// Taking the slot of a cell adds the tables on the way to it.
pub proof fn taking_a_leaf_adds_its_tables<I: Index>(
    before: Seq<I>,
    after: Seq<I>,
    widths: Seq<usize>,
    cells: Seq<Seq<usize>>,
    cell: Seq<usize>,
    slot: int,
)
    requires
        directory(before, widths, cells),
        is_cell(widths, cell),
        leaf_taken(before, after, widths, cell, slot),
    ensures
        directory(after, widths, cells.push(cell)),
{
    let more = cells.push(cell);
    assert(more.drop_last() =~= cells);
    lemma_missing_is_growth(before, widths, cells, cell, 1, before.len() as int);
    assert forall|q: Seq<usize>|
        #![trigger find(after, q)]
        is_path(widths, q) && 1 <= q.len() < widths.len() implies (find(after, q) is Some <==> known(
        more,
        q,
    )) by {
        if known(cells, q) {
            let j = choose|j: int|
                0 <= j < cells.len() && (#[trigger] cells[j]).take(q.len() as int) == q;
            assert(more[j].take(q.len() as int) == q);
        }
        if q == cell.take(q.len() as int) {
            assert(more[cells.len() as int].take(q.len() as int) == q);
        }
        if known(more, q) {
            let j = choose|j: int|
                0 <= j < more.len() && (#[trigger] more[j]).take(q.len() as int) == q;
            if j < cells.len() {
                assert(cells[j].take(q.len() as int) == q);
            }
        }
        assert(find(before, q) is Some <==> known(cells, q));
    }
}

/// Find the voxel for the cell `coords` in a hierarchy over `cells`, adding a voxel with the next
/// index, `count`, if there is none. On `Err` the hierarchy is unchanged.
pub(crate) fn claim_voxel<I: Index, const K: usize>(
    tables: &mut Vec<I>,
    grid_width: [usize; K],
    coords: [usize; K],
    count: usize,
    Ghost(cells): Ghost<Seq<Seq<usize>>>,
) -> (r: Result<usize, TooManyVoxels>)
    requires
        K > 0,
        indexes(old(tables)@, grid_width@, cells),
        is_cell(grid_width@, coords@),
        count == cells.len(),
    ensures
        r is Ok <==> cell_fits::<I>(grid_width@, cells, coords@),
        r is Err ==> final(tables)@ == old(tables)@,
        r matches Ok(v) ==> {
            if cells.contains(coords@) {
                &&& v < cells.len()
                &&& cells[v as int] == coords@
                &&& indexes(final(tables)@, grid_width@, cells)
            } else {
                &&& v == count
                &&& I::from_usize_spec(count) is Some
                &&& indexes(final(tables)@, grid_width@, cells.push(coords@))
            }
        },
{
    let ghost before = tables@;
    let ghost widths = grid_width@;
    let ghost cell = coords@;
    proof {
        I::index_laws();
        lemma_missing_is_growth(before, widths, cells, cell, 1, before.len() as int);
        assert(cell.take(K as int) == cell);
        assert(cells.contains(cell) <==> find(before, cell) is Some);
    }
    let next: Option<I> = I::from_usize(count);
    if next.is_none() {
        return match find_voxel(tables, Ghost(widths), &coords) {
            Some(v) => Ok(v),
            None => Err(TooManyVoxels),
        };
    }
    let entry: I = next.unwrap();
    proof {
        if find(before, cell) is Some {
            lemma_indexed_fits(before, widths, cells, cell, 1, before.len() as int);
        }
    }
    let slot: usize = match get_leaf(tables, grid_width, coords) {
        Ok(slot) => slot,
        Err(e) => {
            return Err(e);
        },
    };
    let ghost current = tables@;
    let ghost parent = cell.take(K - 1);
    proof {
        assert(cell.drop_last() == parent);
        assert(parent.push(cell[K - 1]) == cell);
        assert(is_path(widths, parent));
        assert(find(current, cell) == find(before, cell));
    }
    if tables[slot] == I::SENTINEL {
        tables[slot] = entry;
        proof {
            assert(attached(current, tables@, widths, parent, cell[K - 1], entry, 0));
            lemma_attached(current, tables@, widths, parent, cell[K - 1], entry, 0);
            let more = cells.push(cell);
            assert(more.drop_last() == cells);
            assert(table_len(widths, more) == tables@.len());
            assert forall|j: int| 0 <= j < more.len() implies is_cell(
                widths,
                #[trigger] more[j],
            ) && find(tables@, more[j]) == Some(j as usize) by {
                if j < cells.len() {
                    assert(more[j] == cells[j]);
                    assert(find(before, cells[j]) == Some(j as usize));
                }
            }
            assert forall|q: Seq<usize>|
                #![trigger find(tables@, q)]
                is_path(widths, q) && 1 <= q.len() < widths.len() implies (find(tables@, q)
                is Some <==> known(more, q)) by {
                assert(find(tables@, q) == find(current, q));
                if known(cells, q) {
                    let j = choose|j: int|
                        0 <= j < cells.len() && (#[trigger] cells[j]).take(q.len() as int) == q;
                    assert(more[j].take(q.len() as int) == q);
                }
                if q == cell.take(q.len() as int) {
                    assert(more[cells.len() as int].take(q.len() as int) == q);
                }
                if known(more, q) {
                    let j = choose|j: int|
                        0 <= j < more.len() && (#[trigger] more[j]).take(q.len() as int) == q;
                    if j < cells.len() {
                        assert(cells[j].take(q.len() as int) == q);
                    }
                }
            }
        }
        Ok(count)
    } else {
        proof {
            assert(find(current, cell) is Some);
        }
        Ok(tables[slot].to_usize())
    }
}

/// Nothing is missing on the way to a cell that is already occupied.
proof fn lemma_indexed_fits<I: Index>(
    tables: Seq<I>,
    widths: Seq<usize>,
    cells: Seq<Seq<usize>>,
    cell: Seq<usize>,
    level: int,
    len: int,
)
    requires
        indexes(tables, widths, cells),
        cells.contains(cell),
        1 <= level,
    ensures
        tables_fit::<I>(widths, cells, cell, level, len),
        growth(widths, cells, cell, level) == 0,
    decreases widths.len() - level,
{
    if level < widths.len() {
        let j = choose|j: int| 0 <= j < cells.len() && cells[j] == cell;
        assert(cells[j].take(cell.take(level).len() as int) == cell.take(level));
        lemma_indexed_fits(tables, widths, cells, cell, level + 1, len);
    }
}

// ---------------------------------------------------------------------------------------------
// The size of a hierarchy
// ---------------------------------------------------------------------------------------------

/// The distinct prefixes of length `level` of `cells`.
pub open spec fn prefixes(cells: Seq<Seq<usize>>, level: int) -> Set<Seq<usize>>
    decreases cells.len(),
{
    if cells.len() == 0 {
        Set::empty()
    } else {
        prefixes(cells.drop_last(), level).insert(cells.last().take(level))
    }
}

/// The number of entries in one table for each distinct prefix of `cells`, from `level` on.
pub open spec fn prefix_entries(widths: Seq<usize>, cells: Seq<Seq<usize>>, level: int) -> nat
    decreases widths.len() - level,
{
    if level >= widths.len() {
        0
    } else {
        widths[level] as nat * prefixes(cells, level).len() + prefix_entries(
            widths,
            cells,
            level + 1,
        )
    }
}

proof fn lemma_prefixes(cells: Seq<Seq<usize>>, level: int)
    requires
        0 <= level,
        forall|j: int| 0 <= j < cells.len() ==> level <= (#[trigger] cells[j]).len(),
    ensures
        prefixes(cells, level).finite(),
        prefixes(cells, level).len() <= cells.len(),
        forall|q: Seq<usize>| #[trigger]
            prefixes(cells, level).contains(q) <==> q.len() == level && known(cells, q),
    decreases cells.len(),
{
    if cells.len() > 0 {
        let fewer = cells.drop_last();
        assert forall|j: int| 0 <= j < fewer.len() implies level <= (#[trigger] fewer[j]).len() by {
            assert(fewer[j] == cells[j]);
        }
        lemma_prefixes(fewer, level);
        assert forall|q: Seq<usize>| #[trigger]
            prefixes(cells, level).contains(q) <==> q.len() == level && known(cells, q) by {
            if prefixes(fewer, level).contains(q) {
                let j = choose|j: int|
                    0 <= j < fewer.len() && (#[trigger] fewer[j]).take(q.len() as int) == q;
                assert(cells[j].take(q.len() as int) == q);
            } else if q == cells.last().take(level) {
                assert(cells[cells.len() - 1].take(q.len() as int) == q);
            }
            if q.len() == level && known(cells, q) {
                let j = choose|j: int|
                    0 <= j < cells.len() && (#[trigger] cells[j]).take(q.len() as int) == q;
                if j < fewer.len() {
                    assert(fewer[j].take(q.len() as int) == q);
                }
            }
        }
    }
}

proof fn lemma_prefix_entries_grow(
    widths: Seq<usize>,
    cells: Seq<Seq<usize>>,
    cell: Seq<usize>,
    level: int,
)
    requires
        0 <= level,
        cell.len() == widths.len(),
        forall|j: int| 0 <= j < cells.len() ==> (#[trigger] cells[j]).len() == widths.len(),
    ensures
        prefix_entries(widths, cells.push(cell), level) == prefix_entries(widths, cells, level)
            + growth(widths, cells, cell, level),
    decreases widths.len() - level,
{
    if level < widths.len() {
        lemma_prefix_entries_grow(widths, cells, cell, level + 1);
        lemma_prefixes(cells, level);
        assert(cells.push(cell).drop_last() == cells);
        let w = widths[level] as nat;
        let before = prefixes(cells, level).len();
        assert(w * (before + 1) == w * before + w) by (nonlinear_arith);
        assert(known(cells, cell.take(level)) <==> prefixes(cells, level).contains(
            cell.take(level),
        ));
    }
}

/// A hierarchy holds the root table and exactly one table for each distinct proper prefix of its
/// cells.
pub proof fn table_len_is_one_table_per_prefix(widths: Seq<usize>, cells: Seq<Seq<usize>>)
    requires
        widths.len() > 0,
        forall|j: int| 0 <= j < cells.len() ==> is_cell(widths, #[trigger] cells[j]),
    ensures
        table_len(widths, cells) == widths[0] + prefix_entries(widths, cells, 1),
    decreases cells.len(),
{
    if cells.len() == 0 {
        lemma_no_prefix_entries(widths, cells, 1);
    } else {
        let fewer = cells.drop_last();
        assert forall|j: int| 0 <= j < fewer.len() implies is_cell(widths, #[trigger] fewer[j]) by {
            assert(fewer[j] == cells[j]);
        }
        table_len_is_one_table_per_prefix(widths, fewer);
        assert(is_cell(widths, cells[cells.len() - 1]));
        lemma_prefix_entries_grow(widths, fewer, cells.last(), 1);
        assert(fewer.push(cells.last()) == cells);
    }
}

proof fn lemma_no_prefix_entries(widths: Seq<usize>, cells: Seq<Seq<usize>>, level: int)
    requires
        cells.len() == 0,
    ensures
        prefix_entries(widths, cells, level) == 0,
    decreases widths.len() - level,
{
    if level < widths.len() {
        lemma_no_prefix_entries(widths, cells, level + 1);
    }
}

/// Sequences that extend one of `stems` by one coordinate below `width` number at most `width`
/// for each stem.
proof fn lemma_extensions(stems: Set<Seq<usize>>, extended: Set<Seq<usize>>, width: nat)
    requires
        stems.finite(),
        extended.finite(),
        forall|q: Seq<usize>| #[trigger]
            extended.contains(q) ==> q.len() > 0 && stems.contains(q.drop_last()) && q.last()
                < width,
    ensures
        extended.len() <= stems.len() * width,
    decreases stems.len(),
{
    if stems.is_empty() {
        assert forall|q: Seq<usize>| !extended.contains(q) by {}
        assert(extended =~= Set::empty());
    } else {
        let stem = stems.choose();
        let of_stem = extended.filter(|q: Seq<usize>| q.drop_last() == stem);
        let others = extended.difference(of_stem);
        lemma_extensions(stems.remove(stem), others, width);
        let coords = vstd::set_lib::set_int_range(0, width as int);
        vstd::set_lib::lemma_int_range(0, width as int);
        let last = |q: Seq<usize>| q.last() as int;
        assert(vstd::relations::injective_on(last, of_stem)) by {
            assert forall|q1: Seq<usize>, q2: Seq<usize>|
                of_stem.contains(q1) && of_stem.contains(q2) && #[trigger] last(q1)
                    == #[trigger] last(q2) implies q1 == q2 by {
                assert(q1 == q1.drop_last().push(q1.last()));
                assert(q2 == q2.drop_last().push(q2.last()));
            }
        }
        vstd::set_lib::lemma_map_size(of_stem, of_stem.map(last), last);
        assert(of_stem.map(last).subset_of(coords));
        vstd::set_lib::lemma_len_subset(of_stem.map(last), coords);
        assert(extended =~= others.union(of_stem));
        vstd::set_lib::lemma_set_disjoint_lens(others, of_stem);
        let n = stems.len();
        assert((n - 1) * width + width == n * width) by (nonlinear_arith);
    }
}

proof fn lemma_prefix_entries_bound(
    widths: Seq<usize>,
    cells: Seq<Seq<usize>>,
    n: nat,
    level: int,
    slots: nat,
)
    requires
        0 <= level,
        cells.len() <= n,
        forall|j: int| 0 <= j < cells.len() ==> is_cell(widths, #[trigger] cells[j]),
        level < widths.len() ==> prefixes(cells, level).len() <= slots,
    ensures
        prefix_entries(widths, cells, level) <= dense_from(widths, n, level, slots),
    decreases widths.len() - level,
{
    if level < widths.len() {
        lemma_prefixes(cells, level);
        let stems = prefixes(cells, level);
        let w = widths[level] as nat;
        let tables = if slots <= n {
            slots
        } else {
            n
        };
        assert(w * stems.len() <= tables * w) by (nonlinear_arith)
            requires
                stems.len() <= tables,
        ;
        if level + 1 < widths.len() {
            lemma_prefixes(cells, level + 1);
            let extended = prefixes(cells, level + 1);
            assert forall|q: Seq<usize>| #[trigger] extended.contains(q) implies q.len() > 0
                && stems.contains(q.drop_last()) && q.last() < w by {
                let j = choose|j: int|
                    0 <= j < cells.len() && (#[trigger] cells[j]).take(q.len() as int) == q;
                assert(cells[j].take(level) == q.drop_last());
                assert(q.drop_last().len() == level);
                assert(known(cells, q.drop_last()));
                assert(cells[j][level] < widths[level]);
                assert(q.last() == cells[j][level]);
            }
            lemma_extensions(stems, extended, w);
            assert(stems.len() * w <= tables * w) by (nonlinear_arith)
                requires
                    stems.len() <= tables,
            ;
        }
        lemma_prefix_entries_bound(widths, cells, n, level + 1, tables * w);
    }
}

/// The bound of [`reserve_bound`](crate::grid::reserve_bound) is safe: the hierarchy over the
/// cells of at most `n` points never has more entries.
pub proof fn table_len_is_bounded(widths: Seq<usize>, cells: Seq<Seq<usize>>, n: nat)
    requires
        widths.len() > 0,
        forall|j: int| 0 <= j < cells.len() ==> is_cell(widths, #[trigger] cells[j]),
        cells.len() <= n,
    ensures
        table_len(widths, cells) <= dense_len(widths, n),
{
    table_len_is_one_table_per_prefix(widths, cells);
    if widths.len() > 1 {
        lemma_prefixes(cells, 1);
        lemma_prefixes(cells, 0);
        let stems = prefixes(cells, 0);
        let extended = prefixes(cells, 1);
        assert forall|q: Seq<usize>| #[trigger] extended.contains(q) implies q.len() > 0
            && stems.contains(q.drop_last()) && q.last() < widths[0] by {
            let j = choose|j: int|
                0 <= j < cells.len() && (#[trigger] cells[j]).take(q.len() as int) == q;
            assert(cells[j].take(0) == q.drop_last());
            assert(known(cells, q.drop_last()));
            assert(cells[j][0] < widths[0]);
        }
        lemma_extensions(stems, extended, widths[0] as nat);
        let root = Set::empty().insert(Seq::<usize>::empty());
        assert forall|q: Seq<usize>| stems.contains(q) implies root.contains(q) by {
            assert(q == Seq::<usize>::empty());
        }
        vstd::set_lib::lemma_len_subset(stems, root);
        assert(stems.len() * widths[0] as nat <= widths[0]) by (nonlinear_arith)
            requires
                stems.len() <= 1,
        ;
    }
    lemma_prefix_entries_bound(widths, cells, n, 1, widths[0] as nat);
}

} // verus!

//! What the lines of results hold.
//!
//! A line of comma-separated values has its fields as its columns, in order, and a number is written
//! so that its digits add up to it.

use crate::manifest::manifest_row_spec;
use crate::planning::{plan_row_spec, PlanRow};
use crate::report::{row_spec, RowContext};
use crate::text::{column, column_start, decimal_spec, next_comma};
use vstd::prelude::*;

verus! {

// ---------------------------------------------------------------------------------------------
// Numbers
// ---------------------------------------------------------------------------------------------

/// The number that a text of decimal digits stands for.
pub open spec fn read_decimal(s: Seq<char>) -> int
    decreases s.len(),
{
    if s.len() == 0 {
        0
    } else {
        read_decimal(s.drop_last()) * 10 + (s.last() as int - '0' as int)
    }
}

/// A number is written with digits alone, which stand for it, and without a zero in front.
pub proof fn decimal_reads_back(n: nat)
    ensures
        decimal_spec(n).len() > 0,
        read_decimal(decimal_spec(n)) == n,
        forall|i: int| 0 <= i < decimal_spec(n).len() ==> '0' <= #[trigger] decimal_spec(n)[i] <= '9',
        n > 0 ==> decimal_spec(n)[0] != '0',
    decreases n,
{
    let s = decimal_spec(n);
    if n < 10 {
        assert(s.drop_last() =~= Seq::<char>::empty());
        assert(read_decimal(s.drop_last()) == 0);
        assert(s.last() as int - '0' as int == n);
    } else {
        decimal_reads_back(n / 10);
        assert(s.drop_last() =~= decimal_spec(n / 10));
        assert(s.last() as int - '0' as int == n % 10);
    }
}

// ---------------------------------------------------------------------------------------------
// Lines
// ---------------------------------------------------------------------------------------------

/// `fields` with commas between them.
pub open spec fn joined(fields: Seq<Seq<char>>) -> Seq<char>
    decreases fields.len(),
{
    if fields.len() == 0 {
        Seq::empty()
    } else if fields.len() == 1 {
        fields[0]
    } else {
        joined(fields.drop_last()) + seq![','] + fields.last()
    }
}

/// Whether there is no comma in `field`.
pub open spec fn is_field(field: Seq<char>) -> bool {
    forall|i: int| 0 <= i < field.len() ==> #[trigger] field[i] != ','
}

/// Where field `j` begins among `fields` with commas between them.
spec fn offset(fields: Seq<Seq<char>>, j: nat) -> int
    decreases j,
{
    if j == 0 {
        0
    } else {
        offset(fields, (j - 1) as nat) + fields[j - 1].len() + 1
    }
}

proof fn lemma_offset_prefix(fields: Seq<Seq<char>>, j: nat)
    requires
        j < fields.len(),
    ensures
        offset(fields.drop_last(), j) == offset(fields, j),
    decreases j,
{
    if j > 0 {
        lemma_offset_prefix(fields, (j - 1) as nat);
    }
}

proof fn lemma_joined(fields: Seq<Seq<char>>, j: nat)
    requires
        j < fields.len(),
    ensures
        0 <= offset(fields, j),
        offset(fields, j) + fields[j as int].len() <= joined(fields).len(),
        joined(fields).len() == offset(fields, (fields.len() - 1) as nat) + fields.last().len(),
        forall|x: int|
            #![trigger fields[j as int][x]]
            0 <= x < fields[j as int].len() ==> joined(fields)[offset(fields, j) + x]
                == fields[j as int][x],
        j + 1 < fields.len() ==> offset(fields, j) + fields[j as int].len() < joined(fields).len()
            && joined(fields)[offset(fields, j) + fields[j as int].len()] == ',',
    decreases fields.len(),
{
    if fields.len() > 1 {
        let fewer = fields.drop_last();
        let m = (fields.len() - 1) as nat;
        lemma_offset_prefix(fields, (m - 1) as nat);
        lemma_joined(fewer, (m - 1) as nat);
        assert(fewer.last() == fields[m - 1]);
        assert(joined(fewer).len() + 1 == offset(fields, m));
        if j < m {
            lemma_offset_prefix(fields, j);
            lemma_joined(fewer, j);
            assert(fewer[j as int] == fields[j as int]);
        }
    }
}

proof fn lemma_next_comma(line: Seq<char>, from: int, end: int)
    requires
        0 <= from <= end <= line.len(),
        forall|x: int| from <= x < end ==> #[trigger] line[x] != ',',
        end == line.len() || line[end] == ',',
    ensures
        next_comma(line, from) == end,
    decreases end - from,
{
    if from < end {
        lemma_next_comma(line, from + 1, end);
    }
}

proof fn lemma_column_start(fields: Seq<Seq<char>>, j: nat)
    requires
        j < fields.len(),
        forall|i: int| 0 <= i < fields.len() ==> is_field(#[trigger] fields[i]),
    ensures
        column_start(joined(fields), j) == Some(offset(fields, j)),
        next_comma(joined(fields), offset(fields, j)) == offset(fields, j)
            + fields[j as int].len(),
    decreases j,
{
    let line = joined(fields);
    let from = offset(fields, j);
    let end = from + fields[j as int].len();
    lemma_joined(fields, j);
    assert(is_field(fields[j as int]));
    assert forall|x: int| from <= x < end implies #[trigger] line[x] != ',' by {
        assert(fields[j as int][x - from] != ',');
    }
    lemma_next_comma(line, from, end);
    if j > 0 {
        lemma_column_start(fields, (j - 1) as nat);
        lemma_joined(fields, (j - 1) as nat);
    }
}

/// The columns of fields with commas between them are the fields, where these have no commas of
/// their own.
pub proof fn columns_are_the_fields(fields: Seq<Seq<char>>)
    requires
        fields.len() > 0,
        forall|i: int| 0 <= i < fields.len() ==> is_field(#[trigger] fields[i]),
    ensures
        forall|j: int|
            #![trigger fields[j]]
            0 <= j < fields.len() ==> column(joined(fields), j as nat) == Some(fields[j]),
        column(joined(fields), fields.len()) is None,
{
    let line = joined(fields);
    assert forall|j: int| #![trigger fields[j]] 0 <= j < fields.len() implies column(
        line,
        j as nat,
    ) == Some(fields[j]) by {
        lemma_column_start(fields, j as nat);
        lemma_joined(fields, j as nat);
        let from = offset(fields, j as nat);
        assert(line.subrange(from, from + fields[j].len()) =~= fields[j]);
    }
    let last = (fields.len() - 1) as nat;
    lemma_column_start(fields, last);
    lemma_joined(fields, last);
}

proof fn lemma_join_next(fields: Seq<Seq<char>>, field: Seq<char>)
    requires
        fields.len() > 0,
    ensures
        joined(fields.push(field)) == joined(fields) + ","@ + field,
{
    reveal_strlit(",");
    assert(fields.push(field).drop_last() =~= fields);
    assert(","@ =~= seq![',']);
}

proof fn lemma_decimal_is_field(n: nat)
    ensures
        is_field(decimal_spec(n)),
{
    decimal_reads_back(n);
}

/// A row of the benchmark results has eight columns: the structure, the workload, the filter, the
/// number of points, the number of queries, the metric, the lane count and the value.
pub proof fn row_has_its_columns(
    ctx: RowContext,
    n_queries: nat,
    metric: Seq<char>,
    lanes: nat,
    value: Seq<char>,
)
    requires
        is_field(ctx.structure@),
        is_field(ctx.workload@),
        is_field(ctx.filter_name@),
        is_field(metric),
        is_field(value),
    ensures
        ({
            let line = row_spec(ctx, n_queries, metric, lanes, value);
            &&& column(line, 0) == Some(ctx.structure@)
            &&& column(line, 1) == Some(ctx.workload@)
            &&& column(line, 2) == Some(ctx.filter_name@)
            &&& column(line, 3) == Some(decimal_spec(ctx.n_points as nat))
            &&& column(line, 4) == Some(decimal_spec(n_queries))
            &&& column(line, 5) == Some(metric)
            &&& column(line, 6) == Some(decimal_spec(lanes))
            &&& column(line, 7) == Some(value)
            &&& column(line, 8) is None
        }),
{
    lemma_decimal_is_field(ctx.n_points as nat);
    lemma_decimal_is_field(n_queries);
    lemma_decimal_is_field(lanes);
    let a = seq![ctx.structure@];
    let b = a.push(ctx.workload@);
    let c = b.push(ctx.filter_name@);
    let d = c.push(decimal_spec(ctx.n_points as nat));
    let e = d.push(decimal_spec(n_queries));
    let f = e.push(metric);
    let g = f.push(decimal_spec(lanes));
    let h = g.push(value);
    lemma_join_next(a, ctx.workload@);
    lemma_join_next(b, ctx.filter_name@);
    lemma_join_next(c, decimal_spec(ctx.n_points as nat));
    lemma_join_next(d, decimal_spec(n_queries));
    lemma_join_next(e, metric);
    lemma_join_next(f, decimal_spec(lanes));
    lemma_join_next(g, value);
    assert(joined(h) == row_spec(ctx, n_queries, metric, lanes, value));
    columns_are_the_fields(h);
    assert(h[0] == ctx.structure@ && h[1] == ctx.workload@ && h[2] == ctx.filter_name@);
    assert(h[3] == decimal_spec(ctx.n_points as nat) && h[4] == decimal_spec(n_queries));
    assert(h[5] == metric && h[6] == decimal_spec(lanes) && h[7] == value);
}

/// A row of the planning results has eleven columns: the structure, the robot, the dataset, the
/// scene, the resolution of the filter, the number of points, whether the problem was solved, the
/// time for planning and for construction, and the numbers of samples and nodes.
#[verifier::rlimit(40)]
pub proof fn plan_row_has_its_columns(row: PlanRow)
    requires
        is_field(row.structure@),
        is_field(row.robot@),
        is_field(row.dataset@),
        is_field(row.r_filter@),
        is_field(row.time_secs@),
        is_field(row.construction_secs@),
    ensures
        ({
            let line = plan_row_spec(row);
            &&& column(line, 0) == Some(row.structure@)
            &&& column(line, 1) == Some(row.robot@)
            &&& column(line, 2) == Some(row.dataset@)
            &&& column(line, 3) == Some(decimal_spec(row.scene_id as nat))
            &&& column(line, 4) == Some(row.r_filter@)
            &&& column(line, 5) == Some(decimal_spec(row.n_points as nat))
            &&& row.solved ==> column(line, 6) == Some("true"@)
            &&& !row.solved ==> column(line, 6) == Some("false"@)
            &&& column(line, 7) == Some(row.time_secs@)
            &&& column(line, 8) == Some(row.construction_secs@)
            &&& column(line, 9) == Some(decimal_spec(row.n_samples as nat))
            &&& column(line, 10) == Some(decimal_spec(row.n_nodes as nat))
            &&& column(line, 11) is None
        }),
{
    let solved = if row.solved {
        "true"@
    } else {
        "false"@
    };
    reveal_strlit("true");
    reveal_strlit("false");
    lemma_decimal_is_field(row.scene_id as nat);
    lemma_decimal_is_field(row.n_points as nat);
    lemma_decimal_is_field(row.n_samples as nat);
    lemma_decimal_is_field(row.n_nodes as nat);
    let a = seq![row.structure@];
    let b = a.push(row.robot@);
    let c = b.push(row.dataset@);
    let d = c.push(decimal_spec(row.scene_id as nat));
    let e = d.push(row.r_filter@);
    let f = e.push(decimal_spec(row.n_points as nat));
    let g = f.push(solved);
    let h = g.push(row.time_secs@);
    let i = h.push(row.construction_secs@);
    let j = i.push(decimal_spec(row.n_samples as nat));
    let k = j.push(decimal_spec(row.n_nodes as nat));
    lemma_join_next(a, row.robot@);
    lemma_join_next(b, row.dataset@);
    lemma_join_next(c, decimal_spec(row.scene_id as nat));
    lemma_join_next(d, row.r_filter@);
    lemma_join_next(e, decimal_spec(row.n_points as nat));
    lemma_join_next(f, solved);
    lemma_join_next(g, row.time_secs@);
    lemma_join_next(h, row.construction_secs@);
    lemma_join_next(i, decimal_spec(row.n_samples as nat));
    lemma_join_next(j, decimal_spec(row.n_nodes as nat));
    assert(joined(k) == plan_row_spec(row));
    assert(is_field(solved));
    columns_are_the_fields(k);
    assert(k[0] == row.structure@ && k[1] == row.robot@ && k[2] == row.dataset@);
    assert(k[3] == decimal_spec(row.scene_id as nat) && k[4] == row.r_filter@);
    assert(k[5] == decimal_spec(row.n_points as nat) && k[6] == solved);
    assert(k[7] == row.time_secs@ && k[8] == row.construction_secs@);
    assert(k[9] == decimal_spec(row.n_samples as nat));
    assert(k[10] == decimal_spec(row.n_nodes as nat));
}

/// A row of the manifest has seven columns: the dataset, the robot, the scene, the numbers of
/// points, of queries and of queries that collide, and whether the problem was solved.
pub proof fn manifest_row_has_its_columns(
    dataset: Seq<char>,
    robot: Seq<char>,
    scene_id: nat,
    n_points_full: nat,
    n_queries: nat,
    n_collided: nat,
    solved: bool,
)
    requires
        is_field(dataset),
        is_field(robot),
    ensures
        ({
            let line = manifest_row_spec(
                dataset,
                robot,
                scene_id,
                n_points_full,
                n_queries,
                n_collided,
                solved,
            );
            &&& column(line, 0) == Some(dataset)
            &&& column(line, 1) == Some(robot)
            &&& column(line, 2) == Some(decimal_spec(scene_id))
            &&& column(line, 3) == Some(decimal_spec(n_points_full))
            &&& column(line, 4) == Some(decimal_spec(n_queries))
            &&& column(line, 5) == Some(decimal_spec(n_collided))
            &&& solved ==> column(line, 6) == Some("true"@)
            &&& !solved ==> column(line, 6) == Some("false"@)
            &&& column(line, 7) is None
        }),
{
    let last = if solved {
        "true"@
    } else {
        "false"@
    };
    reveal_strlit("true");
    reveal_strlit("false");
    lemma_decimal_is_field(scene_id);
    lemma_decimal_is_field(n_points_full);
    lemma_decimal_is_field(n_queries);
    lemma_decimal_is_field(n_collided);
    let a = seq![dataset];
    let b = a.push(robot);
    let c = b.push(decimal_spec(scene_id));
    let d = c.push(decimal_spec(n_points_full));
    let e = d.push(decimal_spec(n_queries));
    let f = e.push(decimal_spec(n_collided));
    let g = f.push(last);
    lemma_join_next(a, robot);
    lemma_join_next(b, decimal_spec(scene_id));
    lemma_join_next(c, decimal_spec(n_points_full));
    lemma_join_next(d, decimal_spec(n_queries));
    lemma_join_next(e, decimal_spec(n_collided));
    lemma_join_next(f, last);
    assert(joined(g) == manifest_row_spec(
        dataset,
        robot,
        scene_id,
        n_points_full,
        n_queries,
        n_collided,
        solved,
    ));
    assert(is_field(last));
    columns_are_the_fields(g);
    assert(g[0] == dataset && g[1] == robot && g[2] == decimal_spec(scene_id));
    assert(g[3] == decimal_spec(n_points_full) && g[4] == decimal_spec(n_queries));
    assert(g[5] == decimal_spec(n_collided) && g[6] == last);
}

} // verus!

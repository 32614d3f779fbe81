//! What a manifest says: its rows, which of them are listed, and how they are grouped.

use crate::manifest::{
    group_size, listed, parsed_row, robot_order, workloads_of, ManifestError, Names,
};
use crate::replay::{partition_is_complete, positions_are_ascending};
use crate::text::{column_start, next_comma};
use vstd::prelude::*;

verus! {

// ---------------------------------------------------------------------------------------------
// Rows
// ---------------------------------------------------------------------------------------------

/// A text without a comma.
pub open spec fn one_column(s: Seq<char>) -> bool {
    !s.contains(',')
}

/// Three texts with commas between them.
pub open spec fn three_columns(a: Seq<char>, b: Seq<char>, c: Seq<char>) -> Seq<char> {
    a + seq![','] + b + seq![','] + c
}

proof fn lemma_next_comma(line: Seq<char>, from: int, to: int)
    requires
        0 <= from <= to <= line.len(),
        forall|i: int| from <= i < to ==> #[trigger] line[i] != ',',
        to < line.len() ==> line[to] == ',',
    ensures
        next_comma(line, from) == to,
    decreases to - from,
{
    if from < to {
        lemma_next_comma(line, from + 1, to);
    }
}

/// A row holds the dataset, the robot and the scene, in this order, up to its third comma or its
/// end. A row without a comma has no robot, and one with a single comma no scene.
pub proof fn row_is_read_column_by_column(
    a: Seq<char>,
    b: Seq<char>,
    c: Seq<char>,
    rest: Seq<char>,
)
    requires
        one_column(a),
        one_column(b),
        one_column(c),
    ensures
        parsed_row(three_columns(a, b, c)) == Ok::<Names, ManifestError>(
            (Names { dataset: a, robot: b, scene_id: c }),
        ),
        parsed_row(three_columns(a, b, c) + seq![','] + rest) == Ok::<Names, ManifestError>(
            (Names { dataset: a, robot: b, scene_id: c }),
        ),
        parsed_row(a) == Err::<Names, ManifestError>(ManifestError::MissingRobot),
        parsed_row(a + seq![','] + b) == Err::<Names, ManifestError>(
            ManifestError::MissingSceneId,
        ),
{
    reveal_with_fuel(column_start, 3);
    lemma_three_columns(three_columns(a, b, c), a, b, c);
    lemma_three_columns(three_columns(a, b, c) + seq![','] + rest, a, b, c);
    assert forall|i: int| 0 <= i < a.len() implies #[trigger] a[i] != ',' by {
        assert(a.contains(a[i]));
    }
    lemma_next_comma(a, 0, a.len() as int);
    let two = a + seq![','] + b;
    assert forall|i: int| 0 <= i < a.len() implies #[trigger] two[i] != ',' by {
        assert(two[i] == a[i]);
    }
    assert(two[a.len() as int] == ',');
    assert forall|i: int| a.len() + 1 <= i < two.len() implies #[trigger] two[i] != ',' by {
        assert(two[i] == b[i - a.len() - 1]);
        assert(b.contains(two[i]));
    }
    lemma_next_comma(two, 0, a.len() as int);
    lemma_next_comma(two, a.len() as int + 1, two.len() as int);
}

proof fn lemma_three_columns(line: Seq<char>, a: Seq<char>, b: Seq<char>, c: Seq<char>)
    requires
        one_column(a),
        one_column(b),
        one_column(c),
        three_columns(a, b, c).len() <= line.len(),
        forall|i: int|
            0 <= i < three_columns(a, b, c).len() ==> #[trigger] line[i] == three_columns(
                a,
                b,
                c,
            )[i],
        three_columns(a, b, c).len() < line.len() ==> line[three_columns(a, b, c).len() as int]
            == ',',
    ensures
        parsed_row(line) == Ok::<Names, ManifestError>(
            (Names { dataset: a, robot: b, scene_id: c }),
        ),
{
    reveal_with_fuel(column_start, 3);
    let all = three_columns(a, b, c);
    let x = a.len() as int;
    let y = x + 1 + b.len();
    let z = y + 1 + c.len();
    assert(all[x] == ',' && all[y] == ',');
    assert(line[x] == ',' && line[y] == ',');
    assert forall|i: int| 0 <= i < x implies #[trigger] line[i] != ',' by {
        assert(line[i] == all[i] && all[i] == a[i]);
        assert(a.contains(a[i]));
    }
    assert forall|i: int| x + 1 <= i < y implies #[trigger] line[i] != ',' by {
        assert(line[i] == all[i] && all[i] == b[i - x - 1]);
        assert(b.contains(b[i - x - 1]));
    }
    assert forall|i: int| y + 1 <= i < z implies #[trigger] line[i] != ',' by {
        assert(line[i] == all[i] && all[i] == c[i - y - 1]);
        assert(c.contains(c[i - y - 1]));
    }
    lemma_next_comma(line, 0, x);
    lemma_next_comma(line, x + 1, y);
    lemma_next_comma(line, y + 1, z);
    assert(line.subrange(0, x) =~= a) by {
        assert forall|i: int| 0 <= i < x implies #[trigger] line[i] == a[i] by {
            assert(line[i] == all[i]);
        }
    }
    assert(line.subrange(x + 1, y) =~= b) by {
        assert forall|i: int| x + 1 <= i < y implies #[trigger] line[i] == b[i - x - 1] by {
            assert(line[i] == all[i]);
        }
    }
    assert(line.subrange(y + 1, z) =~= c) by {
        assert forall|i: int| y + 1 <= i < z implies #[trigger] line[i] == c[i - y - 1] by {
            assert(line[i] == all[i]);
        }
    }
}

// ---------------------------------------------------------------------------------------------
// The list
// ---------------------------------------------------------------------------------------------

/// What the rows below the header say.
pub open spec fn rows(lines: Seq<Seq<char>>) -> Seq<Names> {
    Seq::new(
        if lines.len() == 0 {
            0
        } else {
            (lines.len() - 1) as nat
        },
        |i: int| parsed_row(lines[i + 1])->Ok_0,
    )
}

/// The number of `workloads` of the given robot in the given dataset.
pub open spec fn number_of(
    workloads: Seq<Names>,
    robot: Seq<char>,
    dataset: Seq<char>,
) -> nat {
    workloads.filter(|w: Names| w.robot == robot && w.dataset == dataset).len()
}

/// Whether a row is left out of the list for having `max` rows of the same robot in the same dataset
/// before it.
pub open spec fn is_beyond(all: Seq<Names>, i: int, max: Option<usize>) -> bool {
    max is Some && number_of(all.take(i), all[i].robot, all[i].dataset) >= max->0
}

/// Whether `list` is made of the items of `all` at `chosen`, in order: exactly those that are not
/// beyond the cap.
pub open spec fn is_capped_list(
    list: Seq<Names>,
    all: Seq<Names>,
    max: Option<usize>,
    chosen: Seq<int>,
) -> bool {
    &&& chosen.len() == list.len()
    &&& forall|j: int|
        #![trigger chosen[j]]
        0 <= j < chosen.len() ==> 0 <= chosen[j] < all.len() && list[j] == all[chosen[j]]
            && !is_beyond(all, chosen[j], max)
    &&& forall|i: int, j: int|
        #![trigger chosen[i], chosen[j]]
        0 <= i < j < chosen.len() ==> chosen[i] < chosen[j]
    &&& forall|i: int|
        0 <= i < all.len() && !#[trigger] is_beyond(all, i, max) ==> chosen.contains(i)
}

proof fn lemma_number_of_push(s: Seq<Names>, w: Names, robot: Seq<char>, dataset: Seq<char>)
    ensures
        number_of(s.push(w), robot, dataset) == number_of(s, robot, dataset) + if w.robot == robot
            && w.dataset == dataset {
            1nat
        } else {
            0
        },
{
    reveal(Seq::filter);
    assert(s.push(w).drop_last() =~= s);
}

proof fn lemma_group_size(s: Seq<Names>, w: Names)
    ensures
        group_size(s, w) == number_of(s, w.robot, w.dataset),
    decreases s.len(),
{
    reveal(Seq::filter);
    if s.len() > 0 {
        lemma_group_size(s.drop_last(), w);
        assert(s.drop_last().push(s.last()) =~= s);
        lemma_number_of_push(s.drop_last(), s.last(), w.robot, w.dataset);
    }
}

/// A manifest is refused exactly if a row below the header cannot be read, with the error of the
/// first of them.
pub proof fn manifest_is_refused_for_its_first_bad_row(
    lines: Seq<Seq<char>>,
    max: Option<usize>,
)
    ensures
        listed(lines, max) is Ok <==> (forall|i: int|
            1 <= i < lines.len() ==> (#[trigger] parsed_row(lines[i])) is Ok),
        listed(lines, max) matches Err(e) ==> exists|n: int|
            1 <= n < lines.len() && #[trigger] parsed_row(lines[n]) == Err::<Names, ManifestError>(
                e,
            ) && (forall|i: int| 1 <= i < n ==> (#[trigger] parsed_row(lines[i])) is Ok),
    decreases lines.len(),
{
    if lines.len() > 1 {
        let fewer = lines.drop_last();
        manifest_is_refused_for_its_first_bad_row(fewer, max);
        let last = lines.len() - 1;
        assert(lines[last] == lines.last());
        assert(forall|i: int| 0 <= i < last ==> fewer[i] == lines[i]);
        if listed(fewer, max) is Err {
            let e = listed(fewer, max)->Err_0;
            let n = choose|n: int|
                1 <= n < fewer.len() && #[trigger] parsed_row(fewer[n]) == Err::<
                    Names,
                    ManifestError,
                >(e) && (forall|i: int| 1 <= i < n ==> (#[trigger] parsed_row(fewer[i])) is Ok);
            assert(parsed_row(lines[n]) == Err::<Names, ManifestError>(e));
            assert forall|i: int| 1 <= i < n implies (#[trigger] parsed_row(lines[i])) is Ok by {
                assert(parsed_row(fewer[i]) is Ok);
            }
        } else {
            assert forall|i: int| 1 <= i < last implies (#[trigger] parsed_row(lines[i])) is Ok by {
                assert(parsed_row(fewer[i]) is Ok);
            }
            if parsed_row(lines[last]) is Ok {
            } else {
                assert(parsed_row(lines[last]) is Err);
            }
        }
    }
}

/// How many of `n` are left by a cap.
pub open spec fn capped_at(n: nat, max: Option<usize>) -> nat {
    match max {
        Some(m) => if n <= m {
            n
        } else {
            m as nat
        },
        None => n,
    }
}

proof fn lemma_capped_list_grows(
    sofar: Seq<Names>,
    before: Seq<Names>,
    max: Option<usize>,
    chosen: Seq<int>,
    w: Names,
)
    requires
        is_capped_list(sofar, before, max, chosen),
    ensures
        ({
            let all = before.push(w);
            let m = before.len() as int;
            if is_beyond(all, m, max) {
                is_capped_list(sofar, all, max, chosen)
            } else {
                is_capped_list(sofar.push(w), all, max, chosen.push(m))
            }
        }),
{
    let all = before.push(w);
    let m = before.len() as int;
    assert forall|i: int| #![trigger all[i]] 0 <= i < m implies all[i] == before[i] && (
    is_beyond(all, i, max) <==> is_beyond(before, i, max)) by {
        assert(all.take(i) =~= before.take(i));
    }
    if is_beyond(all, m, max) {
        assert forall|j: int|
            #![trigger chosen[j]]
            0 <= j < chosen.len() implies 0 <= chosen[j] < all.len() && sofar[j] == all[chosen[j]]
            && !is_beyond(all, chosen[j], max) by {
            assert(before[chosen[j]] == all[chosen[j]]);
        }
        assert forall|i: int|
            0 <= i < all.len() && !#[trigger] is_beyond(all, i, max) implies chosen.contains(i) by {
            assert(all[i] == before[i]);
            assert(!is_beyond(before, i, max));
        }
        assert(is_capped_list(sofar, all, max, chosen));
    } else {
        let list = sofar.push(w);
        let more = chosen.push(m);
        assert forall|j: int|
            #![trigger more[j]]
            0 <= j < more.len() implies 0 <= more[j] < all.len() && list[j] == all[more[j]]
            && !is_beyond(all, more[j], max) by {
            if j < chosen.len() {
                assert(more[j] == chosen[j]);
                assert(before[chosen[j]] == all[chosen[j]]);
            }
        }
        assert forall|i: int, j: int|
            #![trigger more[i], more[j]]
            0 <= i < j < more.len() implies more[i] < more[j] by {
            assert(more[i] == chosen[i]);
            if j < chosen.len() {
                assert(more[j] == chosen[j]);
            }
        }
        assert forall|i: int|
            0 <= i < all.len() && !#[trigger] is_beyond(all, i, max) implies more.contains(i) by {
            if i < m {
                assert(all[i] == before[i]);
                assert(!is_beyond(before, i, max));
                assert(chosen.contains(i));
                let j = choose|j: int| 0 <= j < chosen.len() && chosen[j] == i;
                assert(more[j] == i);
            } else {
                assert(more[chosen.len() as int] == i);
            }
        }
        assert(is_capped_list(list, all, max, more));
    }
}

proof fn lemma_rows_grow(lines: Seq<Seq<char>>)
    requires
        lines.len() > 1,
    ensures
        rows(lines) == rows(lines.drop_last()).push(parsed_row(lines.last())->Ok_0),
{
    assert(rows(lines) =~= rows(lines.drop_last()).push(parsed_row(lines.last())->Ok_0));
}

/// Of every robot and dataset, the list has as many workloads as the manifest has rows, or `max` if
/// that is less.
pub proof fn list_is_capped_by_robot_and_dataset(
    lines: Seq<Seq<char>>,
    max: Option<usize>,
    robot: Seq<char>,
    dataset: Seq<char>,
)
    requires
        forall|i: int| 1 <= i < lines.len() ==> (#[trigger] parsed_row(lines[i])) is Ok,
    ensures
        listed(lines, max) is Ok,
        number_of(listed(lines, max)->Ok_0, robot, dataset) == capped_at(
            number_of(rows(lines), robot, dataset),
            max,
        ),
    decreases lines.len(),
{
    manifest_is_refused_for_its_first_bad_row(lines, max);
    if lines.len() <= 1 {
        reveal(Seq::filter);
        assert(rows(lines) =~= Seq::<Names>::empty());
    } else {
        let fewer = lines.drop_last();
        let last = lines.len() - 1;
        assert forall|i: int| 1 <= i < fewer.len() implies (
        #[trigger] parsed_row(fewer[i])) is Ok by {
            assert(parsed_row(lines[i]) is Ok);
        }
        assert(parsed_row(lines[last]) is Ok);
        let before = rows(fewer);
        let sofar = listed(fewer, max)->Ok_0;
        let w = parsed_row(lines[last])->Ok_0;
        list_is_capped_by_robot_and_dataset(fewer, max, robot, dataset);
        list_is_capped_by_robot_and_dataset(fewer, max, w.robot, w.dataset);
        lemma_rows_grow(lines);
        lemma_group_size(sofar, w);
        lemma_number_of_push(before, w, robot, dataset);
        lemma_number_of_push(sofar, w, robot, dataset);
    }
}

/// The list holds the rows of the manifest in order, without those that come after `max` rows of
/// the same robot in the same dataset, and without any others. Without a cap it holds all rows.
pub proof fn list_holds_the_rows_in_order(lines: Seq<Seq<char>>, max: Option<usize>) -> (chosen:
    Seq<int>)
    requires
        forall|i: int| 1 <= i < lines.len() ==> (#[trigger] parsed_row(lines[i])) is Ok,
    ensures
        listed(lines, max) is Ok,
        is_capped_list(listed(lines, max)->Ok_0, rows(lines), max, chosen),
        max is None ==> listed(lines, max)->Ok_0 == rows(lines),
    decreases lines.len(),
{
    manifest_is_refused_for_its_first_bad_row(lines, max);
    if lines.len() <= 1 {
        assert(rows(lines) =~= Seq::<Names>::empty());
        Seq::empty()
    } else {
        let fewer = lines.drop_last();
        let last = lines.len() - 1;
        assert forall|i: int| 1 <= i < fewer.len() implies (
        #[trigger] parsed_row(fewer[i])) is Ok by {
            assert(parsed_row(lines[i]) is Ok);
        }
        assert(parsed_row(lines[last]) is Ok);
        let before = rows(fewer);
        let sofar = listed(fewer, max)->Ok_0;
        let w = parsed_row(lines[last])->Ok_0;
        let m = before.len() as int;
        let chosen = list_holds_the_rows_in_order(fewer, max);
        lemma_rows_grow(lines);
        lemma_capped_list_grows(sofar, before, max, chosen, w);
        list_is_capped_by_robot_and_dataset(fewer, max, w.robot, w.dataset);
        lemma_group_size(sofar, w);
        assert(before.push(w).take(m) =~= before);
        if is_beyond(before.push(w), m, max) {
            chosen
        } else {
            chosen.push(m)
        }
    }
}

// ---------------------------------------------------------------------------------------------
// Groups
// ---------------------------------------------------------------------------------------------

/// The first of `workloads` that has the given robot.
pub open spec fn is_first_of(workloads: Seq<Names>, robot: Seq<char>, i: int) -> bool {
    &&& 0 <= i < workloads.len()
    &&& workloads[i].robot == robot
    &&& forall|j: int| 0 <= j < i ==> (#[trigger] workloads[j]).robot != robot
}

/// Whether one of `workloads` has the given robot.
pub open spec fn appears(workloads: Seq<Names>, robot: Seq<char>) -> bool {
    exists|i: int| is_first_of(workloads, robot, i)
}

/// Every robot has one group, and the groups come in the order in which their robots first appear.
pub proof fn groups_come_in_order_of_appearance(workloads: Seq<Names>)
    ensures
        forall|g: int|
            0 <= g < robot_order(workloads).len() ==> appears(
                workloads,
                #[trigger] robot_order(workloads)[g],
            ),
        forall|g: int, h: int, i: int, j: int|
            0 <= g < h < robot_order(workloads).len() && #[trigger] is_first_of(
                workloads,
                robot_order(workloads)[g],
                i,
            ) && #[trigger] is_first_of(workloads, robot_order(workloads)[h], j) ==> i < j,
        forall|i: int|
            0 <= i < workloads.len() ==> robot_order(workloads).contains(
                (#[trigger] workloads[i]).robot,
            ),
    decreases workloads.len(),
{
    let order = robot_order(workloads);
    if workloads.len() > 0 {
        let fewer = workloads.drop_last();
        let sofar = robot_order(fewer);
        let last = workloads.len() - 1;
        let robot = workloads[last].robot;
        groups_come_in_order_of_appearance(fewer);
        assert(forall|i: int| 0 <= i < last ==> fewer[i] == workloads[i]);
        assert forall|r: Seq<char>, i: int| #[trigger] is_first_of(fewer, r, i) implies is_first_of(
            workloads,
            r,
            i,
        ) by {
            assert forall|j: int| 0 <= j < i implies (#[trigger] workloads[j]).robot != r by {
                assert(fewer[j] == workloads[j]);
            }
        }
        assert forall|r: Seq<char>, i: int| #[trigger]
            is_first_of(workloads, r, i) && i < last implies is_first_of(fewer, r, i) by {
            assert forall|j: int| 0 <= j < i implies (#[trigger] fewer[j]).robot != r by {
                assert(fewer[j] == workloads[j]);
            }
        }
        assert forall|g: int| 0 <= g < sofar.len() implies #[trigger] order[g] == sofar[g] by {}
        assert forall|g: int| 0 <= g < order.len() implies appears(
            workloads,
            #[trigger] order[g],
        ) by {
            if g < sofar.len() {
                assert(appears(fewer, sofar[g]));
                let i = choose|i: int| is_first_of(fewer, sofar[g], i);
                assert(is_first_of(workloads, order[g], i));
            } else {
                assert forall|j: int| 0 <= j < last implies (
                #[trigger] workloads[j]).robot != robot by {
                    assert(sofar.contains(fewer[j].robot));
                }
                assert(is_first_of(workloads, order[g], last));
            }
        }
        assert forall|g: int, h: int, i: int, j: int|
            0 <= g < h < order.len() && #[trigger] is_first_of(workloads, order[g], i)
                && #[trigger] is_first_of(workloads, order[h], j) implies i < j by {
            assert(appears(fewer, sofar[g]));
            let x = choose|x: int| is_first_of(fewer, sofar[g], x);
            assert(sofar[g] == order[g]);
            assert(is_first_of(workloads, order[g], x));
            lemma_first_is_unique(workloads, order[g], i, x);
            if h < sofar.len() {
                assert(appears(fewer, sofar[h]));
                let y = choose|y: int| is_first_of(fewer, sofar[h], y);
                assert(sofar[h] == order[h]);
                assert(is_first_of(workloads, order[h], y));
                lemma_first_is_unique(workloads, order[h], j, y);
            } else if j < last {
                assert(is_first_of(fewer, order[h], j));
                assert(sofar.contains(fewer[j].robot));
            }
        }
        assert forall|i: int| 0 <= i < workloads.len() implies order.contains(
            (#[trigger] workloads[i]).robot,
        ) by {
            if i < last {
                assert(sofar.contains(fewer[i].robot));
                let g = choose|g: int| 0 <= g < sofar.len() && sofar[g] == fewer[i].robot;
                assert(order[g] == workloads[i].robot);
            } else if sofar.contains(robot) {
                let g = choose|g: int| 0 <= g < sofar.len() && sofar[g] == robot;
                assert(order[g] == robot);
            } else {
                assert(order[sofar.len() as int] == robot);
            }
        }
    }
}

proof fn lemma_first_is_unique(workloads: Seq<Names>, robot: Seq<char>, i: int, j: int)
    requires
        is_first_of(workloads, robot, i),
        is_first_of(workloads, robot, j),
    ensures
        i == j,
{
    if i < j {
        assert(workloads[i].robot != robot);
    } else if j < i {
        assert(workloads[j].robot != robot);
    }
}

/// The group of a robot has the positions of exactly its workloads, in ascending order.
pub proof fn group_has_the_workloads_of_its_robot(workloads: Seq<Names>, robot: Seq<char>)
    requires
        workloads.len() <= usize::MAX,
    ensures
        forall|i: usize| #[trigger]
            workloads_of(workloads, robot).contains(i) <==> i < workloads.len()
                && workloads[i as int].robot == robot,
        forall|i: int, j: int|
            #![trigger workloads_of(workloads, robot)[i], workloads_of(workloads, robot)[j]]
            0 <= i < j < workloads_of(workloads, robot).len() ==> workloads_of(workloads, robot)[i]
                < workloads_of(workloads, robot)[j],
{
    let flags = Seq::new(workloads.len(), |i: int| workloads[i].robot == robot);
    partition_is_complete(flags);
    positions_are_ascending(flags, true);
}

} // verus!

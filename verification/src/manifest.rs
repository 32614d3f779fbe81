//! The list of extracted workloads, and the rows that describe them.

use crate::replay::positions_of;
use crate::text::{column, columns_of, decimal, decimal_spec, next_comma, same_text};
use vstd::prelude::*;
use vstd::string::*;

verus! {

/// A `(dataset, robot, scene_id)` triple from the manifest, identifying one extracted point cloud
/// and query trace.
#[derive(Clone, Debug, PartialEq, Eq)]
pub struct Workload {
    pub dataset: String,
    pub robot: String,
    pub scene_id: String,
}

/// The names in a [`Workload`].
pub struct Names {
    pub dataset: Seq<char>,
    pub robot: Seq<char>,
    pub scene_id: Seq<char>,
}

impl View for Workload {
    type V = Names;

    open spec fn view(&self) -> Names {
        Names { dataset: self.dataset@, robot: self.robot@, scene_id: self.scene_id@ }
    }
}

/// Three names with `sep` between them.
pub open spec fn three_names(a: Seq<char>, b: Seq<char>, c: Seq<char>, sep: Seq<char>) -> Seq<char> {
    a + sep + b + sep + c
}

impl Workload {
    /// The filename prefix used for this workload's `_points_full.bin` / `_queries.bin` files.
    pub fn file_prefix(&self) -> (s: String)
        ensures
            s@ == three_names(self@.robot, self@.dataset, self@.scene_id, "_"@),
    {
        let mut s: String = self.robot.as_str().to_owned();
        s.append("_");
        s.append(self.dataset.as_str());
        s.append("_");
        s.append(self.scene_id.as_str());
        s
    }

    /// A human-readable, robot- and scene-qualified label used in the results.
    pub fn label(&self) -> (s: String)
        ensures
            s@ == three_names(self@.robot, self@.dataset, self@.scene_id, "/"@),
    {
        let mut s: String = self.robot.as_str().to_owned();
        s.append("/");
        s.append(self.dataset.as_str());
        s.append("/");
        s.append(self.scene_id.as_str());
        s
    }
}

/// A row of the manifest has too few columns.
#[derive(Clone, Copy, Debug, PartialEq, Eq, Structural)]
pub enum ManifestError {
    /// There is no second column.
    MissingRobot,
    /// There is no third column.
    MissingSceneId,
}

impl ManifestError {
    /// Describe this error.
    pub fn to_string(&self) -> (s: String)
        ensures
            s@ == match self {
                ManifestError::MissingRobot => "manifest row missing robot column"@,
                ManifestError::MissingSceneId => "manifest row missing scene_id column"@,
            },
    {
        match self {
            ManifestError::MissingRobot => "manifest row missing robot column".to_owned(),
            ManifestError::MissingSceneId => "manifest row missing scene_id column".to_owned(),
        }
    }
}

/// What a row of the manifest says: its first three columns.
pub open spec fn parsed_row(line: Seq<char>) -> Result<Names, ManifestError> {
    match (column(line, 1), column(line, 2)) {
        (None, _) => Err(ManifestError::MissingRobot),
        (_, None) => Err(ManifestError::MissingSceneId),
        (Some(robot), Some(scene_id)) => Ok(
            Names { dataset: column(line, 0)->0, robot, scene_id },
        ),
    }
}

/// Parse a row of the manifest.
pub fn parse_row(line: &str) -> (r: Result<Workload, ManifestError>)
    ensures
        match r {
            Ok(w) => parsed_row(line@) == Ok::<Names, ManifestError>(w@),
            Err(e) => parsed_row(line@) == Err::<Names, ManifestError>(e),
        },
{
    let columns: Vec<String> = columns_of(line, 3);
    if columns.len() < 2 {
        proof {
            if columns@.len() == 0 {
                assert(column(line@, 0) is Some);
            }
        }
        return Err(ManifestError::MissingRobot);
    }
    assert(column(line@, 1) == Some(columns@[1]@));
    if columns.len() < 3 {
        return Err(ManifestError::MissingSceneId);
    }
    assert(column(line@, 0) == Some(columns@[0]@));
    assert(column(line@, 2) == Some(columns@[2]@));
    Ok(
        Workload {
            dataset: columns[0].as_str().to_owned(),
            robot: columns[1].as_str().to_owned(),
            scene_id: columns[2].as_str().to_owned(),
        },
    )
}

/// Whether two workloads belong to the same robot and dataset.
pub open spec fn same_group(a: Names, b: Names) -> bool {
    a.robot == b.robot && a.dataset == b.dataset
}

/// The number of `workloads` in the group of `w`.
pub open spec fn group_size(workloads: Seq<Names>, w: Names) -> nat
    decreases workloads.len(),
{
    if workloads.len() == 0 {
        0
    } else {
        group_size(workloads.drop_last(), w) + if same_group(workloads.last(), w) {
            1nat
        } else {
            0
        }
    }
}

/// The workloads that `lines` list: the first line is a header; of each group at most the first
/// `max` are kept; the first row that cannot be parsed is an error.
pub open spec fn listed(lines: Seq<Seq<char>>, max: Option<usize>) -> Result<
    Seq<Names>,
    ManifestError,
>
    decreases lines.len(),
{
    if lines.len() <= 1 {
        Ok(Seq::empty())
    } else {
        match listed(lines.drop_last(), max) {
            Err(e) => Err(e),
            Ok(sofar) => match parsed_row(lines.last()) {
                Err(e) => Err(e),
                Ok(w) => if max is Some && group_size(sofar, w) >= max->0 {
                    Ok(sofar)
                } else {
                    Ok(sofar.push(w))
                },
            },
        }
    }
}

/// The characters of each line.
pub open spec fn texts(lines: Seq<String>) -> Seq<Seq<char>> {
    Seq::new(lines.len(), |i: int| lines[i]@)
}

/// The names in each workload.
pub open spec fn all_names(workloads: Seq<Workload>) -> Seq<Names> {
    Seq::new(workloads.len(), |i: int| workloads[i]@)
}

/// Count the workloads in the group of `w`.
fn count_group(workloads: &Vec<Workload>, w: &Workload) -> (n: usize)
    ensures
        n == group_size(all_names(workloads@), w@),
{
    let mut n: usize = 0;
    let mut i: usize = 0;
    assert(all_names(workloads@).take(0) =~= Seq::<Names>::empty());
    while i < workloads.len()
        invariant
            i <= workloads.len(),
            n <= i,
            n == group_size(all_names(workloads@).take(i as int), w@),
        decreases workloads.len() - i,
    {
        proof {
            let taken = all_names(workloads@).take(i + 1);
            assert(taken.drop_last() =~= all_names(workloads@).take(i as int));
            assert(taken.last() == workloads@[i as int]@);
        }
        if same_text(workloads[i].robot.as_str(), w.robot.as_str()) && same_text(
            workloads[i].dataset.as_str(),
            w.dataset.as_str(),
        ) {
            n += 1;
        }
        i += 1;
    }
    assert(all_names(workloads@).take(i as int) =~= all_names(workloads@));
    n
}

proof fn lemma_listed_error(lines: Seq<Seq<char>>, n: int, max: Option<usize>)
    requires
        0 <= n <= lines.len(),
        listed(lines.take(n), max) is Err,
    ensures
        listed(lines, max) == listed(lines.take(n), max),
    decreases lines.len() - n,
{
    if n < lines.len() {
        let more = lines.take(n + 1);
        assert(more.drop_last() =~= lines.take(n));
        lemma_listed_error(lines, n + 1, max);
    } else {
        assert(lines.take(n) =~= lines);
    }
}

/// Read the lines of a manifest, optionally capping how many scenes are kept per (robot, dataset)
/// group at `max_per_dataset`.
pub fn read_workloads(lines: &Vec<String>, max_per_dataset: Option<usize>) -> (r: Result<
    Vec<Workload>,
    ManifestError,
>)
    ensures
        match r {
            Ok(workloads) => listed(texts(lines@), max_per_dataset)
                == Ok::<Seq<Names>, ManifestError>(all_names(workloads@)),
            Err(e) => listed(texts(lines@), max_per_dataset)
                == Err::<Seq<Names>, ManifestError>(e),
        },
{
    let mut workloads: Vec<Workload> = Vec::new();
    let ghost all = texts(lines@);
    if lines.len() == 0 {
        assert(all_names(workloads@) =~= Seq::<Names>::empty());
        return Ok(workloads);
    }
    let mut i: usize = 1;
    assert(all_names(workloads@) =~= Seq::<Names>::empty());
    while i < lines.len()
        invariant
            1 <= i <= lines.len(),
            all == texts(lines@),
            listed(all.take(i as int), max_per_dataset) == Ok::<Seq<Names>, ManifestError>(
                all_names(workloads@),
            ),
        decreases lines.len() - i,
    {
        proof {
            let taken = all.take(i + 1);
            assert(taken.drop_last() =~= all.take(i as int));
            assert(taken.last() == lines@[i as int]@);
        }
        let w: Workload = match parse_row(lines[i].as_str()) {
            Ok(w) => w,
            Err(e) => {
                proof {
                    lemma_listed_error(all, i + 1, max_per_dataset);
                }
                return Err(e);
            },
        };
        let full: bool = match max_per_dataset {
            Some(max) => count_group(&workloads, &w) >= max,
            None => false,
        };
        if !full {
            let ghost before = all_names(workloads@);
            workloads.push(w);
            assert(all_names(workloads@) =~= before.push(w@));
        }
        i += 1;
    }
    assert(all.take(i as int) =~= all);
    Ok(workloads)
}

/// A cap is kept: no group has more workloads than it allows.
pub proof fn listed_groups_are_capped(lines: Seq<Seq<char>>, max: usize, w: Names)
    ensures
        listed(lines, Some(max)) matches Ok(workloads) ==> group_size(workloads, w) <= max,
    decreases lines.len(),
{
    if lines.len() > 1 {
        listed_groups_are_capped(lines.drop_last(), max, w);
        if let Ok(sofar) = listed(lines.drop_last(), Some(max)) {
            if let Ok(v) = parsed_row(lines.last()) {
                assert(sofar.push(v).drop_last() =~= sofar);
                if same_group(v, w) {
                    lemma_same_group_size(sofar, v, w);
                }
            }
        }
    }
}

proof fn lemma_same_group_size(workloads: Seq<Names>, v: Names, w: Names)
    requires
        same_group(v, w),
    ensures
        group_size(workloads, v) == group_size(workloads, w),
    decreases workloads.len(),
{
    if workloads.len() > 0 {
        lemma_same_group_size(workloads.drop_last(), v, w);
    }
}

// ---------------------------------------------------------------------------------------------
// Grouping by robot
// ---------------------------------------------------------------------------------------------

/// The robots of `workloads`, each once, in order of first appearance.
pub open spec fn robot_order(workloads: Seq<Names>) -> Seq<Seq<char>>
    decreases workloads.len(),
{
    if workloads.len() == 0 {
        Seq::empty()
    } else {
        let sofar = robot_order(workloads.drop_last());
        let robot = workloads.last().robot;
        if sofar.contains(robot) {
            sofar
        } else {
            sofar.push(robot)
        }
    }
}

/// The positions of the workloads of `robot`.
pub open spec fn workloads_of(workloads: Seq<Names>, robot: Seq<char>) -> Seq<usize> {
    positions_of(Seq::new(workloads.len(), |i: int| workloads[i].robot == robot), true)
}

/// Group workloads by robot, preserving first-appearance order: each robot with the positions of
/// its workloads.
pub fn group_by_robot(workloads: &Vec<Workload>) -> (r: Vec<(String, Vec<usize>)>)
    ensures
        r@.len() == robot_order(all_names(workloads@)).len(),
        forall|g: int|
            #![trigger r@[g]]
            0 <= g < r@.len() ==> {
                &&& r@[g].0@ == robot_order(all_names(workloads@))[g]
                &&& r@[g].1@ == workloads_of(all_names(workloads@), r@[g].0@)
            },
{
    let ghost all = all_names(workloads@);
    let mut robots: Vec<String> = Vec::new();
    let mut i: usize = 0;
    assert(all.take(0) =~= Seq::<Names>::empty());
    while i < workloads.len()
        invariant
            i <= workloads.len(),
            all == all_names(workloads@),
            texts(robots@) =~= robot_order(all.take(i as int)),
        decreases workloads.len() - i,
    {
        proof {
            let taken = all.take(i + 1);
            assert(taken.drop_last() =~= all.take(i as int));
            assert(taken.last() == workloads@[i as int]@);
        }
        let ghost before = texts(robots@);
        if !contains_text(&robots, workloads[i].robot.as_str()) {
            let robot: String = workloads[i].robot.as_str().to_owned();
            robots.push(robot);
            assert(texts(robots@) =~= before.push(workloads@[i as int]@.robot));
        }
        i += 1;
    }
    assert(all.take(i as int) =~= all);
    let mut r: Vec<(String, Vec<usize>)> = Vec::new();
    let mut g: usize = 0;
    while g < robots.len()
        invariant
            g <= robots.len(),
            all == all_names(workloads@),
            texts(robots@) =~= robot_order(all),
            r@.len() == g,
            forall|h: int|
                #![trigger r@[h]]
                0 <= h < g ==> {
                    &&& r@[h].0@ == robot_order(all)[h]
                    &&& r@[h].1@ == workloads_of(all, r@[h].0@)
                },
        decreases robots.len() - g,
    {
        let robot: String = robots[g].as_str().to_owned();
        assert(robot@ == texts(robots@)[g as int]);
        let members: Vec<usize> = members_of(workloads, robot.as_str());
        r.push((robot, members));
        g += 1;
    }
    r
}

fn contains_text(texts_in: &Vec<String>, s: &str) -> (r: bool)
    ensures
        r == texts(texts_in@).contains(s@),
{
    let mut i: usize = 0;
    while i < texts_in.len()
        invariant
            i <= texts_in.len(),
            forall|j: int| 0 <= j < i ==> #[trigger] texts(texts_in@)[j] != s@,
        decreases texts_in.len() - i,
    {
        if same_text(texts_in[i].as_str(), s) {
            assert(texts(texts_in@)[i as int] == s@);
            return true;
        }
        i += 1;
    }
    false
}

fn members_of(workloads: &Vec<Workload>, robot: &str) -> (r: Vec<usize>)
    ensures
        r@ == workloads_of(all_names(workloads@), robot@),
{
    let ghost all = all_names(workloads@);
    let mut flags: Vec<bool> = Vec::new();
    let mut i: usize = 0;
    while i < workloads.len()
        invariant
            i <= workloads.len(),
            all == all_names(workloads@),
            flags@.len() == i,
            forall|j: int| 0 <= j < i ==> #[trigger] flags@[j] == (all[j].robot == robot@),
        decreases workloads.len() - i,
    {
        flags.push(same_text(workloads[i].robot.as_str(), robot));
        i += 1;
    }
    assert(flags@ =~= Seq::new(all.len(), |i: int| all[i].robot == robot@));
    let (yes, _no) = crate::replay::partition_indices(&flags);
    yes
}

// ---------------------------------------------------------------------------------------------
// Rows
// ---------------------------------------------------------------------------------------------

/// The header of the manifest.
pub const MANIFEST_HEADER: &'static str =
    "dataset,robot,scene_id,n_points_full,n_queries,n_collided,solved";

/// What the manifest says of a scene.
pub open spec fn manifest_row_spec(
    dataset: Seq<char>,
    robot: Seq<char>,
    scene_id: nat,
    n_points_full: nat,
    n_queries: nat,
    n_collided: nat,
    solved: bool,
) -> Seq<char> {
    dataset + ","@ + robot + ","@ + decimal_spec(scene_id) + ","@ + decimal_spec(n_points_full)
        + ","@ + decimal_spec(n_queries) + ","@ + decimal_spec(n_collided) + ","@ + if solved {
        "true"@
    } else {
        "false"@
    }
}

/// Write the row of the manifest for an extracted scene.
pub fn manifest_row(
    dataset: &str,
    robot: &str,
    scene_id: usize,
    n_points_full: usize,
    n_queries: usize,
    n_collided: usize,
    solved: bool,
) -> (s: String)
    ensures
        s@ == manifest_row_spec(
            dataset@,
            robot@,
            scene_id as nat,
            n_points_full as nat,
            n_queries as nat,
            n_collided as nat,
            solved,
        ),
{
    let mut s: String = dataset.to_owned();
    s.append(",");
    s.append(robot);
    s.append(",");
    s.append(decimal(scene_id).as_str());
    s.append(",");
    s.append(decimal(n_points_full).as_str());
    s.append(",");
    s.append(decimal(n_queries).as_str());
    s.append(",");
    s.append(decimal(n_collided).as_str());
    s.append(",");
    s.append(
        if solved {
            "true"
        } else {
            "false"
        },
    );
    s
}

/// Whether a text has no comma.
pub open spec fn comma_free(s: Seq<char>) -> bool {
    forall|i: int| 0 <= i < s.len() ==> #[trigger] s[i] != ','
}

proof fn lemma_next_comma_is(line: Seq<char>, from: int, to: int)
    requires
        0 <= from <= to < line.len(),
        forall|i: int| from <= i < to ==> #[trigger] line[i] != ',',
        line[to] == ',',
    ensures
        next_comma(line, from) == to,
    decreases to - from,
{
    if from < to {
        lemma_next_comma_is(line, from + 1, to);
    }
}

proof fn lemma_decimal_comma_free(n: nat)
    ensures
        comma_free(decimal_spec(n)),
    decreases n,
{
    if n >= 10 {
        lemma_decimal_comma_free(n / 10);
    }
}

/// Reading a row of the manifest gives back the names of the scene that it was written for, where
/// the names have no commas.
pub proof fn manifest_row_reads_back(
    dataset: Seq<char>,
    robot: Seq<char>,
    scene_id: nat,
    n_points_full: nat,
    n_queries: nat,
    n_collided: nat,
    solved: bool,
)
    requires
        comma_free(dataset),
        comma_free(robot),
    ensures
        parsed_row(
            manifest_row_spec(
                dataset,
                robot,
                scene_id,
                n_points_full,
                n_queries,
                n_collided,
                solved,
            ),
        ) == Ok::<Names, ManifestError>(
            (Names { dataset, robot, scene_id: decimal_spec(scene_id) }),
        ),
{
    reveal_strlit(",");
    let id = decimal_spec(scene_id);
    let line = manifest_row_spec(
        dataset,
        robot,
        scene_id,
        n_points_full,
        n_queries,
        n_collided,
        solved,
    );
    let rest = decimal_spec(n_points_full) + ","@ + decimal_spec(n_queries) + ","@ + decimal_spec(
        n_collided,
    ) + ","@ + if solved {
        "true"@
    } else {
        "false"@
    };
    assert(line =~= dataset + ","@ + robot + ","@ + id + ","@ + rest);
    lemma_decimal_comma_free(scene_id);
    let a = dataset.len() as int;
    let b = a + 1 + robot.len();
    let c = b + 1 + id.len();
    assert(line[a] == ',' && line[b] == ',' && line[c] == ',');
    assert(line.subrange(0, a) =~= dataset);
    assert(line.subrange(a + 1, b) =~= robot);
    assert(line.subrange(b + 1, c) =~= id);
    assert forall|i: int| 0 <= i < a implies #[trigger] line[i] != ',' by {
        assert(line[i] == dataset[i]);
    }
    assert forall|i: int| a + 1 <= i < b implies #[trigger] line[i] != ',' by {
        assert(line[i] == robot[i - a - 1]);
    }
    assert forall|i: int| b + 1 <= i < c implies #[trigger] line[i] != ',' by {
        assert(line[i] == id[i - b - 1]);
    }
    lemma_next_comma_is(line, 0, a);
    lemma_next_comma_is(line, a + 1, b);
    lemma_next_comma_is(line, b + 1, c);
    reveal_with_fuel(crate::text::column_start, 3);
}

/// The name of the file that holds the point cloud of a scene.
pub fn points_file(prefix: &str) -> (s: String)
    ensures
        s@ == prefix@ + "_points_full.bin"@,
{
    let mut s: String = prefix.to_owned();
    s.append("_points_full.bin");
    s
}

/// The name of the file that holds the query trace of a scene.
pub fn queries_file(prefix: &str) -> (s: String)
    ensures
        s@ == prefix@ + "_queries.bin"@,
{
    let mut s: String = prefix.to_owned();
    s.append("_queries.bin");
    s
}

/// The prefix of the files of a scene.
pub fn scene_prefix(robot: &str, dataset: &str, scene_id: usize) -> (s: String)
    ensures
        s@ == three_names(robot@, dataset@, decimal_spec(scene_id as nat), "_"@),
{
    let mut s: String = robot.to_owned();
    s.append("_");
    s.append(dataset);
    s.append("_");
    s.append(decimal(scene_id).as_str());
    s
}

} // verus!

use core::ops::{Add, Div, Mul, Sub};
use mvtable::planning::{
    datasets_of, filter_resolution, is_sampleable, plan_row, Backend, Check, PlanRow,
    PointCloudWorld, SimdPointCloudWorld, SolveError,
};
use mvtable::pointcloud::{cuboid_faces, rect_samples, tube_samples, Turn};
use mvtable::replay::{prepare, MAX_QUERIES, MAX_SIMD_BATCHES};
use mvtable::runs::{
    ExtractAction, ExtractEvent, ExtractRun, PlanAction, PlanEvent, PlanRun, PlanStep,
};
use mvtable::sweep::{apply_filter, best, candidates, largest, sample_len, Tally};
use mvtable::workload::RawQuery;
use mvtable::{Axis, AxisSimdElement, MutableMvt, Mvt};

/// A single-precision coordinate.
#[derive(Clone, Copy, Debug, PartialEq, PartialOrd)]
struct F32(f32);

impl Add for F32 {
    type Output = F32;
    fn add(self, other: F32) -> F32 {
        F32(self.0 + other.0)
    }
}

impl Sub for F32 {
    type Output = F32;
    fn sub(self, other: F32) -> F32 {
        F32(self.0 - other.0)
    }
}

impl Mul for F32 {
    type Output = F32;
    fn mul(self, other: F32) -> F32 {
        F32(self.0 * other.0)
    }
}

impl Div for F32 {
    type Output = F32;
    fn div(self, other: F32) -> F32 {
        F32(self.0 / other.0)
    }
}

impl Axis for F32 {
    const ZERO: F32 = F32(0.0);
    const INFINITY: F32 = F32(f32::INFINITY);
    const NEG_INFINITY: F32 = F32(f32::NEG_INFINITY);

    fn is_finite_spec(self) -> bool {
        self.is_finite()
    }

    fn square_spec(self) -> F32 {
        self.square()
    }

    fn to_index_spec(self) -> usize {
        self.to_index()
    }

    fn from_usize_spec(x: usize) -> F32 {
        F32::from_usize(x)
    }

    fn total_operators() {}

    fn is_finite(self) -> bool {
        self.0.is_finite()
    }

    fn square(self) -> F32 {
        F32(self.0 * self.0)
    }

    fn to_index(self) -> usize {
        self.0 as usize
    }

    fn from_usize(x: usize) -> F32 {
        F32(x as f32)
    }
}

impl AxisSimdElement for F32 {
    fn square_is_product() {}
}

fn wrap<const N: usize>(values: [f32; N]) -> [F32; N] {
    values.map(F32)
}

fn unwrap<const N: usize>(values: [F32; N]) -> [f32; N] {
    values.map(|x| x.0)
}

fn wrap_all<const K: usize>(points: &[[f32; K]]) -> Vec<[F32; K]> {
    points.iter().map(|&p| wrap(p)).collect()
}

#[test]
fn worlds_answer_like_their_structures() {
    let points = wrap_all(&[[0.0, 0.0, 0.0], [1.0, 1.0, 1.0]]);
    let scalar = PointCloudWorld(Mvt::<3, F32>::new(&points, F32(0.5)));
    let simd = SimdPointCloudWorld(MutableMvt::<3, F32>::new(&points, F32(0.5)));
    assert!(scalar.collides_ball(F32(0.1), F32(0.0), F32(0.0), F32(0.2)));
    assert!(simd.collides_ball(F32(0.1), F32(0.0), F32(0.0), F32(0.2)));
    assert!(!scalar.collides_ball(F32(0.5), F32(0.5), F32(0.5), F32(0.2)));
    let xs = wrap([5.0, 0.9]);
    let near = wrap([5.0, 1.0]);
    let far = wrap([5.0, 7.0]);
    let rs = wrap([0.1, 0.2]);
    assert!(scalar.collides_balls(xs, near, near, rs));
    assert!(simd.collides_balls(xs, near, near, rs));
    assert!(!scalar.collides_balls(xs, far, far, rs));
    assert!(!simd.collides_balls(xs, far, far, rs));
}

#[test]
fn problems_are_checked_in_order() {
    assert_eq!(Check::StartInBounds.after(true), Ok(Some(Check::GoalInBounds)));
    assert_eq!(Check::GoalInBounds.after(true), Ok(Some(Check::StartValid)));
    assert_eq!(Check::StartValid.after(true), Ok(Some(Check::GoalValid)));
    assert_eq!(Check::GoalValid.after(true), Ok(None));
    assert_eq!(Check::StartInBounds.after(false), Err(SolveError::StartOutOfBounds));
    assert_eq!(Check::GoalInBounds.after(false), Err(SolveError::GoalOutOfBounds));
    assert_eq!(Check::StartValid.after(false), Err(SolveError::InvalidStart));
    assert_eq!(Check::GoalValid.after(false), Err(SolveError::InvalidGoal));
    assert_eq!(SolveError::StartOutOfBounds.to_string(), "start out of bounds");
    assert_eq!(SolveError::GoalOutOfBounds.to_string(), "goal out of bounds");
    assert_eq!(SolveError::InvalidStart.to_string(), "invalid start");
    assert_eq!(SolveError::InvalidGoal.to_string(), "invalid goal");
}

#[test]
fn worlds_with_other_primitives_are_not_sampled() {
    assert!(is_sampleable(0, 0, 0));
    assert!(!is_sampleable(1, 0, 0));
    assert!(!is_sampleable(0, 1, 0));
    assert!(!is_sampleable(0, 0, 1));
}

#[test]
fn datasets_of_the_robots() {
    assert_eq!(datasets_of("panda").len(), 7);
    assert_eq!(datasets_of("panda")[3], "box");
    assert_eq!(
        datasets_of("baxter"),
        vec![
            "bookshelf_tall_both_arms_easy",
            "bookshelf_tall_both_arms_hard",
            "bookshelf_tall_both_arms_medium",
        ]
    );
}

#[test]
fn backends_have_names_and_lanes() {
    let mut names = vec![];
    let mut lanes = vec![];
    let mut backend = Some(Backend::Mvt);
    while let Some(b) = backend {
        names.push(b.name());
        lanes.push(b.lanes());
        backend = b.next();
    }
    assert_eq!(
        names,
        vec![
            "mvtable",
            "mvtable_mutable",
            "capt",
            "kiddo",
            "mvtable_simd",
            "mvtable_mutable_simd",
            "capt_simd",
        ]
    );
    assert_eq!(lanes, vec![1, 1, 1, 1, 8, 8, 8]);
}

#[test]
fn rows_of_planning_results() {
    let row = PlanRow {
        structure: "capt",
        robot: "ur5",
        dataset: "cage",
        scene_id: 12,
        r_filter: "0.08",
        n_points: 777,
        solved: true,
        time_secs: "0.5",
        construction_secs: "0.25",
        n_samples: 3,
        n_nodes: 4,
    };
    assert_eq!(plan_row(row), "capt,ur5,cage,12,0.08,777,true,0.5,0.25,3,4");
    assert_eq!(filter_resolution(F32(0.5)), F32(2.0));
}

fn quiet(action: PlanAction) -> PlanStep {
    PlanStep {
        write_row: false,
        action,
    }
}

#[test]
fn scene_is_tried_with_every_backend() {
    let mut run = PlanRun::new(1);
    assert_eq!(run.step(PlanEvent::Scene(false)), quiet(PlanAction::NextScene));
    assert_eq!(run.step(PlanEvent::Scene(true)), quiet(PlanAction::Sample));
    assert_eq!(run.step(PlanEvent::Points(0)), quiet(PlanAction::NextScene));
    assert_eq!(run.step(PlanEvent::Scene(true)), quiet(PlanAction::Sample));
    assert_eq!(run.step(PlanEvent::Points(9)), quiet(PlanAction::Filter));
    assert_eq!(run.step(PlanEvent::Filtered(0)), quiet(PlanAction::NextScene));
    assert_eq!(run.step(PlanEvent::Scene(true)), quiet(PlanAction::Sample));
    assert_eq!(run.step(PlanEvent::Points(9)), quiet(PlanAction::Filter));
    assert_eq!(
        run.step(PlanEvent::Filtered(5)),
        quiet(PlanAction::Attempt(Backend::Mvt))
    );
    let rest = [
        Backend::MutableMvt,
        Backend::Capt,
        Backend::Kiddo,
        Backend::MvtSimd,
        Backend::MutableMvtSimd,
        Backend::CaptSimd,
    ];
    for (i, next) in rest.into_iter().enumerate() {
        let attempted = i % 2 == 0;
        assert_eq!(
            run.step(PlanEvent::Attempt(attempted)),
            PlanStep {
                write_row: attempted,
                action: PlanAction::Attempt(next)
            }
        );
    }
    assert_eq!(run.n_run, 0);
    assert_eq!(
        run.step(PlanEvent::Attempt(true)),
        PlanStep {
            write_row: true,
            action: PlanAction::NextScene
        }
    );
    assert_eq!(run.n_run, 1);
    assert_eq!(run.step(PlanEvent::Scene(false)), quiet(PlanAction::NextScene));
    assert_eq!(run.step(PlanEvent::Scene(true)), quiet(PlanAction::Stop));
}

#[test]
fn extraction_is_capped() {
    let mut run = ExtractRun::new(2);
    let mut written = 0;
    for i in 0..10 {
        match run.step(ExtractEvent::Scene(i % 2 == 0)) {
            ExtractAction::NextScene => continue,
            ExtractAction::Stop => break,
            action => assert_eq!(action, ExtractAction::Solve),
        }
        match run.step(ExtractEvent::Solved(i != 0)) {
            ExtractAction::NextScene => continue,
            action => assert_eq!(action, ExtractAction::Sample),
        }
        match run.step(ExtractEvent::Points(if i == 2 { 0 } else { 100 })) {
            ExtractAction::NextScene => continue,
            action => assert_eq!(action, ExtractAction::Write),
        }
        written += 1;
        assert_eq!(run.n_extracted, written);
    }
    assert_eq!(written, 2);
}

#[test]
fn faces_of_a_cuboid() {
    let faces = cuboid_faces(wrap([1.0, 2.0, 3.0]), F32(10.0));
    assert_eq!(faces[0].turn, Turn::Unturned);
    assert_eq!(faces[0].half_widths, wrap([1.0, 2.0]));
    assert_eq!(faces[0].offset, F32(3.0));
    assert_eq!(faces[0].samples, 80);
    assert_eq!(faces[1].turn, Turn::AboutY);
    assert_eq!(faces[1].half_widths, wrap([3.0, 2.0]));
    assert_eq!(faces[1].offset, F32(1.0));
    assert_eq!(faces[1].samples, 240);
    assert_eq!(faces[2].turn, Turn::AboutX);
    assert_eq!(faces[2].half_widths, wrap([1.0, 3.0]));
    assert_eq!(faces[2].offset, F32(2.0));
    assert_eq!(faces[2].samples, 120);
    assert_eq!(rect_samples(wrap([0.5, 0.5]), F32(1.9)), 1);
    assert_eq!(tube_samples(F32(0.5), F32(6.0), F32(2.0), F32(1.5)), 9);
}

#[test]
fn candidates_are_linearly_spaced() {
    let all = candidates(F32(0.08));
    assert_eq!(all.len(), 48);
    assert_eq!(all[0], (F32(0.04), false));
    assert_eq!(all[46], (F32(0.5), false));
    assert_eq!(all[47], (F32(0.08), true));
    assert!((all[23].0 .0 - 0.27).abs() < 1e-6);
    assert_eq!(largest(&wrap([0.06, 0.15, 0.1])), F32(0.15));
    assert_eq!(largest::<F32>(&[]), F32(0.0));
}

#[test]
fn candidates_are_timed_on_a_sample() {
    assert_eq!(sample_len(0, 10), None);
    assert_eq!(sample_len(10, 0), None);
    assert_eq!(sample_len(10, 249), Some(249));
    assert_eq!(sample_len(10, 251), Some(250));
    let mut tally = Tally::<F32>::new();
    assert_eq!(tally.mean(), None);
    tally.record(2, F32(100.0));
    tally.record(3, F32(60.0));
    assert_eq!(tally.mean(), Some(F32(4.0)));
}

#[test]
fn fastest_candidate_is_selected() {
    let results = [
        (F32(0.1), Some(F32(5.0))),
        (F32(0.2), None),
        (F32(0.3), Some(F32(4.0))),
        (F32(0.4), Some(F32(4.0))),
    ];
    assert_eq!(best(F32(9.0), &results), (F32(0.3), F32(4.0)));
    assert_eq!(best::<F32, F32>(F32(9.0), &[]), (F32(9.0), F32(f32::INFINITY)));
}

#[test]
fn filters_are_chosen_by_name() {
    let points = wrap_all(&[[0.5, 0.5, 0.5], [0.01, 0.01, 0.01], [0.52, 0.5, 0.5]]);
    assert_eq!(apply_filter("centervox", &points, F32(1.0)), wrap_all(&[[0.5, 0.5, 0.5]]));
    let kept = apply_filter("morton", &points, F32(0.1));
    assert_eq!(kept.len(), 2);
}

#[test]
fn prepared_workload_is_capped() {
    let query = |i: usize, lanes: u8| RawQuery {
        center: wrap([i as f32, 0.0, 0.0]),
        r: F32(1.0 + i as f32),
        lanes,
    };
    let mut raw = vec![];
    for i in 0..MAX_QUERIES + 5 {
        raw.push(query(i, 1));
    }
    for i in 0..(MAX_SIMD_BATCHES + 5) * 8 {
        raw.push(query(i, 8));
    }
    let replay = prepare("panda_box_1", &raw);
    assert_eq!(replay.r_min, F32(1.0));
    assert_eq!(replay.scalar_queries.len(), MAX_QUERIES);
    assert_eq!(replay.simd_batches.len(), MAX_SIMD_BATCHES);
    for batch in &replay.simd_batches {
        for l in 1..8 {
            assert_eq!(batch[l].center[0].0, batch[0].center[0].0 + l as f32);
        }
    }
    let short = prepare("panda_box_1", &raw[..3]);
    assert_eq!(short.scalar_queries.len(), 3);
    assert!(short.simd_batches.is_empty());
}

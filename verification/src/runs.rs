//! The course of a benchmark over the scenes of a dataset.
//!
//! The work on a scene - sampling, filtering, planning, writing - is done by the application. What
//! to do next, given what came of it, is decided here.

use crate::planning::Backend;
use vstd::prelude::*;

verus! {

// ---------------------------------------------------------------------------------------------
// Planning with every backend
// ---------------------------------------------------------------------------------------------

/// What a planning run waits for.
#[derive(Clone, Copy, Debug, PartialEq, Eq, Structural)]
pub enum PlanPhase {
    /// The next scene of the dataset.
    Scene,
    /// The size of the scene's point cloud.
    Points,
    /// The size of the filtered point cloud.
    Filtered,
    /// The end of an attempt with a backend.
    Attempt(Backend),
    /// Nothing: enough scenes have been run.
    Stopped,
}

/// The state of a planning run over a dataset.
#[derive(Clone, Copy, Debug, PartialEq, Eq, Structural)]
pub struct PlanRun {
    /// The number of scenes to run.
    pub cap: usize,
    /// The number of scenes that have been run.
    pub n_run: usize,
    /// What the run waits for.
    pub phase: PlanPhase,
}

/// What came of the work on a scene.
#[derive(Clone, Copy, Debug, PartialEq, Eq, Structural)]
pub enum PlanEvent {
    /// There is another scene; whether it can be sampled.
    Scene(bool),
    /// The scene was sampled into so many points.
    Points(usize),
    /// So many points are left after filtering.
    Filtered(usize),
    /// The attempt with a backend ended; whether the planner could attempt the problem.
    Attempt(bool),
}

/// What to do next.
#[derive(Clone, Copy, Debug, PartialEq, Eq, Structural)]
pub enum PlanAction {
    /// Go on to the next scene.
    NextScene,
    /// Sample the scene into a point cloud.
    Sample,
    /// Filter the point cloud.
    Filter,
    /// Build the structure of a backend and run the planner against it.
    Attempt(Backend),
    /// Leave the dataset.
    Stop,
}

/// What to do after an event: whether to write a row of results first, and then what.
#[derive(Clone, Copy, Debug, PartialEq, Eq, Structural)]
pub struct PlanStep {
    pub write_row: bool,
    pub action: PlanAction,
}

/// Whether `event` is what a run in `phase` waits for.
pub open spec fn plan_awaits(phase: PlanPhase, event: PlanEvent) -> bool {
    match (phase, event) {
        (PlanPhase::Scene, PlanEvent::Scene(_)) => true,
        (PlanPhase::Points, PlanEvent::Points(_)) => true,
        (PlanPhase::Filtered, PlanEvent::Filtered(_)) => true,
        (PlanPhase::Attempt(_), PlanEvent::Attempt(_)) => true,
        _ => false,
    }
}

/// The state that a run moves to, and what to do then.
///
/// A scene is left out if it cannot be sampled, or has no points before or after filtering; it
/// counts as run once every backend has been tried, whether or not any of them solved it. The run
/// stops at the first scene that could be used once enough have been run.
pub open spec fn plan_step(run: PlanRun, event: PlanEvent) -> (PlanRun, PlanStep) {
    let quiet = |action: PlanAction| PlanStep { write_row: false, action };
    match (run.phase, event) {
        (PlanPhase::Scene, PlanEvent::Scene(sampleable)) => if !sampleable {
            (run, quiet(PlanAction::NextScene))
        } else if run.n_run >= run.cap {
            (PlanRun { phase: PlanPhase::Stopped, ..run }, quiet(PlanAction::Stop))
        } else {
            (PlanRun { phase: PlanPhase::Points, ..run }, quiet(PlanAction::Sample))
        },
        (PlanPhase::Points, PlanEvent::Points(n)) => if n == 0 {
            (PlanRun { phase: PlanPhase::Scene, ..run }, quiet(PlanAction::NextScene))
        } else {
            (PlanRun { phase: PlanPhase::Filtered, ..run }, quiet(PlanAction::Filter))
        },
        (PlanPhase::Filtered, PlanEvent::Filtered(n)) => if n == 0 {
            (PlanRun { phase: PlanPhase::Scene, ..run }, quiet(PlanAction::NextScene))
        } else {
            (
                PlanRun { phase: PlanPhase::Attempt(Backend::Mvt), ..run },
                quiet(PlanAction::Attempt(Backend::Mvt)),
            )
        },
        (PlanPhase::Attempt(backend), PlanEvent::Attempt(attempted)) => match backend.next_spec() {
            Some(next) => (
                PlanRun { phase: PlanPhase::Attempt(next), ..run },
                PlanStep { write_row: attempted, action: PlanAction::Attempt(next) },
            ),
            None => (
                PlanRun {
                    phase: PlanPhase::Scene,
                    n_run: (run.n_run + 1) as usize,
                    ..run
                },
                PlanStep { write_row: attempted, action: PlanAction::NextScene },
            ),
        },
        _ => (run, quiet(PlanAction::Stop)),
    }
}

impl PlanRun {
    /// A run is within its limit: a scene is only worked on while fewer have been run.
    pub open spec fn wf(self) -> bool {
        &&& self.n_run <= self.cap
        &&& match self.phase {
            PlanPhase::Points | PlanPhase::Filtered | PlanPhase::Attempt(_) => self.n_run
                < self.cap,
            _ => true,
        }
    }

    /// Start on a dataset.
    pub fn new(cap: usize) -> (r: Self)
        ensures
            r == (PlanRun { cap, n_run: 0, phase: PlanPhase::Scene }),
            r.wf(),
    {
        PlanRun { cap, n_run: 0, phase: PlanPhase::Scene }
    }

    /// Decide what to do after `event`.
    pub fn step(&mut self, event: PlanEvent) -> (s: PlanStep)
        requires
            old(self).wf(),
            plan_awaits(old(self).phase, event),
        ensures
            (*final(self), s) == plan_step(*old(self), event),
            final(self).wf(),
    {
        match (self.phase, event) {
            (PlanPhase::Scene, PlanEvent::Scene(sampleable)) => {
                if !sampleable {
                    PlanStep { write_row: false, action: PlanAction::NextScene }
                } else if self.n_run >= self.cap {
                    self.phase = PlanPhase::Stopped;
                    PlanStep { write_row: false, action: PlanAction::Stop }
                } else {
                    self.phase = PlanPhase::Points;
                    PlanStep { write_row: false, action: PlanAction::Sample }
                }
            },
            (PlanPhase::Points, PlanEvent::Points(n)) => {
                if n == 0 {
                    self.phase = PlanPhase::Scene;
                    PlanStep { write_row: false, action: PlanAction::NextScene }
                } else {
                    self.phase = PlanPhase::Filtered;
                    PlanStep { write_row: false, action: PlanAction::Filter }
                }
            },
            (PlanPhase::Filtered, PlanEvent::Filtered(n)) => {
                if n == 0 {
                    self.phase = PlanPhase::Scene;
                    PlanStep { write_row: false, action: PlanAction::NextScene }
                } else {
                    self.phase = PlanPhase::Attempt(Backend::Mvt);
                    PlanStep { write_row: false, action: PlanAction::Attempt(Backend::Mvt) }
                }
            },
            (PlanPhase::Attempt(backend), PlanEvent::Attempt(attempted)) => {
                match backend.next() {
                    Some(next) => {
                        self.phase = PlanPhase::Attempt(next);
                        PlanStep { write_row: attempted, action: PlanAction::Attempt(next) }
                    },
                    None => {
                        self.phase = PlanPhase::Scene;
                        self.n_run = self.n_run + 1;
                        PlanStep { write_row: attempted, action: PlanAction::NextScene }
                    },
                }
            },
            _ => PlanStep { write_row: false, action: PlanAction::Stop },
        }
    }
}

/// The state of a run after a number of attempts with the given results.
pub open spec fn after_attempts(run: PlanRun, results: Seq<bool>) -> PlanRun
    decreases results.len(),
{
    if results.len() == 0 {
        run
    } else {
        plan_step(
            after_attempts(run, results.drop_last()),
            PlanEvent::Attempt(results.last()),
        ).0
    }
}

/// The backends that every scene is solved with, in order.
pub open spec fn backend_order() -> Seq<Backend> {
    seq![
        Backend::Mvt,
        Backend::MutableMvt,
        Backend::Capt,
        Backend::Kiddo,
        Backend::MvtSimd,
        Backend::MutableMvtSimd,
        Backend::CaptSimd,
    ]
}

/// A scene with points left after filtering is tried with every backend in order, whatever comes
/// of each attempt, and then counts as run.
pub proof fn scene_is_tried_with_every_backend(run: PlanRun, results: Seq<bool>)
    requires
        run.wf(),
        run.phase == PlanPhase::Attempt(Backend::Mvt),
        results.len() <= 7,
    ensures
        results.len() < 7 ==> after_attempts(run, results) == (PlanRun {
            phase: PlanPhase::Attempt(backend_order()[results.len() as int]),
            ..run
        }),
        results.len() == 7 ==> after_attempts(run, results) == (PlanRun {
            phase: PlanPhase::Scene,
            n_run: (run.n_run + 1) as usize,
            ..run
        }),
    decreases results.len(),
{
    if results.len() > 0 {
        scene_is_tried_with_every_backend(run, results.drop_last());
    }
}

/// Every backend comes once in the order.
pub proof fn every_backend_comes_once(b: Backend)
    ensures
        backend_order().no_duplicates(),
        backend_order().contains(b),
        backend_order()[0] == Backend::Mvt,
{
    let order = backend_order();
    assert(order[0] == Backend::Mvt && order[1] == Backend::MutableMvt);
    assert(order[2] == Backend::Capt && order[3] == Backend::Kiddo);
    assert(order[4] == Backend::MvtSimd && order[5] == Backend::MutableMvtSimd);
    assert(order[6] == Backend::CaptSimd);
}

// ---------------------------------------------------------------------------------------------
// Extracting workloads
// ---------------------------------------------------------------------------------------------

/// What an extraction waits for.
#[derive(Clone, Copy, Debug, PartialEq, Eq, Structural)]
pub enum ExtractPhase {
    /// The next scene of the dataset.
    Scene,
    /// The end of the planner's run.
    Solved,
    /// The size of the scene's point cloud.
    Points,
    /// Nothing: enough scenes have been extracted.
    Stopped,
}

/// The state of an extraction over a dataset.
#[derive(Clone, Copy, Debug, PartialEq, Eq, Structural)]
pub struct ExtractRun {
    /// The number of scenes to extract.
    pub cap: usize,
    /// The number of scenes that have been extracted.
    pub n_extracted: usize,
    /// What the extraction waits for.
    pub phase: ExtractPhase,
}

/// What came of the work on a scene.
#[derive(Clone, Copy, Debug, PartialEq, Eq, Structural)]
pub enum ExtractEvent {
    /// There is another scene; whether it can be sampled.
    Scene(bool),
    /// The planner's run ended; whether it could attempt the problem.
    Solved(bool),
    /// The scene was sampled into so many points.
    Points(usize),
}

/// What to do next.
#[derive(Clone, Copy, Debug, PartialEq, Eq, Structural)]
pub enum ExtractAction {
    /// Go on to the next scene.
    NextScene,
    /// Run the planner on the scene and record its queries.
    Solve,
    /// Sample the scene into a point cloud.
    Sample,
    /// Write the point cloud, the queries and a row of the manifest, and go on to the next scene.
    Write,
    /// Leave the dataset.
    Stop,
}

/// Whether `event` is what an extraction in `phase` waits for.
pub open spec fn extract_awaits(phase: ExtractPhase, event: ExtractEvent) -> bool {
    match (phase, event) {
        (ExtractPhase::Scene, ExtractEvent::Scene(_)) => true,
        (ExtractPhase::Solved, ExtractEvent::Solved(_)) => true,
        (ExtractPhase::Points, ExtractEvent::Points(_)) => true,
        _ => false,
    }
}

/// The state that an extraction moves to, and what to do then.
///
/// A scene is left out if it cannot be sampled, its problem cannot be attempted, or it has no
/// points. The extraction stops at the first scene that could be used once enough have been
/// extracted.
pub open spec fn extract_step(run: ExtractRun, event: ExtractEvent) -> (ExtractRun, ExtractAction) {
    match (run.phase, event) {
        (ExtractPhase::Scene, ExtractEvent::Scene(sampleable)) => if !sampleable {
            (run, ExtractAction::NextScene)
        } else if run.n_extracted >= run.cap {
            (ExtractRun { phase: ExtractPhase::Stopped, ..run }, ExtractAction::Stop)
        } else {
            (ExtractRun { phase: ExtractPhase::Solved, ..run }, ExtractAction::Solve)
        },
        (ExtractPhase::Solved, ExtractEvent::Solved(attempted)) => if attempted {
            (ExtractRun { phase: ExtractPhase::Points, ..run }, ExtractAction::Sample)
        } else {
            (ExtractRun { phase: ExtractPhase::Scene, ..run }, ExtractAction::NextScene)
        },
        (ExtractPhase::Points, ExtractEvent::Points(n)) => if n == 0 {
            (ExtractRun { phase: ExtractPhase::Scene, ..run }, ExtractAction::NextScene)
        } else {
            (
                ExtractRun {
                    phase: ExtractPhase::Scene,
                    n_extracted: (run.n_extracted + 1) as usize,
                    ..run
                },
                ExtractAction::Write,
            )
        },
        _ => (run, ExtractAction::Stop),
    }
}

impl ExtractRun {
    /// An extraction is within its limit: a scene is only worked on while fewer have been
    /// extracted.
    pub open spec fn wf(self) -> bool {
        &&& self.n_extracted <= self.cap
        &&& match self.phase {
            ExtractPhase::Solved | ExtractPhase::Points => self.n_extracted < self.cap,
            _ => true,
        }
    }

    /// Start on a dataset.
    pub fn new(cap: usize) -> (r: Self)
        ensures
            r == (ExtractRun { cap, n_extracted: 0, phase: ExtractPhase::Scene }),
            r.wf(),
    {
        ExtractRun { cap, n_extracted: 0, phase: ExtractPhase::Scene }
    }

    /// Decide what to do after `event`.
    pub fn step(&mut self, event: ExtractEvent) -> (action: ExtractAction)
        requires
            old(self).wf(),
            extract_awaits(old(self).phase, event),
        ensures
            (*final(self), action) == extract_step(*old(self), event),
            final(self).wf(),
    {
        match (self.phase, event) {
            (ExtractPhase::Scene, ExtractEvent::Scene(sampleable)) => {
                if !sampleable {
                    ExtractAction::NextScene
                } else if self.n_extracted >= self.cap {
                    self.phase = ExtractPhase::Stopped;
                    ExtractAction::Stop
                } else {
                    self.phase = ExtractPhase::Solved;
                    ExtractAction::Solve
                }
            },
            (ExtractPhase::Solved, ExtractEvent::Solved(attempted)) => {
                if attempted {
                    self.phase = ExtractPhase::Points;
                    ExtractAction::Sample
                } else {
                    self.phase = ExtractPhase::Scene;
                    ExtractAction::NextScene
                }
            },
            (ExtractPhase::Points, ExtractEvent::Points(n)) => {
                self.phase = ExtractPhase::Scene;
                if n == 0 {
                    ExtractAction::NextScene
                } else {
                    self.n_extracted = self.n_extracted + 1;
                    ExtractAction::Write
                }
            },
            _ => ExtractAction::Stop,
        }
    }
}

/// The state of an extraction after a sequence of events.
pub open spec fn extract_after(run: ExtractRun, events: Seq<ExtractEvent>) -> ExtractRun
    decreases events.len(),
{
    if events.len() == 0 {
        run
    } else {
        extract_step(extract_after(run, events.drop_last()), events.last()).0
    }
}

/// Whether each of `events` is what the extraction waits for when it comes.
pub open spec fn extract_follows(run: ExtractRun, events: Seq<ExtractEvent>) -> bool
    decreases events.len(),
{
    events.len() == 0 || {
        &&& extract_follows(run, events.drop_last())
        &&& extract_awaits(extract_after(run, events.drop_last()).phase, events.last())
    }
}

/// The number of writes that a sequence of events leads to.
pub open spec fn writes(run: ExtractRun, events: Seq<ExtractEvent>) -> nat
    decreases events.len(),
{
    if events.len() == 0 {
        0
    } else {
        writes(run, events.drop_last()) + if extract_step(
            extract_after(run, events.drop_last()),
            events.last(),
        ).1 == ExtractAction::Write {
            1nat
        } else {
            0
        }
    }
}

/// Whatever happens, an extraction writes no more scenes than its limit, and counts each of them.
pub proof fn extraction_is_capped(run: ExtractRun, events: Seq<ExtractEvent>)
    requires
        run.wf(),
        run.n_extracted == 0,
        extract_follows(run, events),
    ensures
        extract_after(run, events).wf(),
        extract_after(run, events).cap == run.cap,
        writes(run, events) == extract_after(run, events).n_extracted,
        writes(run, events) <= run.cap,
    decreases events.len(),
{
    if events.len() > 0 {
        extraction_is_capped(run, events.drop_last());
    }
}

// ---------------------------------------------------------------------------------------------
// Whole scenes
// ---------------------------------------------------------------------------------------------

/// The state of a planning run after a sequence of events, and what it does after each of them.
pub open spec fn plan_course(run: PlanRun, events: Seq<PlanEvent>) -> (PlanRun, Seq<PlanStep>)
    decreases events.len(),
{
    if events.len() == 0 {
        (run, Seq::empty())
    } else {
        let (before, steps) = plan_course(run, events.drop_last());
        let (after, step) = plan_step(before, events.last());
        (after, steps.push(step))
    }
}

/// Whether each of `events` is what a planning run waits for when it comes.
pub open spec fn plan_follows(run: PlanRun, events: Seq<PlanEvent>) -> bool
    decreases events.len(),
{
    events.len() == 0 || {
        &&& plan_follows(run, events.drop_last())
        &&& plan_awaits(plan_course(run, events.drop_last()).0.phase, events.last())
    }
}

/// Whatever happens, a planning run writes a row after exactly those attempts in which the planner
/// could attempt the problem, and never runs more scenes than its limit.
pub proof fn rows_are_the_attempts(run: PlanRun, events: Seq<PlanEvent>)
    requires
        run.wf(),
        plan_follows(run, events),
    ensures
        plan_course(run, events).0.wf(),
        plan_course(run, events).0.cap == run.cap,
        plan_course(run, events).1.len() == events.len(),
        forall|i: int|
            #![trigger events[i]]
            0 <= i < events.len() ==> (plan_course(run, events).1[i].write_row <==> events[i]
                == PlanEvent::Attempt(true)),
    decreases events.len(),
{
    if events.len() > 0 {
        let fewer = events.drop_last();
        rows_are_the_attempts(run, fewer);
        let last = events.len() - 1;
        let steps = plan_course(run, events).1;
        assert forall|i: int| #![trigger events[i]] 0 <= i < events.len() implies (
        steps[i].write_row <==> events[i] == PlanEvent::Attempt(true)) by {
            if i < last {
                assert(fewer[i] == events[i]);
                assert(steps[i] == plan_course(run, fewer).1[i]);
            }
        }
    }
}

/// A step without a row.
pub open spec fn quietly(action: PlanAction) -> PlanStep {
    PlanStep { write_row: false, action }
}

/// What happens in a scene that is used: it can be sampled, has points before and after filtering,
/// and the attempts have the given results.
pub open spec fn scene_events(points: usize, filtered: usize, results: Seq<bool>) -> Seq<PlanEvent> {
    seq![PlanEvent::Scene(true), PlanEvent::Points(points), PlanEvent::Filtered(filtered)]
        + results.map_values(|attempted: bool| PlanEvent::Attempt(attempted))
}

proof fn lemma_scene(run: PlanRun, points: usize, filtered: usize, results: Seq<bool>)
    requires
        run.wf(),
        run.phase == PlanPhase::Scene,
        run.n_run < run.cap,
        points > 0,
        filtered > 0,
        results.len() <= 7,
    ensures
        ({
            let (after, steps) = plan_course(run, scene_events(points, filtered, results));
            let n = results.len() as int;
            &&& after.cap == run.cap
            &&& n < 7 ==> after == (PlanRun {
                phase: PlanPhase::Attempt(backend_order()[n]),
                ..run
            })
            &&& n == 7 ==> after == (PlanRun { n_run: (run.n_run + 1) as usize, ..run })
            &&& steps.len() == 3 + n
            &&& steps[0] == quietly(PlanAction::Sample)
            &&& steps[1] == quietly(PlanAction::Filter)
            &&& steps[2] == quietly(PlanAction::Attempt(backend_order()[0]))
            &&& forall|i: int|
                #![trigger results[i]]
                0 <= i < n ==> steps[3 + i] == (PlanStep {
                    write_row: results[i],
                    action: if i < 6 {
                        PlanAction::Attempt(backend_order()[i + 1])
                    } else {
                        PlanAction::NextScene
                    },
                })
        }),
    decreases results.len(),
{
    let events = scene_events(points, filtered, results);
    if results.len() == 0 {
        let a = seq![PlanEvent::Scene(true)];
        let b = a.push(PlanEvent::Points(points));
        let c = b.push(PlanEvent::Filtered(filtered));
        assert(events =~= c);
        assert(c.drop_last() =~= b);
        assert(b.drop_last() =~= a);
        assert(a.drop_last() =~= Seq::<PlanEvent>::empty());
        let first = plan_course(run, Seq::<PlanEvent>::empty());
        assert(first == (run, Seq::<PlanStep>::empty()));
        let second = plan_course(run, a);
        assert(second.0 == (PlanRun { phase: PlanPhase::Points, ..run }));
        let third = plan_course(run, b);
        assert(third.0 == (PlanRun { phase: PlanPhase::Filtered, ..run }));
    } else {
        let fewer = results.drop_last();
        lemma_scene(run, points, filtered, fewer);
        assert(events.drop_last() =~= scene_events(points, filtered, fewer));
        assert(events.last() == PlanEvent::Attempt(results.last()));
        let (before, sofar) = plan_course(run, scene_events(points, filtered, fewer));
        let (after, steps) = plan_course(run, events);
        let n = results.len() as int;
        assert forall|i: int| #![trigger results[i]] 0 <= i < n implies steps[3 + i] == (PlanStep {
            write_row: results[i],
            action: if i < 6 {
                PlanAction::Attempt(backend_order()[i + 1])
            } else {
                PlanAction::NextScene
            },
        }) by {
            if i < n - 1 {
                assert(fewer[i] == results[i]);
                assert(steps[3 + i] == sofar[3 + i]);
            }
        }
    }
}

/// A scene that can be used while the limit is not reached is sampled, filtered and tried with every
/// backend in order; a row is written for each attempt that the planner could make, and the scene
/// counts as run.
pub proof fn used_scene_is_run(run: PlanRun, points: usize, filtered: usize, results: Seq<bool>)
    requires
        run.wf(),
        run.phase == PlanPhase::Scene,
        run.n_run < run.cap,
        points > 0,
        filtered > 0,
        results.len() == 7,
    ensures
        ({
            let (after, steps) = plan_course(run, scene_events(points, filtered, results));
            &&& after == (PlanRun { n_run: (run.n_run + 1) as usize, ..run })
            &&& steps.len() == 10
            &&& steps[0] == quietly(PlanAction::Sample)
            &&& steps[1] == quietly(PlanAction::Filter)
            &&& steps[2] == quietly(PlanAction::Attempt(backend_order()[0]))
            &&& forall|i: int|
                #![trigger results[i]]
                0 <= i < 7 ==> steps[3 + i] == (PlanStep {
                    write_row: results[i],
                    action: if i < 6 {
                        PlanAction::Attempt(backend_order()[i + 1])
                    } else {
                        PlanAction::NextScene
                    },
                })
        }),
{
    lemma_scene(run, points, filtered, results);
}

/// A scene that cannot be sampled, or has no points before or after filtering, is left out: nothing
/// is written for it and it does not count as run. At the limit, the run stops at the next scene
/// that can be sampled.
pub proof fn other_scenes_are_left_out(run: PlanRun, points: usize)
    requires
        run.wf(),
        run.phase == PlanPhase::Scene,
        points > 0,
    ensures
        plan_step(run, PlanEvent::Scene(false)) == (run, quietly(PlanAction::NextScene)),
        run.n_run == run.cap ==> plan_step(run, PlanEvent::Scene(true)).1 == quietly(
            PlanAction::Stop,
        ),
        run.n_run < run.cap ==> ({
            let (after, steps) = plan_course(
                run,
                seq![PlanEvent::Scene(true), PlanEvent::Points(0)],
            );
            after == run && steps.last() == quietly(PlanAction::NextScene)
        }),
        run.n_run < run.cap ==> ({
            let (after, steps) = plan_course(
                run,
                seq![PlanEvent::Scene(true), PlanEvent::Points(points), PlanEvent::Filtered(0)],
            );
            after == run && steps.last() == quietly(PlanAction::NextScene)
        }),
{
    let a = seq![PlanEvent::Scene(true)];
    let empty = seq![PlanEvent::Scene(true), PlanEvent::Points(0)];
    let full = seq![PlanEvent::Scene(true), PlanEvent::Points(points)];
    let thin = seq![PlanEvent::Scene(true), PlanEvent::Points(points), PlanEvent::Filtered(0)];
    assert(empty.drop_last() =~= a);
    assert(full.drop_last() =~= a);
    assert(thin.drop_last() =~= full);
    assert(a.drop_last() =~= Seq::<PlanEvent>::empty());
    assert(plan_course(run, Seq::<PlanEvent>::empty()).0 == run);
    if run.n_run < run.cap {
        assert(plan_course(run, a).0 == (PlanRun { phase: PlanPhase::Points, ..run }));
        assert(plan_course(run, full).0 == (PlanRun { phase: PlanPhase::Filtered, ..run }));
        assert(plan_course(run, empty).0 == run);
        assert(plan_course(run, thin).0 == run);
    }
}

/// A scene is extracted exactly if it can be sampled while the limit is not reached, the planner
/// could attempt its problem and it has points: it is solved, sampled and written, and counted. Any
/// other is left out, without being counted.
pub proof fn scene_is_extracted_or_left_out(run: ExtractRun, attempted: bool, points: usize)
    requires
        run.wf(),
        run.phase == ExtractPhase::Scene,
    ensures
        extract_step(run, ExtractEvent::Scene(false)) == (run, ExtractAction::NextScene),
        run.n_extracted == run.cap ==> extract_step(run, ExtractEvent::Scene(true)).1
            == ExtractAction::Stop,
        run.n_extracted < run.cap ==> ({
            let (solving, first) = extract_step(run, ExtractEvent::Scene(true));
            let (sampling, second) = extract_step(solving, ExtractEvent::Solved(attempted));
            let (done, third) = extract_step(sampling, ExtractEvent::Points(points));
            &&& first == ExtractAction::Solve
            &&& attempted ==> second == ExtractAction::Sample
            &&& !attempted ==> second == ExtractAction::NextScene && sampling == run
            &&& attempted && points > 0 ==> third == ExtractAction::Write && done == (ExtractRun {
                n_extracted: (run.n_extracted + 1) as usize,
                ..run
            })
            &&& attempted && points == 0 ==> third == ExtractAction::NextScene && done == run
        }),
{
}

} // verus!

//! Driving a planner over benchmark scenes.

use crate::axis::{times, Axis};
use crate::simd::{lane, lane_center, lemma_lane_center, AxisSimdElement};
use crate::structure::{SimdStructure, Structure};
use crate::text::{decimal, decimal_spec, same_text};
use vstd::prelude::*;
use vstd::string::*;

verus! {

// ---------------------------------------------------------------------------------------------
// Worlds
// ---------------------------------------------------------------------------------------------

/// A world backed by any point-cloud collision structure implementing [`Structure`], so the same
/// planner code can be driven against each of them interchangeably.
#[derive(Clone, Debug)]
pub struct PointCloudWorld<S>(pub S);

/// A SIMD-accelerated point cloud collision checker, akin to [`PointCloudWorld`].
#[derive(Clone, Debug)]
pub struct SimdPointCloudWorld<S>(pub S);

/// The center in lane `l` of a batch of balls.
pub open spec fn ball_center<A, const L: usize>(
    xs: [A; L],
    ys: [A; L],
    zs: [A; L],
    l: int,
) -> [A; 3] {
    [xs@[l], ys@[l], zs@[l]]
}

impl<S> PointCloudWorld<S> {
    /// Determine whether a ball collides with this world.
    pub fn collides_ball<A: Axis>(&self, x: A, y: A, z: A, r: A) -> (c: bool)
        where S: Structure<3, A>
        requires
            self.0.valid(),
        ensures
            c == self.0.answer([x, y, z], r),
    {
        self.0.collides(&[x, y, z], r)
    }

    /// Determine whether any ball of a batch collides with this world, one lane at a time.
    pub fn collides_balls<A: Axis, const L: usize>(
        &self,
        xs: [A; L],
        ys: [A; L],
        zs: [A; L],
        rs: [A; L],
    ) -> (c: bool)
        where S: Structure<3, A>
        requires
            self.0.valid(),
        ensures
            c == exists|l: int|
                0 <= l < L && self.0.answer(#[trigger] ball_center(xs, ys, zs, l), rs@[l]),
    {
        let mut l: usize = 0;
        while l < L
            invariant
                l <= L,
                self.0.valid(),
                forall|i: int|
                    0 <= i < l ==> !self.0.answer(#[trigger] ball_center(xs, ys, zs, i), rs@[i]),
            decreases L - l,
        {
            if self.collides_ball(xs[l], ys[l], zs[l], rs[l]) {
                assert(self.0.answer(ball_center(xs, ys, zs, l as int), rs@[l as int]));
                return true;
            }
            l += 1;
        }
        false
    }
}

impl<S> SimdPointCloudWorld<S> {
    /// Determine whether a ball collides with this world.
    pub fn collides_ball<A: AxisSimdElement>(&self, x: A, y: A, z: A, r: A) -> (c: bool)
        where S: SimdStructure<3, A>
        requires
            self.0.valid(),
        ensures
            c == self.0.answer([x, y, z], r),
    {
        self.0.collides(&[x, y, z], r)
    }

    /// Determine whether any ball of a batch collides with this world, in one batched query.
    pub fn collides_balls<A: AxisSimdElement, const L: usize>(
        &self,
        xs: [A; L],
        ys: [A; L],
        zs: [A; L],
        rs: [A; L],
    ) -> (c: bool)
        where S: SimdStructure<3, A>
        requires
            self.0.valid(),
            L > 0,
        ensures
            c == exists|l: int|
                0 <= l < L && self.0.lane_answer(#[trigger] ball_center(xs, ys, zs, l), rs@[l]),
    {
        let centers: [[A; L]; 3] = [xs, ys, zs];
        let c: bool = self.0.collides_simd(&centers, rs);
        proof {
            assert forall|l: int| 0 <= l < L implies #[trigger] ball_center(xs, ys, zs, l)
                == lane_center(centers, l) by {
                lemma_lane_center(centers, l);
                assert(ball_center(xs, ys, zs, l)@ =~= lane(centers, l));
                assert(ball_center(xs, ys, zs, l) =~= lane_center(centers, l));
            }
            if c {
                let l = choose|l: int|
                    0 <= l < L && self.0.lane_answer(#[trigger] lane_center(centers, l), rs@[l]);
                assert(self.0.lane_answer(ball_center(xs, ys, zs, l), rs@[l]));
            }
        }
        c
    }
}

// ---------------------------------------------------------------------------------------------
// Attempting a problem
// ---------------------------------------------------------------------------------------------

/// Why a planning problem cannot be attempted.
#[derive(Clone, Copy, Debug, PartialEq, Eq, Structural)]
pub enum SolveError {
    /// The start configuration is outside of the robot's joint limits.
    StartOutOfBounds,
    /// The goal configuration is outside of the robot's joint limits.
    GoalOutOfBounds,
    /// The start configuration is in collision.
    InvalidStart,
    /// The goal configuration is in collision.
    InvalidGoal,
}

impl SolveError {
    /// Describe this error.
    pub fn to_string(&self) -> (s: String)
        ensures
            s@ == match self {
                SolveError::StartOutOfBounds => "start out of bounds"@,
                SolveError::GoalOutOfBounds => "goal out of bounds"@,
                SolveError::InvalidStart => "invalid start"@,
                SolveError::InvalidGoal => "invalid goal"@,
            },
    {
        match self {
            SolveError::StartOutOfBounds => "start out of bounds".to_owned(),
            SolveError::GoalOutOfBounds => "goal out of bounds".to_owned(),
            SolveError::InvalidStart => "invalid start".to_owned(),
            SolveError::InvalidGoal => "invalid goal".to_owned(),
        }
    }
}

/// A check that a problem has to pass before it is attempted.
#[derive(Clone, Copy, Debug, PartialEq, Eq, Structural)]
pub enum Check {
    /// The start configuration is within the robot's joint limits.
    StartInBounds,
    /// The goal configuration is within the robot's joint limits.
    GoalInBounds,
    /// The start configuration is not in collision.
    StartValid,
    /// The goal configuration is not in collision.
    GoalValid,
}

impl Check {
    /// The check after this one, if any.
    pub open spec fn next_spec(self) -> Option<Check> {
        match self {
            Check::StartInBounds => Some(Check::GoalInBounds),
            Check::GoalInBounds => Some(Check::StartValid),
            Check::StartValid => Some(Check::GoalValid),
            Check::GoalValid => None,
        }
    }

    /// What it means to fail this check.
    pub open spec fn error_spec(self) -> SolveError {
        match self {
            Check::StartInBounds => SolveError::StartOutOfBounds,
            Check::GoalInBounds => SolveError::GoalOutOfBounds,
            Check::StartValid => SolveError::InvalidStart,
            Check::GoalValid => SolveError::InvalidGoal,
        }
    }

    /// The number of checks left, with this one.
    pub open spec fn left(self) -> nat {
        match self {
            Check::StartInBounds => 4,
            Check::GoalInBounds => 3,
            Check::StartValid => 2,
            Check::GoalValid => 1,
        }
    }

    /// Decide how to go on after this check: with another check, with the search (`Ok(None)`), or
    /// not at all.
    pub fn after(self, passed: bool) -> (r: Result<Option<Check>, SolveError>)
        ensures
            r == if passed {
                Ok::<Option<Check>, SolveError>(self.next_spec())
            } else {
                Err(self.error_spec())
            },
    {
        match (self, passed) {
            (Check::StartInBounds, true) => Ok(Some(Check::GoalInBounds)),
            (Check::StartInBounds, false) => Err(SolveError::StartOutOfBounds),
            (Check::GoalInBounds, true) => Ok(Some(Check::StartValid)),
            (Check::GoalInBounds, false) => Err(SolveError::GoalOutOfBounds),
            (Check::StartValid, true) => Ok(Some(Check::GoalValid)),
            (Check::StartValid, false) => Err(SolveError::InvalidStart),
            (Check::GoalValid, true) => Ok(None),
            (Check::GoalValid, false) => Err(SolveError::InvalidGoal),
        }
    }
}

/// How the checks of a problem end, from `first` on, where `passes` says which of them pass: with
/// the error of the first that fails, or with a problem that can be attempted.
pub open spec fn checked(first: Check, passes: spec_fn(Check) -> bool) -> Result<(), SolveError>
    decreases first.left(),
{
    if !passes(first) {
        Err(first.error_spec())
    } else {
        match first.next_spec() {
            None => Ok(()),
            Some(next) => checked(next, passes),
        }
    }
}

/// A problem is attempted exactly if it passes every check from the first one on.
pub proof fn attempted_iff_all_pass(first: Check, passes: spec_fn(Check) -> bool)
    ensures
        checked(first, passes) is Ok <==> (forall|c: Check|
            #![trigger passes(c)]
            c.left() <= first.left() ==> passes(c)),
    decreases first.left(),
{
    match first.next_spec() {
        None => {
            assert(forall|c: Check| #![trigger passes(c)] c.left() <= 1 ==> c == first);
            assert(passes(first) || !passes(first));
        },
        Some(next) => {
            attempted_iff_all_pass(next, passes);
            assert(forall|c: Check|
                #![trigger passes(c)]
                c.left() <= first.left() ==> c == first || c.left() <= next.left());
            assert(passes(first) || !passes(first));
        },
    }
}

// ---------------------------------------------------------------------------------------------
// Choosing scenes
// ---------------------------------------------------------------------------------------------

/// Whether every primitive of a world can be converted into a point cloud, given how many boxes,
/// balls and point clouds it has: it must have none of these.
#[must_use]
pub fn is_sampleable(n_aabbs: usize, n_balls: usize, n_point_clouds: usize) -> (r: bool)
    ensures
        r == (n_aabbs == 0 && n_balls == 0 && n_point_clouds == 0),
{
    n_aabbs == 0 && n_balls == 0 && n_point_clouds == 0
}

/// The maximum number of scenes to extract per dataset. Each dataset holds on the order of 100
/// scenes (600 for Baxter), and that is a little too much.
pub const MAX_EXTRACTED_PER_DATASET: usize = 20;

/// The maximum number of scenes to solve (per backend) per dataset, unless overridden.
pub const MAX_SOLVED_PER_DATASET: usize = 50;

/// The canonical benchmark environments, used by every robot except Baxter, which ships a
/// different problem set.
#[must_use]
pub fn datasets_of(robot: &str) -> (r: Vec<&'static str>)
    ensures
        robot@ == "baxter"@ ==> r@ == seq![
            "bookshelf_tall_both_arms_easy",
            "bookshelf_tall_both_arms_hard",
            "bookshelf_tall_both_arms_medium",
        ],
        robot@ != "baxter"@ ==> r@ == seq![
            "bookshelf_small",
            "bookshelf_tall",
            "bookshelf_thin",
            "box",
            "cage",
            "table_pick",
            "table_under_pick",
        ],
{
    let mut r: Vec<&'static str> = Vec::new();
    if same_text(robot, "baxter") {
        r.push("bookshelf_tall_both_arms_easy");
        r.push("bookshelf_tall_both_arms_hard");
        r.push("bookshelf_tall_both_arms_medium");
        assert(r@ =~= seq![
            "bookshelf_tall_both_arms_easy",
            "bookshelf_tall_both_arms_hard",
            "bookshelf_tall_both_arms_medium",
        ]);
    } else {
        r.push("bookshelf_small");
        r.push("bookshelf_tall");
        r.push("bookshelf_thin");
        r.push("box");
        r.push("cage");
        r.push("table_pick");
        r.push("table_under_pick");
        assert(r@ =~= seq![
            "bookshelf_small",
            "bookshelf_tall",
            "bookshelf_thin",
            "box",
            "cage",
            "table_pick",
            "table_under_pick",
        ]);
    }
    r
}

/// Compute the point-cloud filter resolution for a robot: four times the radius of its smallest
/// collision sphere.
#[must_use]
pub fn filter_resolution<A: Axis>(min_radius: A) -> (r: A)
    ensures
        r == times(A::from_usize_spec(4), min_radius),
{
    proof {
        A::total_operators();
    }
    A::from_usize(4) * min_radius
}

// ---------------------------------------------------------------------------------------------
// Backends
// ---------------------------------------------------------------------------------------------

/// A collision-checking backend that a planner is run against.
#[derive(Clone, Copy, Debug, PartialEq, Eq, Structural)]
pub enum Backend {
    /// [`Mvt`](crate::Mvt), one query at a time.
    Mvt,
    /// [`MutableMvt`](crate::MutableMvt), one query at a time.
    MutableMvt,
    /// A collision-affording point tree, one query at a time.
    Capt,
    /// A k-d tree, one query at a time.
    Kiddo,
    /// [`Mvt`](crate::Mvt), in batches.
    MvtSimd,
    /// [`MutableMvt`](crate::MutableMvt), in batches.
    MutableMvtSimd,
    /// A collision-affording point tree, in batches.
    CaptSimd,
}

impl Backend {
    /// The name of this backend in the results.
    pub fn name(self) -> (s: &'static str)
        ensures
            s@ == match self {
                Backend::Mvt => "mvtable"@,
                Backend::MutableMvt => "mvtable_mutable"@,
                Backend::Capt => "capt"@,
                Backend::Kiddo => "kiddo"@,
                Backend::MvtSimd => "mvtable_simd"@,
                Backend::MutableMvtSimd => "mvtable_mutable_simd"@,
                Backend::CaptSimd => "capt_simd"@,
            },
    {
        match self {
            Backend::Mvt => "mvtable",
            Backend::MutableMvt => "mvtable_mutable",
            Backend::Capt => "capt",
            Backend::Kiddo => "kiddo",
            Backend::MvtSimd => "mvtable_simd",
            Backend::MutableMvtSimd => "mvtable_mutable_simd",
            Backend::CaptSimd => "capt_simd",
        }
    }

    /// The backend after this one, if any.
    pub open spec fn next_spec(self) -> Option<Backend> {
        match self {
            Backend::Mvt => Some(Backend::MutableMvt),
            Backend::MutableMvt => Some(Backend::Capt),
            Backend::Capt => Some(Backend::Kiddo),
            Backend::Kiddo => Some(Backend::MvtSimd),
            Backend::MvtSimd => Some(Backend::MutableMvtSimd),
            Backend::MutableMvtSimd => Some(Backend::CaptSimd),
            Backend::CaptSimd => None,
        }
    }

    /// The backend that a scene is solved with after this one, if any.
    pub fn next(self) -> (r: Option<Backend>)
        ensures
            r == self.next_spec(),
    {
        match self {
            Backend::Mvt => Some(Backend::MutableMvt),
            Backend::MutableMvt => Some(Backend::Capt),
            Backend::Capt => Some(Backend::Kiddo),
            Backend::Kiddo => Some(Backend::MvtSimd),
            Backend::MvtSimd => Some(Backend::MutableMvtSimd),
            Backend::MutableMvtSimd => Some(Backend::CaptSimd),
            Backend::CaptSimd => None,
        }
    }

    /// The lane count of the queries that this backend is asked.
    pub fn lanes(self) -> (n: usize)
        ensures
            n == match self {
                Backend::MvtSimd | Backend::MutableMvtSimd | Backend::CaptSimd => 8int,
                _ => 1,
            },
    {
        match self {
            Backend::MvtSimd | Backend::MutableMvtSimd | Backend::CaptSimd => 8,
            _ => 1,
        }
    }
}

/// The header of the planning results.
pub const PLAN_HEADER: &'static str =
    "structure,robot,dataset,scene_id,r_filter,n_points,solved,time_secs,construction_secs,n_samples,n_nodes";

/// What came of solving a scene with a backend. Durations and lengths are given as they are to be
/// written.
pub struct PlanRow<'a> {
    pub structure: &'a str,
    pub robot: &'a str,
    pub dataset: &'a str,
    pub scene_id: usize,
    pub r_filter: &'a str,
    pub n_points: usize,
    pub solved: bool,
    pub time_secs: &'a str,
    pub construction_secs: &'a str,
    pub n_samples: usize,
    pub n_nodes: usize,
}

/// The text of a row of the planning results.
pub open spec fn plan_row_spec(row: PlanRow) -> Seq<char> {
    row.structure@ + ","@ + row.robot@ + ","@ + row.dataset@ + ","@ + decimal_spec(
        row.scene_id as nat,
    ) + ","@ + row.r_filter@ + ","@ + decimal_spec(row.n_points as nat) + ","@ + (if row.solved {
        "true"@
    } else {
        "false"@
    }) + ","@ + row.time_secs@ + ","@ + row.construction_secs@ + ","@ + decimal_spec(
        row.n_samples as nat,
    ) + ","@ + decimal_spec(row.n_nodes as nat)
}

/// Write a row of the planning results.
pub fn plan_row(row: PlanRow) -> (s: String)
    ensures
        s@ == plan_row_spec(row),
{
    let mut s: String = row.structure.to_owned();
    s.append(",");
    s.append(row.robot);
    s.append(",");
    s.append(row.dataset);
    s.append(",");
    s.append(decimal(row.scene_id).as_str());
    s.append(",");
    s.append(row.r_filter);
    s.append(",");
    s.append(decimal(row.n_points).as_str());
    s.append(",");
    s.append(
        if row.solved {
            "true"
        } else {
            "false"
        },
    );
    s.append(",");
    s.append(row.time_secs);
    s.append(",");
    s.append(row.construction_secs);
    s.append(",");
    s.append(decimal(row.n_samples).as_str());
    s.append(",");
    s.append(decimal(row.n_nodes).as_str());
    s
}

} // verus!

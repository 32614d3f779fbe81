//! Sphere radii of the robots in the planning benchmarks.

use crate::text::same_text;
use vstd::prelude::*;

verus! {

/// Whether the radii of the robot called `name` are known.
pub open spec fn is_known_robot(name: Seq<char>) -> bool {
    name == "panda"@ || name == "ur5"@ || name == "fetch"@ || name == "baxter"@
}

proof fn lemma_names_differ()
    ensures
        "panda"@ != "ur5"@,
        "panda"@ != "fetch"@,
        "panda"@ != "baxter"@,
        "ur5"@ != "fetch"@,
        "ur5"@ != "baxter"@,
        "fetch"@ != "baxter"@,
{
    reveal_strlit("panda");
    reveal_strlit("ur5");
    reveal_strlit("fetch");
    reveal_strlit("baxter");
    assert("panda"@.len() == 5 && "ur5"@.len() == 3);
    assert("fetch"@.len() == 5 && "baxter"@.len() == 6);
    assert("panda"@[0] != "fetch"@[0]);
}

/// Determine whether the radii of `robot` are known.
pub fn is_known(robot: &str) -> (r: bool)
    ensures
        r == is_known_robot(robot@),
{
    same_text(robot, "panda") || same_text(robot, "ur5") || same_text(robot, "fetch")
        || same_text(robot, "baxter")
}

/// Radius of a robot's largest sphere that actually moves during planning, traced by hand from
/// each robot's spherized URDF.
///
/// In hundredths of a meter. The robot must be one of the known ones.
pub fn mobile_max_radius(robot: &str) -> (r: u32)
    requires
        is_known_robot(robot@),
    ensures
        robot@ == "panda"@ ==> r == 6,
        robot@ == "ur5"@ ==> r == 8,
        robot@ == "fetch"@ ==> r == 15,
        robot@ == "baxter"@ ==> r == 10,
{
    proof {
        lemma_names_differ();
    }
    if same_text(robot, "panda") {
        6
    } else if same_text(robot, "ur5") {
        8
    } else if same_text(robot, "fetch") {
        15
    } else {
        10
    }
}

/// Radius of each robot's largest sphere on any link.
///
/// In hundredths of a meter. The robot must be one of the known ones.
pub fn robot_max_radius(robot: &str) -> (r: u32)
    requires
        is_known_robot(robot@),
    ensures
        robot@ == "panda"@ ==> r == 8,
        robot@ == "ur5"@ ==> r == 8,
        robot@ == "fetch"@ ==> r == 24,
        robot@ == "baxter"@ ==> r == 50,
{
    proof {
        lemma_names_differ();
    }
    if same_text(robot, "panda") {
        8
    } else if same_text(robot, "ur5") {
        8
    } else if same_text(robot, "fetch") {
        24
    } else {
        50
    }
}

/// The true maximum collision-query radius that a planner's collision checker ever issues for this
/// robot.
///
/// In hundredths of a meter. The robot must be one of the known ones.
pub fn true_max_query_radius(robot: &str) -> (r: u32)
    requires
        is_known_robot(robot@),
    ensures
        robot@ == "panda"@ ==> r == 22,
        robot@ == "ur5"@ ==> r == 35,
        robot@ == "fetch"@ ==> r == 42,
        robot@ == "baxter"@ ==> r == 60,
{
    proof {
        lemma_names_differ();
    }
    if same_text(robot, "panda") {
        22
    } else if same_text(robot, "ur5") {
        35
    } else if same_text(robot, "fetch") {
        42
    } else {
        60
    }
}

/// Voxel width for each robot, tuned by a sweep over batched queries.
///
/// In hundred-thousandths of a meter. The robot must be one of the known ones.
pub fn voxel_width(robot: &str) -> (r: u32)
    requires
        is_known_robot(robot@),
    ensures
        robot@ == "panda"@ ==> r == 17324,
        robot@ == "ur5"@ ==> r == 22427,
        robot@ == "fetch"@ ==> r == 13799,
        robot@ == "baxter"@ ==> r == 17075,
{
    proof {
        lemma_names_differ();
    }
    if same_text(robot, "panda") {
        17_324
    } else if same_text(robot, "ur5") {
        22_427
    } else if same_text(robot, "fetch") {
        13_799
    } else {
        17_075
    }
}

} // verus!

//! Surface-sampling of scene geometry into point clouds.
//!
//! The points themselves come from random draws and rigid transforms, which the application makes.
//! How many are drawn on which surfaces is decided here.

use crate::axis::{times, Axis};
use vstd::prelude::*;

verus! {

/// A quarter turn that takes the cuboid's z axis to the normal of a pair of faces.
#[derive(Clone, Copy, Debug, PartialEq, Eq, Structural)]
pub enum Turn {
    /// No turn.
    Unturned,
    /// A quarter turn about the y axis.
    AboutY,
    /// A quarter turn about the x axis.
    AboutX,
}

/// A pair of opposite faces of a cuboid.
#[derive(Clone, Copy, Debug)]
pub struct FacePair<A> {
    /// How the cuboid's frame is turned for these faces.
    pub turn: Turn,
    /// Half of the extent of the faces along their two axes.
    pub half_widths: [A; 2],
    /// The distance of each face from the cuboid's center.
    pub offset: A,
    /// The number of points to draw on each of the two faces.
    pub samples: usize,
}

/// The number of points to draw on a face: its area times the density, rounded down.
pub open spec fn rect_samples_spec<A: Axis>(half_widths: [A; 2], density: A) -> usize {
    times(
        times(times(half_widths[0], half_widths[1]), A::from_usize_spec(4)),
        density,
    ).to_index_spec()
}

/// Compute the number of points to draw on a face.
pub fn rect_samples<A: Axis>(half_widths: [A; 2], density: A) -> (n: usize)
    ensures
        n == rect_samples_spec(half_widths, density),
{
    proof {
        A::total_operators();
    }
    (half_widths[0] * half_widths[1] * A::from_usize(4) * density).to_index()
}

/// Compute the number of points to draw on the tube of a capsule, given the full turn `tau`: its
/// area times the density, rounded down.
pub fn tube_samples<A: Axis>(radius: A, tau: A, length: A, density: A) -> (n: usize)
    ensures
        n == times(times(times(radius, tau), length), density).to_index_spec(),
{
    proof {
        A::total_operators();
    }
    (radius * tau * length * density).to_index()
}

/// Plan the sampling of a cuboid with half extents `half_widths`: the faces across z, across x and
/// across y.
pub fn cuboid_faces<A: Axis>(half_widths: [A; 3], density: A) -> (r: [FacePair<A>; 3])
    ensures
        ({
            let w = half_widths;
            &&& r[0].turn == Turn::Unturned && r[0].half_widths@ == seq![w[0], w[1]] && r[0].offset
                == w[2]
            &&& r[1].turn == Turn::AboutY && r[1].half_widths@ == seq![w[2], w[1]] && r[1].offset
                == w[0]
            &&& r[2].turn == Turn::AboutX && r[2].half_widths@ == seq![w[0], w[2]] && r[2].offset
                == w[1]
            &&& forall|i: int|
                0 <= i < 3 ==> (#[trigger] r@[i]).samples == rect_samples_spec(
                    r@[i].half_widths,
                    density,
                )
        }),
{
    let w = half_widths;
    let z: [A; 2] = [w[0], w[1]];
    let x: [A; 2] = [w[2], w[1]];
    let y: [A; 2] = [w[0], w[2]];
    assert(z@ =~= seq![w[0], w[1]]);
    assert(x@ =~= seq![w[2], w[1]]);
    assert(y@ =~= seq![w[0], w[2]]);
    [
        FacePair { turn: Turn::Unturned, half_widths: z, offset: w[2], samples: rect_samples(z, density) },
        FacePair { turn: Turn::AboutY, half_widths: x, offset: w[0], samples: rect_samples(x, density) },
        FacePair { turn: Turn::AboutX, half_widths: y, offset: w[1], samples: rect_samples(y, density) },
    ]
}

} // verus!

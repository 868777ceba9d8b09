//! The point-mass data model.

use vstd::prelude::*;
use crate::math::{MASS_BOUND, POS_BOUND, VEL_BOUND};

verus! {

/// A point-mass: position and velocity in scaled simulation-space
/// coordinates, a mass that enters the force law, and a display radius
/// that the physics never reads.
#[derive(Clone, Copy, PartialEq, Eq, Structural)]
pub struct Planet {
    pub x_pos: i64,
    pub y_pos: i64,
    pub x_vel: i64,
    pub y_vel: i64,
    pub mass: i64,
    pub radius: i64,
}

impl Planet {
    /// The data-model invariant: mass and radius are strictly positive,
    /// and the mass stays within the range the force arithmetic admits.
    pub open spec fn wf(self) -> bool {
        0 < self.mass <= MASS_BOUND && 0 < self.radius
    }

    /// The machine-limit range within which one integration step is
    /// known to stay free of overflow.
    pub open spec fn in_range(self) -> bool {
        &&& -POS_BOUND <= self.x_pos <= POS_BOUND
        &&& -POS_BOUND <= self.y_pos <= POS_BOUND
        &&& -VEL_BOUND <= self.x_vel <= VEL_BOUND
        &&& -VEL_BOUND <= self.y_vel <= VEL_BOUND
    }

    /// Decides whether this body is well formed and within the range
    /// that one integration step accepts.
    pub fn check(&self) -> (r: bool)
        ensures
            r == (self.wf() && self.in_range()),
    {
        0 < self.mass && self.mass <= MASS_BOUND && 0 < self.radius && -POS_BOUND <= self.x_pos
            && self.x_pos <= POS_BOUND && -POS_BOUND <= self.y_pos && self.y_pos <= POS_BOUND
            && -VEL_BOUND <= self.x_vel && self.x_vel <= VEL_BOUND && -VEL_BOUND <= self.y_vel
            && self.y_vel <= VEL_BOUND
    }

    pub fn new(x_pos: i64, y_pos: i64, x_vel: i64, y_vel: i64, mass: i64, radius: i64) -> (p:
        Planet)
        requires
            0 < mass <= MASS_BOUND,
            0 < radius,
        ensures
            p == (Planet { x_pos, y_pos, x_vel, y_vel, mass, radius }),
            p.wf(),
    {
        Planet { x_pos, y_pos, x_vel, y_vel, mass, radius }
    }
}

} // verus!

//! A small n-body gravity engine in fixed-point arithmetic.
//!
//! Scalars (positions, velocities, masses, timesteps) are integers that
//! carry `SCALE` sub-units per simulation unit.  The engine advances a
//! registry of point-masses by semi-implicit Euler steps under a softened
//! inverse-square force law, and can forecast future paths on a copy of
//! the registry without touching the live state.

pub mod math;
pub mod planet;
pub mod physics;
pub mod system;

pub use planet::Planet;
pub use system::System;

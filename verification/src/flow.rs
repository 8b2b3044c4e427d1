//! Periodic 2D incompressible flow: grids, spectral-scheme switch, the random
//! initial-field generator and command-line helpers. The floating-point
//! operators live in the application.

pub mod advdiff;
pub mod field;
pub mod fluid;
pub mod grid;
pub mod grid2d;

use vstd::prelude::*;

verus! {

/// Forward Euler time stepper marker.
pub struct Euler;

/// Explicit midpoint (RK2) time stepper marker.
pub struct Midpoint;

/// Classical fourth-order Runge-Kutta time stepper marker.
pub struct RK4;

} // verus!

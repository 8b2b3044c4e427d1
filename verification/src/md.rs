//! Lennard-Jones fluid program: greeting, integrator markers, the force-method
//! switch, the command line, the start-lattice size check, the verdict words
//! of `md check`, and the pictures and size rule of `md video`.

pub mod cell_list;
pub mod check;
pub mod cli;
pub mod simulation;
pub mod video;

use vstd::prelude::*;

verus! {

/// The fixed greeting of the first exercise.
pub fn greeting() -> (r: &'static str)
    ensures
        r@ == "Hello, world!"@,
{
    "Hello, world!"
}

/// Particle system advanced by an integrator (its state lives with the
/// floating-point integrators of the application).
pub struct System;

/// Explicit forward-Euler integrator marker.
pub struct ForwardEuler;

/// Velocity-Verlet integrator marker.
pub struct VelocityVerlet;

} // verus!

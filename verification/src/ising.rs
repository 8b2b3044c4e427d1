//! Two-dimensional Ising model sampler.
//!
//! Spins are +1/-1 on an L x L periodic square lattice, J = 1, no external
//! field. The integer parts of the sampler live here: the lattice and its
//! energy bookkeeping, the Metropolis sweep, the Wolff cluster flip, the
//! temperature ramp and the command line.

pub mod cli;
pub mod lattice;
pub mod metropolis;
pub mod simulation;
pub mod wolff;

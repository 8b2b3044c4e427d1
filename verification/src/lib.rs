//! Verified core of three small physics-simulation programs: a Lennard-Jones
//! molecular-dynamics driver, a 2D Ising Monte Carlo sampler and a periodic 2D
//! flow solver. Floating-point work lives in the accompanying application.

pub mod flow;
pub mod ising;
pub mod md;
pub mod rng;
pub mod text;

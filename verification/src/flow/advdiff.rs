//! The one-dimensional periodic linear advection-diffusion operator
//! `u_t + c u_x = nu u_xx` selects one of two spatial discretisations.

use vstd::prelude::*;

verus! {

/// Which spatial discretisation the advection-diffusion right-hand side uses.
#[derive(Clone, Copy, Debug, PartialEq, Eq, Structural)]
pub enum SpatialScheme {
    /// Spectral (Fourier) derivatives.
    Fourier,
    /// Second-order centred differences.
    FiniteDifference,
}

} // verus!

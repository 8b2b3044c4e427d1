//! The integer decisions of an `md run`: the particle count of the
//! triangular start lattice and the step schedule of the thermostat and of
//! the saved frames.
//!
//! The lattice is `m x m` sites with an even row count `m`, so only counts
//! `n = m^2` with even `m >= 2` are accepted; the floating-point positions are
//! laid out by the application once the side is known.

use vstd::prelude::*;
use vstd::string::*;
use crate::text::{decimal, push_decimal};

verus! {

/// `m` is the side of a supported lattice of `n` sites.
pub open spec fn is_lattice_side(n: int, m: int) -> bool {
    &&& m >= 2
    &&& m * m == n
    &&& m % 2 == 0
}

/// The message for a particle count with no supported lattice.
pub open spec fn unsupported_count_error(n: nat) -> Seq<char> {
    "n = "@ + decimal(n) + " is not supported: need n = m^2 with even m (default 100 = 10x10)"@
}

proof fn lemma_square_strictly_monotone(a: int, b: int)
    requires
        0 <= a < b,
    ensures
        a * a < b * b,
{
    assert(a * a < b * b) by (nonlinear_arith)
        requires
            0 <= a < b,
    ;
}

/// The integer square root: `r * r <= n < (r + 1) * (r + 1)`.
fn floor_sqrt(n: usize) -> (r: u128)
    ensures
        r * r <= n,
        n < (r + 1) * (r + 1),
{
    let mut lo: u128 = 0;
    let mut hi: u128 = n as u128 + 1;
    proof {
        assert(hi * hi >= hi) by (nonlinear_arith)
            requires
                hi >= 1,
        ;
    }
    while hi - lo > 1
        invariant
            lo < hi <= n as u128 + 1,
            lo * lo <= n,
            n < hi * hi,
        decreases hi - lo,
    {
        let mid: u128 = lo + (hi - lo) / 2;
        assert(mid * mid < 0x1_0000_0000_0000_0000_0000_0000_0000_0000) by (nonlinear_arith)
            requires
                mid < hi,
                hi <= 0x1_0000_0000_0000_0000,
        ;
        if mid * mid <= n as u128 {
            lo = mid;
        } else {
            hi = mid;
        }
    }
    proof {
        assert(hi == lo + 1);
    }
    lo
}

/// The side `m` of the start lattice of `n` particles, or the message that
/// `n` is not `m^2` for an even `m >= 2`.
pub fn lattice_side(n: usize) -> (r: Result<usize, String>)
    ensures
        match r {
            Ok(m) => is_lattice_side(n as int, m as int),
            Err(e) => (forall|m: int| !is_lattice_side(n as int, m))
                && e@ == unsupported_count_error(n as nat),
        },
{
    let root = floor_sqrt(n);
    proof {
        assert forall|m: int| m >= 0 && #[trigger] (m * m) == n implies m == root by {
            if m < root {
                lemma_square_strictly_monotone(m, root as int);
            } else if m > root {
                lemma_square_strictly_monotone(root as int, m);
                lemma_square_strictly_monotone(root as int, root as int + 1);
                if m > root + 1 {
                    lemma_square_strictly_monotone(root as int + 1, m);
                }
            }
        }
    }
    if root >= 2 && root * root == n as u128 && root % 2 == 0 {
        assert(root <= n) by (nonlinear_arith)
            requires
                root >= 2,
                root * root == n,
        ;
        Ok(root as usize)
    } else {
        let mut e = String::from_str("n = ");
        push_decimal(&mut e, n as u64);
        e.append(" is not supported: need n = m^2 with even m (default 100 = 10x10)");
        Err(e)
    }
}

/// Steps between two velocity rescalings of the thermostat.
pub const RESCALE_EVERY: usize = 50;

/// Equilibration step `s` (from 0) rescales the velocities to the target
/// temperature after advancing: steps 0, 50, 100, ...
pub fn rescales_during_equilibration(s: usize) -> (r: bool)
    ensures
        r == (s % RESCALE_EVERY == 0),
{
    s % RESCALE_EVERY == 0
}

/// What a production step does after advancing.
#[derive(Clone, Copy, Debug, PartialEq, Eq, Structural)]
pub struct StepPlan {
    /// Rescale the velocities to the ramp target.
    pub rescale: bool,
    /// Save a frame.
    pub save: bool,
}

/// The plan of production step `step` (from 1): a heating run rescales to
/// its ramp target every 50 steps (an unheated run never rescales), and a
/// frame is saved every `sample_every` steps.
pub fn production_plan(step: usize, sample_every: usize, heating: bool) -> (r: StepPlan)
    requires
        sample_every > 0,
    ensures
        r.rescale == (heating && step % RESCALE_EVERY == 0),
        r.save == (step % sample_every == 0),
{
    StepPlan { rescale: heating && step % RESCALE_EVERY == 0, save: step % sample_every == 0 }
}

} // verus!

//! The integer rules of `md check`: the averaging window of the energy drift
//! and the verdict words.

use vstd::prelude::*;

verus! {

/// The word printed after a gate of `md check`.
pub fn pass(ok: bool) -> (r: &'static str)
    ensures
        r@ == (if ok {
            "PASS"@
        } else {
            "FAIL"@
        }),
{
    if ok {
        "PASS"
    } else {
        "FAIL"
    }
}

/// Frames averaged at each end of the run for the secular energy drift: a
/// tenth of the frames, at least one.
pub fn drift_window(frames: usize) -> (r: usize)
    ensures
        r == (if frames / 10 >= 1 {
            frames / 10
        } else {
            1
        }),
{
    let k = frames / 10;
    if k >= 1 {
        k
    } else {
        1
    }
}

} // verus!

//! Deterministic pieces of the `field` program: the SplitMix64 stream, the
//! enumeration of the random field's Fourier modes, FFT index mapping and the
//! command-line flags.

use vstd::prelude::*;
use vstd::string::*;
use crate::text::{is_text, usize_from_text, i64_from_text, usize_value, i64_value, debug_quoted, debug_text, push_signed_decimal, signed_decimal};

verus! {

/// SplitMix64 increment.
pub const GOLDEN_GAMMA: u64 = 0x9E37_79B9_7F4A_7C15;

/// SplitMix64 output mixing of a state.
pub open spec fn mix64(z: u64) -> u64 {
    let a = (z ^ (z >> 30u64)).wrapping_mul(0xBF58_476D_1CE4_E5B9u64);
    let b = (a ^ (a >> 27u64)).wrapping_mul(0x94D0_49BB_1331_11EBu64);
    b ^ (b >> 31u64)
}

/// SplitMix64 step: a small deterministic generator so the phases depend only
/// on the seed.
pub fn splitmix64(state: &mut u64) -> (r: u64)
    ensures
        *final(state) == old(state).wrapping_add(GOLDEN_GAMMA),
        r == mix64(*final(state)),
{
    *state = state.wrapping_add(0x9E37_79B9_7F4A_7C15);
    let mut z = *state;
    z = (z ^ (z >> 30)).wrapping_mul(0xBF58_476D_1CE4_E5B9);
    z = (z ^ (z >> 27)).wrapping_mul(0x94D0_49BB_1331_11EB);
    z ^ (z >> 31)
}

/// The generator state after `k` steps from `seed`.
pub open spec fn stream_state(seed: u64, k: nat) -> u64
    decreases k,
{
    if k == 0 {
        seed
    } else {
        stream_state(seed, (k - 1) as nat).wrapping_add(GOLDEN_GAMMA)
    }
}

/// The `k`-th 53-bit draw from `seed`; the uniform number in `[0, 1)` is the
/// draw divided by `2^53`.
pub open spec fn draw(seed: u64, k: nat) -> u64 {
    mix64(stream_state(seed, k + 1)) >> 11u64
}

/// Signed integer wavenumber `k` as an index in `0..n` (FFT order).
pub fn mode_index(k: i64, n: usize) -> (r: usize)
    requires
        n <= i64::MAX,
    ensures
        r == (if k >= 0 {
            k as usize
        } else {
            (k + (n as i64)) as usize
        }),
{
    if k >= 0 {
        #[verifier::truncate]
        (k as usize)
    } else {
        #[verifier::truncate]
        ((k + n as i64) as usize)
    }
}

/// `mode_index` undoes the FFT wavenumber ordering.
pub proof fn lemma_mode_index_inverts_wavenumber(i: int, n: int)
    requires
        0 <= i < n <= i64::MAX,
    ensures
        ({
            let k = crate::flow::grid::fft_wavenumber(i, n);
            (if k >= 0 {
                k
            } else {
                k + n
            }) == i
        }),
{
}

/// The mode `(kx, ky)` is kept: its length lies in `[k_min, k_max]`, it is not
/// the mean mode, and it lies in the independent half plane (upper half plane
/// plus the positive x axis).
pub open spec fn kept_mode(kx: int, ky: int, k_min: int, k_max: int) -> bool {
    let m = kx * kx + ky * ky;
    &&& !((k_min > 0 && m < k_min * k_min) || m > k_max * k_max)
    &&& !(kx == 0 && ky == 0)
    &&& (ky > 0 || (ky == 0 && kx > 0))
}

/// Kept modes of row `ky` with `kx` in `[-k_max, kx_end)`, in increasing `kx`.
pub open spec fn row_modes(ky: int, kx_end: int, k_min: int, k_max: int) -> Seq<(i64, i64)>
    decreases kx_end + k_max,
{
    if kx_end <= -k_max {
        seq![]
    } else {
        let kx = kx_end - 1;
        row_modes(ky, kx, k_min, k_max) + if kept_mode(kx, ky, k_min, k_max) {
            seq![(kx as i64, ky as i64)]
        } else {
            seq![]
        }
    }
}

/// Kept modes of rows `0..ky_end`, row by row.
pub open spec fn band_modes(ky_end: int, k_min: int, k_max: int) -> Seq<(i64, i64)>
    decreases ky_end,
{
    if ky_end <= 0 {
        seq![]
    } else {
        band_modes(ky_end - 1, k_min, k_max) + row_modes(ky_end - 1, k_max + 1, k_min, k_max)
    }
}

/// The wavenumber `(kx, ky)` lies in the independent half plane (`ky > 0`,
/// or `ky == 0` and `kx > 0`) and its length in `[k_min, k_max]` (no lower
/// bound when `k_min <= 0`), compared on the squares.
pub open spec fn in_band(kx: int, ky: int, k_min: int, k_max: int) -> bool {
    &&& (ky > 0 || (ky == 0 && kx > 0))
    &&& (k_min > 0 ==> k_min * k_min <= kx * kx + ky * ky)
    &&& kx * kx + ky * ky <= k_max * k_max
}

proof fn lemma_in_band_range(kx: int, ky: int, k_min: int, k_max: int)
    requires
        in_band(kx, ky, k_min, k_max),
        0 <= k_max,
    ensures
        -k_max <= kx <= k_max,
        0 <= ky <= k_max,
{
    if kx > k_max {
        assert(kx * kx > k_max * k_max) by (nonlinear_arith)
            requires
                kx > k_max,
                k_max >= 0,
        ;
    }
    if kx < -k_max {
        assert(kx * kx > k_max * k_max) by (nonlinear_arith)
            requires
                kx < -k_max,
                k_max >= 0,
        ;
    }
    if ky > k_max {
        assert(ky * ky > k_max * k_max) by (nonlinear_arith)
            requires
                ky > k_max,
                k_max >= 0,
        ;
    }
    assert(0 <= ky * ky) by (nonlinear_arith);
    assert(0 <= kx * kx) by (nonlinear_arith);
}

proof fn lemma_row_modes_facts(ky: int, end: int, k_min: int, k_max: int)
    requires
        0 <= k_max <= 2147483647,
        -k_max <= end <= k_max + 1,
        0 <= ky <= k_max,
    ensures
        forall|j: int|
            0 <= j < row_modes(ky, end, k_min, k_max).len() ==> {
                let e = #[trigger] row_modes(ky, end, k_min, k_max)[j];
                &&& e.1 == ky
                &&& -k_max <= e.0 < end
                &&& kept_mode(e.0 as int, ky, k_min, k_max)
            },
        forall|a: int, b: int|
            0 <= a < b < row_modes(ky, end, k_min, k_max).len() ==> #[trigger] row_modes(ky, end, k_min, k_max)[a].0
                < #[trigger] row_modes(ky, end, k_min, k_max)[b].0,
        forall|kx: int|
            -k_max <= kx < end && #[trigger] kept_mode(kx, ky, k_min, k_max) ==> row_modes(
                ky,
                end,
                k_min,
                k_max,
            ).contains((kx as i64, ky as i64)),
    decreases end + k_max,
{
    if end > -k_max {
        let kx = end - 1;
        lemma_row_modes_facts(ky, kx, k_min, k_max);
        let prev = row_modes(ky, kx, k_min, k_max);
        let r = row_modes(ky, end, k_min, k_max);
        if kept_mode(kx, ky, k_min, k_max) {
            assert(r == prev.push((kx as i64, ky as i64)));
            assert(r[prev.len() as int] == (kx as i64, ky as i64));
        } else {
            assert(r =~= prev);
        }
        assert forall|j: int| 0 <= j < r.len() implies {
            let e = #[trigger] r[j];
            &&& e.1 == ky
            &&& -k_max <= e.0 < end
            &&& kept_mode(e.0 as int, ky, k_min, k_max)
        } by {
            if j < prev.len() {
                assert(r[j] == prev[j]);
            }
        }
        assert forall|a: int, b: int| 0 <= a < b < r.len() implies #[trigger] r[a].0 < #[trigger] r[b].0 by {
            assert(r[a] == prev[a]);
            if b < prev.len() {
                assert(r[b] == prev[b]);
            }
        }
        assert forall|x: int| -k_max <= x < end && #[trigger] kept_mode(x, ky, k_min, k_max) implies r.contains(
            (x as i64, ky as i64),
        ) by {
            if x < kx {
                let j = choose|j: int| 0 <= j < prev.len() && prev[j] == (x as i64, ky as i64);
                assert(r[j] == prev[j]);
            } else {
                assert(r[r.len() - 1] == (kx as i64, ky as i64));
            }
        }
    }
}

proof fn lemma_band_modes_facts(ky_end: int, k_min: int, k_max: int)
    requires
        0 <= k_max <= 2147483647,
        0 <= ky_end <= k_max + 1,
    ensures
        forall|j: int|
            0 <= j < band_modes(ky_end, k_min, k_max).len() ==> {
                let e = #[trigger] band_modes(ky_end, k_min, k_max)[j];
                &&& 0 <= e.1 < ky_end
                &&& kept_mode(e.0 as int, e.1 as int, k_min, k_max)
            },
        forall|a: int, b: int|
            0 <= a < b < band_modes(ky_end, k_min, k_max).len() ==> {
                let ea = #[trigger] band_modes(ky_end, k_min, k_max)[a];
                let eb = #[trigger] band_modes(ky_end, k_min, k_max)[b];
                ea.1 < eb.1 || (ea.1 == eb.1 && ea.0 < eb.0)
            },
        forall|kx: int, ky: int|
            0 <= ky < ky_end && -k_max <= kx <= k_max && #[trigger] kept_mode(kx, ky, k_min, k_max)
                ==> band_modes(ky_end, k_min, k_max).contains((kx as i64, ky as i64)),
    decreases ky_end,
{
    if ky_end > 0 {
        let ky = ky_end - 1;
        lemma_band_modes_facts(ky, k_min, k_max);
        lemma_row_modes_facts(ky, k_max + 1, k_min, k_max);
        let prev = band_modes(ky, k_min, k_max);
        let row = row_modes(ky, k_max + 1, k_min, k_max);
        let b = band_modes(ky_end, k_min, k_max);
        assert(b == prev + row);
        assert forall|j: int| 0 <= j < b.len() implies {
            let e = #[trigger] b[j];
            &&& 0 <= e.1 < ky_end
            &&& kept_mode(e.0 as int, e.1 as int, k_min, k_max)
        } by {
            if j < prev.len() {
                assert(b[j] == prev[j]);
            } else {
                assert(b[j] == row[j - prev.len()]);
            }
        }
        assert forall|x: int, y: int| 0 <= x < y < b.len() implies {
            let ea = #[trigger] b[x];
            let eb = #[trigger] b[y];
            ea.1 < eb.1 || (ea.1 == eb.1 && ea.0 < eb.0)
        } by {
            if y < prev.len() {
                assert(b[x] == prev[x]);
                assert(b[y] == prev[y]);
            } else if x < prev.len() {
                assert(b[x] == prev[x]);
                assert(b[y] == row[y - prev.len()]);
            } else {
                assert(b[x] == row[x - prev.len()]);
                assert(b[y] == row[y - prev.len()]);
            }
        }
        assert forall|kx: int, y: int|
            0 <= y < ky_end && -k_max <= kx <= k_max && #[trigger] kept_mode(kx, y, k_min, k_max) implies b.contains(
            (kx as i64, y as i64),
        ) by {
            if y < ky {
                let j = choose|j: int| 0 <= j < prev.len() && prev[j] == (kx as i64, y as i64);
                assert(b[j] == prev[j]);
            } else {
                let j = choose|j: int| 0 <= j < row.len() && row[j] == (kx as i64, y as i64);
                assert(b[prev.len() + j] == row[j]);
            }
        }
    }
}

/// The band of the random field: for `0 <= k_max <= 2^31 - 1`, every mode
/// `(kx, ky)` listed lies in the independent half plane (`ky > 0`, or
/// `ky == 0` and `kx > 0`) and has `k_min^2 <= kx^2 + ky^2` (when
/// `k_min > 0`) and `kx^2 + ky^2 <= k_max^2`; every such mode is listed, and
/// none twice.
pub proof fn lemma_band_modes_exact(k_min: int, k_max: int)
    requires
        0 <= k_max <= 2147483647,
    ensures
        forall|j: int|
            0 <= j < band_modes(k_max + 1, k_min, k_max).len() ==> {
                let kx = (#[trigger] band_modes(k_max + 1, k_min, k_max)[j]).0 as int;
                let ky = band_modes(k_max + 1, k_min, k_max)[j].1 as int;
                &&& (ky > 0 || (ky == 0 && kx > 0))
                &&& (k_min > 0 ==> k_min * k_min <= kx * kx + ky * ky)
                &&& kx * kx + ky * ky <= k_max * k_max
            },
        band_modes(k_max + 1, k_min, k_max).no_duplicates(),
        forall|kx: int, ky: int|
            (ky > 0 || (ky == 0 && kx > 0)) && (k_min > 0 ==> k_min * k_min <= kx * kx + ky * ky) && kx * kx
                + ky * ky <= k_max * k_max ==> #[trigger] band_modes(k_max + 1, k_min, k_max).contains(
                (kx as i64, ky as i64),
            ),
{
    lemma_band_modes_facts(k_max + 1, k_min, k_max);
    let b = band_modes(k_max + 1, k_min, k_max);
    assert forall|x: int, y: int| 0 <= x < b.len() && 0 <= y < b.len() && x != y implies b[x] != b[y] by {
        if x < y {
            let ea = b[x];
            let eb = b[y];
            assert(ea.1 < eb.1 || (ea.1 == eb.1 && ea.0 < eb.0));
        } else {
            let ea = b[y];
            let eb = b[x];
            assert(ea.1 < eb.1 || (ea.1 == eb.1 && ea.0 < eb.0));
        }
    }
    assert forall|kx: int, ky: int|
        (ky > 0 || (ky == 0 && kx > 0)) && (k_min > 0 ==> k_min * k_min <= kx * kx + ky * ky) && kx * kx + ky
            * ky <= k_max * k_max implies #[trigger] b.contains((kx as i64, ky as i64)) by {
        assert(-k_max <= kx <= k_max && ky <= k_max) by (nonlinear_arith)
            requires
                kx * kx + ky * ky <= k_max * k_max,
                0 <= k_max,
                0 <= ky,
        {
            if kx > k_max {
                assert(kx * kx > k_max * k_max) by (nonlinear_arith)
                    requires
                        kx > k_max,
                        k_max >= 0,
                ;
            }
            if kx < -k_max {
                assert(kx * kx > k_max * k_max) by (nonlinear_arith)
                    requires
                        kx < -k_max,
                        k_max >= 0,
                ;
            }
            if ky > k_max {
                assert(ky * ky > k_max * k_max) by (nonlinear_arith)
                    requires
                        ky > k_max,
                        k_max >= 0,
                ;
            }
        }
        assert(kept_mode(kx, ky, k_min, k_max));
    }
}

/// The canonical list of retained modes and the 53-bit draw of each phase.
///
/// The enumeration depends only on `(seed, k_min, k_max)`, not on the grid
/// size: it walks the independent half of the integer wavenumber plane in a
/// fixed order (rows `ky = 0..=k_max`, each with `kx = -k_max..=k_max`), and
/// the `j`-th kept mode receives the `j`-th draw of the SplitMix64 stream;
/// its phase is `2*pi*draw/2^53`. A mode is kept when its length
/// `sqrt(kx^2 + ky^2)` lies in `[k_min, k_max]`; the comparison is made on the
/// squares, exactly.
pub fn random_phase_draws(seed: i64, k_min: i64, k_max: i64) -> (r: Vec<(i64, i64, u64)>)
    requires
        k_max <= 2147483647,
    ensures
        r@.len() == band_modes(k_max + 1, k_min as int, k_max as int).len(),
        forall|j: int|
            0 <= j < r@.len() ==> #[trigger] r@[j] == (
                band_modes(k_max + 1, k_min as int, k_max as int)[j].0,
                band_modes(k_max + 1, k_min as int, k_max as int)[j].1,
                draw(#[verifier::truncate] (seed as u64), j as nat),
            ),
        forall|j: int|
            0 <= j < r@.len() ==> {
                let kx = (#[trigger] r@[j]).0 as int;
                let ky = r@[j].1 as int;
                &&& (ky > 0 || (ky == 0 && kx > 0))
                &&& (k_min > 0 ==> k_min * k_min <= kx * kx + ky * ky)
                &&& kx * kx + ky * ky <= k_max * k_max
            },
        forall|a: int, b: int|
            0 <= a < b < r@.len() ==> (#[trigger] r@[a].0, r@[a].1) != (#[trigger] r@[b].0, r@[b].1),
        0 <= k_max ==> forall|kx: int, ky: int|
            #[trigger] in_band(kx, ky, k_min as int, k_max as int) ==> exists|j: int|
                0 <= j < r@.len() && #[trigger] r@[j].0 == kx && r@[j].1 == ky,
{
    let mut state: u64 = #[verifier::truncate] (seed as u64);
    let mut modes: Vec<(i64, i64, u64)> = Vec::new();
    if k_max < 0 {
        return modes;
    }
    proof {
        assert(0 <= k_max * k_max <= 2147483647 * 2147483647) by (nonlinear_arith)
            requires
                0 <= k_max <= 2147483647,
        ;
        assert(0 <= (k_max + 1) * (k_max + 1) <= 2147483648 * 2147483648) by (nonlinear_arith)
            requires
                0 <= k_max <= 2147483647,
        ;
    }
    let hi_sq: i64 = k_max * k_max;
    let lo: i64 = if k_min > k_max + 1 {
        k_max + 1
    } else {
        k_min
    };
    let lo_sq: i64 = if lo > 0 {
        proof {
            assert(lo * lo <= (k_max + 1) * (k_max + 1)) by (nonlinear_arith)
                requires
                    0 < lo <= k_max + 1,
            ;
        }
        lo * lo
    } else {
        0
    };
    let ghost kmin = k_min as int;
    let ghost kmax = k_max as int;
    let mut ky: i64 = 0;
    while ky <= k_max
        invariant
            0 <= ky <= k_max + 1,
            0 <= k_max <= 2147483647,
            hi_sq == kmax * kmax,
            kmin == k_min,
            kmax == k_max,
            lo_sq == (if lo > 0 { lo * lo } else { 0 }),
            lo == (if k_min > k_max + 1 { k_max + 1 } else { k_min as int }),
            modes@.len() == band_modes(ky as int, kmin, kmax).len(),
            state == stream_state(#[verifier::truncate] (seed as u64), modes@.len()),
            forall|j: int|
                0 <= j < modes@.len() ==> #[trigger] modes@[j] == (
                    band_modes(ky as int, kmin, kmax)[j].0,
                    band_modes(ky as int, kmin, kmax)[j].1,
                    draw(#[verifier::truncate] (seed as u64), j as nat),
                ),
        decreases k_max + 1 - ky,
    {
        let ghost before = band_modes(ky as int, kmin, kmax);
        let mut kx: i64 = -k_max;
        while kx <= k_max
            invariant
                0 <= ky <= k_max,
                -k_max <= kx <= k_max + 1,
                0 <= k_max <= 2147483647,
                hi_sq == kmax * kmax,
                kmin == k_min,
                kmax == k_max,
                lo_sq == (if lo > 0 { lo * lo } else { 0 }),
                lo == (if k_min > k_max + 1 { k_max + 1 } else { k_min as int }),
                before == band_modes(ky as int, kmin, kmax),
                modes@.len() == before.len() + row_modes(ky as int, kx as int, kmin, kmax).len(),
                state == stream_state(#[verifier::truncate] (seed as u64), modes@.len()),
                forall|j: int|
                    0 <= j < modes@.len() ==> #[trigger] modes@[j] == (
                        (before + row_modes(ky as int, kx as int, kmin, kmax))[j].0,
                        (before + row_modes(ky as int, kx as int, kmin, kmax))[j].1,
                        draw(#[verifier::truncate] (seed as u64), j as nat),
                    ),
            decreases k_max + 1 - kx,
        {
            proof {
                assert(kx * kx <= kmax * kmax) by (nonlinear_arith)
                    requires
                        -kmax <= kx <= kmax,
                ;
                assert(ky * ky <= kmax * kmax) by (nonlinear_arith)
                    requires
                        0 <= ky <= kmax,
                ;
                assert(kmax * kmax <= 2147483647 * 2147483647) by (nonlinear_arith)
                    requires
                        0 <= kmax <= 2147483647,
                ;
                assert(kx * kx >= 0) by (nonlinear_arith);
                assert(ky * ky >= 0) by (nonlinear_arith);
                if lo > 0 {
                    assert(lo * lo <= (kmax + 1) * (kmax + 1)) by (nonlinear_arith)
                        requires
                            0 < lo <= kmax + 1,
                    ;
                }
            }
            let m = kx * kx + ky * ky;
            let outside = (k_min > 0 && m < lo_sq) || m > hi_sq;
            let ghost row_before = row_modes(ky as int, kx as int, kmin, kmax);
            proof {
                if m <= hi_sq && k_min > 0 {
                    if k_min > k_max + 1 {
                        assert((kmax + 1) * (kmax + 1) <= kmin * kmin) by (nonlinear_arith)
                            requires
                                kmax + 1 < kmin,
                                0 <= kmax,
                        ;
                        assert(kmax * kmax < (kmax + 1) * (kmax + 1)) by (nonlinear_arith)
                            requires
                                0 <= kmax,
                        ;
                    }
                }
                assert(outside == ((kmin > 0 && m < kmin * kmin) || m > kmax * kmax));
            }
            if !outside && !(kx == 0 && ky == 0) && (ky > 0 || (ky == 0 && kx > 0)) {
                let d = splitmix64(&mut state) >> 11;
                proof {
                    assert(d == draw(#[verifier::truncate] (seed as u64), modes@.len() as nat));
                }
                modes.push((kx, ky, d));
            }
            proof {
                assert(row_modes(ky as int, kx + 1, kmin, kmax) == row_before + if kept_mode(
                    kx as int,
                    ky as int,
                    kmin,
                    kmax,
                ) {
                    seq![(kx, ky)]
                } else {
                    seq![]
                });
                assert forall|j: int| 0 <= j < modes@.len() implies #[trigger] modes@[j] == (
                    (before + row_modes(ky as int, kx + 1, kmin, kmax))[j].0,
                    (before + row_modes(ky as int, kx + 1, kmin, kmax))[j].1,
                    draw(#[verifier::truncate] (seed as u64), j as nat),
                ) by {
                    if j < modes@.len() - 1 || !kept_mode(kx as int, ky as int, kmin, kmax) {
                        assert((before + row_modes(ky as int, kx + 1, kmin, kmax))[j] == (before
                            + row_before)[j]);
                    }
                }
            }
            kx = kx + 1;
        }
        proof {
            assert(band_modes(ky + 1, kmin, kmax) == before + row_modes(
                ky as int,
                kmax + 1,
                kmin,
                kmax,
            ));
        }
        ky = ky + 1;
    }
    proof {
        let b = band_modes(k_max + 1, k_min as int, k_max as int);
        lemma_band_modes_exact(k_min as int, k_max as int);
        assert forall|j: int| 0 <= j < modes@.len() implies (#[trigger] modes@[j]).0 == b[j].0 && modes@[j].1
            == b[j].1 by {}
        assert forall|x: int, y: int| 0 <= x < y < modes@.len() implies (
        #[trigger] modes@[x].0,
        modes@[x].1,
        ) != (#[trigger] modes@[y].0, modes@[y].1) by {
            assert(b[x] != b[y]);
        }
        assert forall|kx: int, ky: int| 0 <= k_max && #[trigger] in_band(kx, ky, k_min as int, k_max as int) implies exists|j: int|
            0 <= j < modes@.len() && #[trigger] modes@[j].0 == kx && modes@[j].1 == ky by {
            lemma_in_band_range(kx, ky, k_min as int, k_max as int);
            assert(in_band(kx, ky, k_min as int, k_max as int));
            assert(b.contains((kx as i64, ky as i64)));
            let j = choose|j: int| 0 <= j < b.len() && b[j] == (kx as i64, ky as i64);
            assert(modes@[j].0 == b[j].0);
        }
    }
    modes
}

/// The texts of the arguments.
pub open spec fn arg_texts(args: Seq<String>) -> Seq<Seq<char>> {
    args.map_values(|s: String| s@)
}

/// First position of `name` among `args` from position `i` on.
pub open spec fn position_from(args: Seq<Seq<char>>, name: Seq<char>, i: int) -> Option<int>
    decreases args.len() - i,
{
    if i < 0 || i >= args.len() {
        None
    } else if args[i] == name {
        Some(i)
    } else {
        position_from(args, name, i + 1)
    }
}

/// The value following the first occurrence of `name`.
pub open spec fn flag_model(args: Seq<Seq<char>>, name: Seq<char>) -> Result<
    Option<Seq<char>>,
    Seq<char>,
> {
    match position_from(args, name, 0) {
        None => Ok(None),
        Some(i) => if i + 1 < args.len() {
            Ok(Some(args[i + 1]))
        } else {
            Err("missing value for "@ + name)
        },
    }
}

/// The plain contents of an optional flag value.
pub open spec fn flag_view(r: Result<Option<String>, String>) -> Result<Option<Seq<char>>, Seq<char>> {
    match r {
        Ok(Some(v)) => Ok(Some(v@)),
        Ok(None) => Ok(None),
        Err(e) => Err(e@),
    }
}

/// The value following the first occurrence of the flag `name`, if any.
pub fn flag(args: &Vec<String>, name: &str) -> (r: Result<Option<String>, String>)
    ensures
        flag_view(r) == flag_model(arg_texts(args@), name@),
{
    let ghost texts = arg_texts(args@);
    let mut i: usize = 0;
    while i < args.len()
        invariant
            texts == arg_texts(args@),
            i <= args@.len(),
            position_from(texts, name@, 0) == position_from(texts, name@, i as int),
        decreases args.len() - i,
    {
        assert(texts[i as int] == args@[i as int]@);
        if is_text(&args[i], name) {
            if i + 1 < args.len() {
                assert(texts[i + 1] == args@[i + 1]@);
                return Ok(Some(args[i + 1].clone()));
            } else {
                let mut e = String::from_str("missing value for ");
                e.append(name);
                return Err(e);
            }
        }
        i = i + 1;
    }
    Ok(None)
}

/// Error text of a flag value that does not read.
pub open spec fn bad_value_error(name: Seq<char>, raw: Seq<char>) -> Seq<char> {
    "bad value for "@ + name + ": "@ + debug_text(raw)
}

/// The flag `name` read as a `usize`, if given.
pub open spec fn usize_flag_model(args: Seq<Seq<char>>, name: Seq<char>) -> Result<
    Option<usize>,
    Seq<char>,
> {
    match flag_model(args, name) {
        Err(e) => Err(e),
        Ok(None) => Ok(None),
        Ok(Some(raw)) => match usize_value(raw) {
            Some(v) => Ok(Some(v)),
            None => Err(bad_value_error(name, raw)),
        },
    }
}

/// The flag `name` read as an `i64`, if given.
pub open spec fn i64_flag_model(args: Seq<Seq<char>>, name: Seq<char>) -> Result<
    Option<i64>,
    Seq<char>,
> {
    match flag_model(args, name) {
        Err(e) => Err(e),
        Ok(None) => Ok(None),
        Ok(Some(raw)) => match i64_value(raw) {
            Some(v) => Ok(Some(v)),
            None => Err(bad_value_error(name, raw)),
        },
    }
}

fn bad_value_message(name: &str, raw: &String) -> (e: String)
    ensures
        e@ == bad_value_error(name@, raw@),
{
    let mut e = String::from_str("bad value for ");
    e.append(name);
    e.append(": ");
    let q = debug_quoted(raw.as_str());
    e.append(q.as_str());
    e
}

/// The flag `name` read as a `usize`, if given.
pub fn parse_usize(args: &Vec<String>, name: &str) -> (r: Result<Option<usize>, String>)
    ensures
        match r {
            Ok(v) => usize_flag_model(arg_texts(args@), name@) == Ok::<Option<usize>, Seq<char>>(v),
            Err(e) => usize_flag_model(arg_texts(args@), name@) == Err::<Option<usize>, Seq<char>>(e@),
        },
{
    match flag(args, name)? {
        None => Ok(None),
        Some(raw) => match usize_from_text(raw.as_str()) {
            Some(v) => Ok(Some(v)),
            None => Err(bad_value_message(name, &raw)),
        },
    }
}

/// The flag `name` read as an `i64`, if given.
pub fn parse_i64(args: &Vec<String>, name: &str) -> (r: Result<Option<i64>, String>)
    ensures
        match r {
            Ok(v) => i64_flag_model(arg_texts(args@), name@) == Ok::<Option<i64>, Seq<char>>(v),
            Err(e) => i64_flag_model(arg_texts(args@), name@) == Err::<Option<i64>, Seq<char>>(e@),
        },
{
    match flag(args, name)? {
        None => Ok(None),
        Some(raw) => match i64_from_text(raw.as_str()) {
            Some(v) => Ok(Some(v)),
            None => Err(bad_value_message(name, &raw)),
        },
    }
}

/// A required flag read as a `usize`.
pub open spec fn required_usize_model(args: Seq<Seq<char>>, name: Seq<char>) -> Result<
    usize,
    Seq<char>,
> {
    match usize_flag_model(args, name) {
        Ok(Some(v)) => Ok(v),
        Ok(None) => Err("missing required "@ + name),
        Err(e) => Err(e),
    }
}

/// A required flag read as an `i64`.
pub open spec fn required_i64_model(args: Seq<Seq<char>>, name: Seq<char>) -> Result<
    i64,
    Seq<char>,
> {
    match i64_flag_model(args, name) {
        Ok(Some(v)) => Ok(v),
        Ok(None) => Err("missing required "@ + name),
        Err(e) => Err(e),
    }
}

/// The plain contents of a result whose error is a text.
pub open spec fn result_view<T>(r: Result<T, String>) -> Result<T, Seq<char>> {
    match r {
        Ok(v) => Ok(v),
        Err(e) => Err(e@),
    }
}

/// A required flag read as a `usize`.
pub fn required_usize(args: &Vec<String>, name: &str) -> (r: Result<usize, String>)
    ensures
        result_view(r) == required_usize_model(arg_texts(args@), name@),
{
    match parse_usize(args, name)? {
        Some(v) => Ok(v),
        None => {
            let mut e = String::from_str("missing required ");
            e.append(name);
            Err(e)
        },
    }
}

/// A required flag read as an `i64`.
pub fn required_i64(args: &Vec<String>, name: &str) -> (r: Result<i64, String>)
    ensures
        result_view(r) == required_i64_model(arg_texts(args@), name@),
{
    match parse_i64(args, name)? {
        Some(v) => Ok(v),
        None => {
            let mut e = String::from_str("missing required ");
            e.append(name);
            Err(e)
        },
    }
}

/// Settings of `field random`.
pub struct RandomSettings {
    pub n: usize,
    pub seed: i64,
    pub k_min: i64,
    pub k_max: i64,
}

/// What `random_settings` gives.
pub open spec fn random_settings_model(a: Seq<Seq<char>>) -> Result<RandomSettings, Seq<char>> {
    match required_usize_model(a, "--n"@) {
        Err(e) => Err(e),
        Ok(n) => match required_i64_model(a, "--seed"@) {
            Err(e) => Err(e),
            Ok(seed) => match required_i64_model(a, "--k-min"@) {
                Err(e) => Err(e),
                Ok(k_min) => match required_i64_model(a, "--k-max"@) {
                    Err(e) => Err(e),
                    Ok(k_max) => if k_min < 0 || k_max < k_min {
                        Err(
                            "random: need 0 <= k-min <= k-max, got "@ + signed_decimal(k_min as int)
                                + ".."@ + signed_decimal(k_max as int),
                        )
                    } else {
                        Ok(RandomSettings { n, seed, k_min, k_max })
                    },
                },
            },
        },
    }
}

/// The band rule of `field random`: when `--n`, `--seed`, `--k-min` and
/// `--k-max` are all given and readable, the settings are accepted exactly
/// when `0 <= k-min <= k-max` (a single shell, `k-min == k-max`, included),
/// and then they hold the values read.
pub proof fn lemma_random_settings_band(a: Seq<Seq<char>>)
    requires
        required_usize_model(a, "--n"@) is Ok,
        required_i64_model(a, "--seed"@) is Ok,
        required_i64_model(a, "--k-min"@) is Ok,
        required_i64_model(a, "--k-max"@) is Ok,
    ensures
        ({
            let k_min = required_i64_model(a, "--k-min"@)->Ok_0;
            let k_max = required_i64_model(a, "--k-max"@)->Ok_0;
            &&& random_settings_model(a) is Ok <==> 0 <= k_min <= k_max
            &&& random_settings_model(a) is Ok ==> random_settings_model(a)->Ok_0 == RandomSettings {
                n: required_usize_model(a, "--n"@)->Ok_0,
                seed: required_i64_model(a, "--seed"@)->Ok_0,
                k_min,
                k_max,
            }
        }),
{
}

/// The settings of `field random` from its arguments (after the subcommand
/// name): `--n`, `--seed`, `--k-min`, `--k-max`, all required, with
/// `0 <= k-min <= k-max`.
pub fn random_settings(rest: &Vec<String>) -> (r: Result<RandomSettings, String>)
    ensures
        result_view(r) == random_settings_model(arg_texts(rest@)),
{
    let n = required_usize(rest, "--n")?;
    let seed = required_i64(rest, "--seed")?;
    let k_min = required_i64(rest, "--k-min")?;
    let k_max = required_i64(rest, "--k-max")?;
    if k_min < 0 || k_max < k_min {
        let mut e = String::from_str("random: need 0 <= k-min <= k-max, got ");
        push_signed_decimal(&mut e, k_min);
        e.append("..");
        push_signed_decimal(&mut e, k_max);
        return Err(e);
    }
    Ok(RandomSettings { n, seed, k_min, k_max })
}

} // verus!

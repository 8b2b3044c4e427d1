use physsim::flow::field::{
    flag, mode_index, parse_i64, parse_usize, random_phase_draws, random_settings, required_i64,
    required_usize, splitmix64,
};
use physsim::flow::fluid::{arg_value, checked_method, is_snapshot, required};
use physsim::flow::grid::{fft_wavenumbers, PeriodicGrid};
use physsim::flow::grid2d::PeriodicGrid2D;
use std::f64::consts::PI;

fn args(list: &[&str]) -> Vec<String> {
    list.iter().map(|s| s.to_string()).collect()
}

// ---------------------------------------------------------------------------
// One-dimensional grid
// ---------------------------------------------------------------------------

#[test]
fn wrapping_maps_0_to_n_minus_1_and_n_minus_1_to_0() {
    let n = 8;
    let g = PeriodicGrid::new(n);

    assert_eq!(g.left(0), n - 1);
    assert_eq!(g.right(n - 1), 0);

    for j in 0..n {
        assert_eq!(g.left(j), (j + n - 1) % n);
        assert_eq!(g.right(j), (j + 1) % n);
    }
    assert_eq!(g.wrap(-1), n - 1);
    assert_eq!(g.wrap(n as isize), 0);
    assert_eq!(g.wrap((n + 3) as isize), 3);
}

#[test]
fn left_and_right_undo_each_other() {
    let g = PeriodicGrid::new(5);
    for j in 0..5 {
        assert_eq!(g.left(g.right(j)), j);
        assert_eq!(g.right(g.left(j)), j);
    }
    assert_eq!(g.wrap(-11), 4);
    assert_eq!(g.len(), 5);
    assert!(!g.is_empty());
}

#[test]
fn one_dimensional_wavenumbers_follow_the_fft_order() {
    assert_eq!(fft_wavenumbers(8), vec![0, 1, 2, 3, -4, -3, -2, -1]);
    assert_eq!(fft_wavenumbers(5), vec![0, 1, 2, -2, -1]);
}

// ---------------------------------------------------------------------------
// Two-dimensional grid
// ---------------------------------------------------------------------------

#[test]
fn index_is_row_major_with_x_fastest() {
    let n = 4;
    let g = PeriodicGrid2D::new(n);
    assert_eq!(g.index(0, 0), 0);
    assert_eq!(g.index(1, 0), 1);
    assert_eq!(g.index(3, 0), 3);
    assert_eq!(g.index(0, 1), 4);
    assert_eq!(g.index(3, 2), 2 * n + 3);
    for ix in 0..n {
        for iy in 0..n {
            assert_eq!(g.coords(g.index(ix, iy)), (ix, iy));
        }
    }
}

#[test]
fn wavenumbers_are_the_fft_order() {
    let g = PeriodicGrid2D::new(8);
    let ks: Vec<f64> = g.wavenumbers().iter().map(|&k| k as f64).collect();
    assert_eq!(ks, vec![0.0, 1.0, 2.0, 3.0, -4.0, -3.0, -2.0, -1.0]);
}

#[test]
fn grid_sizes() {
    let g = PeriodicGrid2D::new(8);
    assert_eq!(g.n(), 8);
    assert_eq!(g.len(), 64);
    assert!(!g.is_empty());
}

// ---------------------------------------------------------------------------
// Random field modes
// ---------------------------------------------------------------------------

#[test]
fn random_phases_do_not_depend_on_n() {
    let modes = random_phase_draws(2026, 2, 6);
    assert!(!modes.is_empty());
    for (kx, ky, draw) in &modes {
        let r = (((*kx) * (*kx) + (*ky) * (*ky)) as f64).sqrt();
        assert!(r >= 2.0 && r <= 6.0);
        assert!(*ky > 0 || (*ky == 0 && *kx > 0));
        let phase = 2.0 * PI * (*draw as f64 / (1u64 << 53) as f64);
        assert!(phase >= 0.0 && phase < 2.0 * PI);
    }
}

#[test]
fn splitmix64_matches_the_reference_stream() {
    // Reference values of SplitMix64 from seed 0.
    let mut state = 0u64;
    assert_eq!(splitmix64(&mut state), 0xE220_A839_7B1D_CDAF);
    assert_eq!(splitmix64(&mut state), 0x6E78_9E6A_A1B9_65F4);
    assert_eq!(state, 0x9E37_79B9_7F4A_7C15u64.wrapping_mul(2));
}

#[test]
fn phase_draws_walk_the_stream_in_mode_order() {
    let modes = random_phase_draws(7, 1, 1);
    let kept: Vec<(i64, i64)> = modes.iter().map(|m| (m.0, m.1)).collect();
    assert_eq!(kept, vec![(1, 0), (0, 1)]);
    let mut state = 7u64;
    let first = splitmix64(&mut state) >> 11;
    let second = splitmix64(&mut state) >> 11;
    assert_eq!(modes[0].2, first);
    assert_eq!(modes[1].2, second);
}

#[test]
fn phase_draws_keep_the_band_and_the_half_plane() {
    let modes = random_phase_draws(1, 0, 2);
    let kept: Vec<(i64, i64)> = modes.iter().map(|m| (m.0, m.1)).collect();
    assert_eq!(
        kept,
        vec![(1, 0), (2, 0), (-1, 1), (0, 1), (1, 1), (0, 2)]
    );
    assert!(random_phase_draws(1, 3, 2).is_empty());
}

#[test]
fn mode_index_undoes_the_fft_order() {
    let n = 8;
    for (i, k) in fft_wavenumbers(n).into_iter().enumerate() {
        assert_eq!(mode_index(k, n), i);
    }
    assert_eq!(mode_index(-1, 8), 7);
    assert_eq!(mode_index(3, 8), 3);
}

// ---------------------------------------------------------------------------
// Command lines
// ---------------------------------------------------------------------------

#[test]
fn snapshot_stride_is_round_every_over_dt() {
    assert!(is_snapshot(0, 10));
    assert!(is_snapshot(10, 10));
    assert!(!is_snapshot(9, 10));
    assert!(is_snapshot(100, 10));
}

#[test]
fn field_flags() {
    let a = args(&["--n", "64", "--seed", "-5", "--k-min", "2"]);
    assert_eq!(flag(&a, "--n"), Ok(Some("64".to_string())));
    assert_eq!(flag(&a, "--t"), Ok(None));
    assert_eq!(flag(&args(&["--n"]), "--n"), Err("missing value for --n".to_string()));
    assert_eq!(parse_usize(&a, "--n"), Ok(Some(64)));
    assert_eq!(parse_i64(&a, "--seed"), Ok(Some(-5)));
    assert_eq!(
        parse_usize(&a, "--seed"),
        Err("bad value for --seed: \"-5\"".to_string())
    );
    assert_eq!(required_usize(&a, "--n"), Ok(64));
    assert_eq!(required_i64(&a, "--k-max"), Err("missing required --k-max".to_string()));
}

#[test]
fn random_settings_read_and_check_the_band() {
    let ok = random_settings(&args(&["--n", "128", "--seed", "2026", "--k-min", "2", "--k-max", "6"]))
        .unwrap();
    assert_eq!((ok.n, ok.seed, ok.k_min, ok.k_max), (128, 2026, 2, 6));
    match random_settings(&args(&["--n", "8", "--seed", "1", "--k-min", "5", "--k-max", "-2"])) {
        Err(e) => assert_eq!(e, "random: need 0 <= k-min <= k-max, got 5..-2"),
        Ok(_) => panic!("expected an error"),
    }
    match random_settings(&args(&["--n", "8", "--k-min", "1", "--k-max", "2"])) {
        Err(e) => assert_eq!(e, "missing required --seed"),
        Ok(_) => panic!("expected an error"),
    }
}

#[test]
fn fluid_flags() {
    let a = args(&["--method", "rk4", "--out", "dir"]);
    assert_eq!(arg_value(&a, "--out"), Ok(Some("dir".to_string())));
    assert_eq!(required(&a, "--nu"), Err("missing required --nu".to_string()));
    assert_eq!(checked_method(&a), Ok("rk4".to_string()));
    for m in ["euler", "rk2", "rk4"] {
        assert_eq!(checked_method(&args(&["--method", m])), Ok(m.to_string()));
    }
    assert_eq!(
        checked_method(&args(&["--method", "leapfrog"])),
        Err("invalid --method \"leapfrog\" (expected euler, rk2 or rk4)".to_string())
    );
}

use physsim::ising::cli::{parse, parse_u64, parse_usize, usage, Config, Reading};
use physsim::ising::lattice::Lattice;
use physsim::ising::metropolis::sweep;
use physsim::ising::simulation::{simulate, RampRecord, StepThresholds, Update};
use physsim::ising::wolff::cluster_flip;
use physsim::rng::{Stream, UNIT_STEPS};

// ---------------------------------------------------------------------------
// Helpers: floating-point readings and thresholds, as the application makes
// them.
// ---------------------------------------------------------------------------

fn reading(s: &String) -> Option<Reading<f64>> {
    let v: f64 = s.parse().ok()?;
    Some(Reading { value: v, shown: format!("{v}"), exceeds_zero: !(v <= 0.0) })
}

fn below(a: &f64, b: &f64) -> bool {
    a < b
}

/// `ceil(p * 2^52)`, clamped to `0..=2^52`.
fn threshold(p: f64) -> u64 {
    let scaled = (p * UNIT_STEPS as f64).ceil();
    if scaled >= UNIT_STEPS as f64 {
        UNIT_STEPS
    } else if scaled > 0.0 {
        scaled as u64
    } else {
        0
    }
}

fn boltzmann(temperature: f64) -> impl Fn(i32) -> u64 {
    move |de: i32| threshold((-(de as f64) / temperature).exp())
}

fn bond_threshold(temperature: f64) -> u64 {
    threshold(1.0 - (-2.0 / temperature).exp())
}

fn step_thresholds(temperature: f64) -> StepThresholds {
    StepThresholds {
        uphill_four: threshold((-4.0 / temperature).exp()),
        uphill_eight: threshold((-8.0 / temperature).exp()),
        bond: bond_threshold(temperature),
    }
}

fn energy_per_site(lattice: &Lattice) -> f64 {
    -(lattice.bond_sum() as f64) / (lattice.n() as f64)
}

fn magnetization(lattice: &Lattice) -> f64 {
    lattice.spin_sum() as f64 / lattice.n() as f64
}

fn args(list: &[&str]) -> Vec<String> {
    let mut v = vec!["ising".to_string()];
    v.extend(list.iter().map(|s| s.to_string()));
    v
}

fn parse_ising(list: &[&str]) -> Result<Config<f64>, String> {
    parse(&args(list), &reading, &below)
}

fn error_of(list: &[&str]) -> String {
    match parse_ising(list) {
        Err(e) => e,
        Ok(_) => panic!("expected an error"),
    }
}

const BASE: &[&str] = &[
    "--update",
    "metropolis",
    "--l",
    "8",
    "--t-from",
    "1.5",
    "--t-to",
    "3.5",
    "--t-step",
    "0.1",
    "--discard",
    "10",
    "--measure",
    "20",
    "--seed",
    "2026",
    "--out",
    "runs/ramp",
];

fn with(flag: &str, value: &str) -> Vec<&'static str> {
    let mut v: Vec<&'static str> = BASE.to_vec();
    let pos = v.iter().position(|s| *s == flag).unwrap();
    v[pos + 1] = Box::leak(value.to_string().into_boxed_str());
    v
}

// ---------------------------------------------------------------------------
// Command line
// ---------------------------------------------------------------------------

#[test]
fn parses_a_full_command_line() {
    let cfg = parse_ising(BASE).unwrap();
    assert_eq!(cfg.update, Update::Metropolis);
    assert_eq!(cfg.l, 8);
    assert_eq!(cfg.discard, 10);
    assert_eq!(cfg.measure, 20);
    assert_eq!(cfg.every, 0, "every defaults to zero");
    assert_eq!(cfg.seed, 2026);
    assert_eq!(cfg.out, "runs/ramp");
}

#[test]
fn missing_required_argument_is_an_error() {
    let without_seed: Vec<&str> = BASE
        .to_vec()
        .chunks(2)
        .filter(|pair| pair[0] != "--seed")
        .flatten()
        .copied()
        .collect();
    let err = error_of(&without_seed);
    assert!(err.contains("--seed"), "error was: {err}");
}

#[test]
fn rejects_bad_values() {
    assert!(error_of(&with("--l", "1")).contains("--l must be at least 2"));
    assert!(error_of(&with("--t-step", "0")).contains("--t-step must be positive"));
    assert!(error_of(&with("--t-to", "1.0")).contains("--t-to"));
}

#[test]
fn rejects_unknown_update_and_flags() {
    assert!(error_of(&with("--update", "glauber")).contains("--update"));
    assert!(error_of(&["--nope", "1"]).contains("unknown argument"));
}

#[test]
fn full_command_line_values_and_temperatures() {
    let mut list: Vec<&str> = BASE.to_vec();
    list.extend(["--every", "5"]);
    let cfg = parse_ising(&list).unwrap();
    assert_eq!(cfg.every, 5);
    assert_eq!(cfg.t_from, 1.5);
    assert_eq!(cfg.t_to, 3.5);
    assert_eq!(cfg.t_step, 0.1);
    let wolff = parse_ising(&with("--update", "wolff")).unwrap();
    assert_eq!(wolff.update, Update::Wolff);
}

#[test]
fn exact_error_messages() {
    assert_eq!(error_of(&with("--l", "1")), "--l must be at least 2 (got 1)");
    assert_eq!(error_of(&with("--t-step", "0")), "--t-step must be positive (got 0)");
    assert_eq!(error_of(&with("--t-from", "-1")), "--t-from must be positive (got -1)");
    assert_eq!(
        error_of(&with("--t-to", "1.0")),
        "--t-to (1) must not be below --t-from (1.5)"
    );
    assert_eq!(error_of(&with("--measure", "0")), "--measure must be at least 1 (got 0)");
    assert_eq!(
        error_of(&with("--update", "glauber")),
        "invalid --update: glauber (expected metropolis or wolff)"
    );
    assert_eq!(
        error_of(&with("--discard", "x")),
        "invalid --discard: x (expected a non-negative integer)"
    );
    assert_eq!(
        error_of(&with("--t-from", "warm")),
        "invalid --t-from: warm (expected a number)"
    );
}

#[test]
fn integer_flag_readers() {
    assert_eq!(parse_usize("--l", "12"), Ok(12));
    assert_eq!(parse_usize("--l", "+7"), Ok(7));
    assert_eq!(
        parse_usize("--l", "-1"),
        Err("invalid --l: -1 (expected a non-negative integer)".to_string())
    );
    assert_eq!(parse_u64("--seed", "18446744073709551615"), Ok(u64::MAX));
    assert!(parse_u64("--seed", "18446744073709551616").is_err());
    assert!(parse_u64("--seed", "").is_err());
}

#[test]
fn usage_mentions_every_flag() {
    let u = usage();
    for flag in ["--update", "--l", "--t-from", "--t-to", "--t-step", "--discard", "--measure", "--seed", "--every", "--out"] {
        assert!(u.contains(flag), "{flag}");
    }
}

// ---------------------------------------------------------------------------
// Lattice
// ---------------------------------------------------------------------------

#[test]
fn all_up_has_energy_minus_two() {
    for l in [2, 4, 8] {
        let lattice = Lattice::all_up(l);
        assert!((energy_per_site(&lattice) + 2.0).abs() < 1e-12);
        assert!((magnetization(&lattice) - 1.0).abs() < 1e-12);
        assert_eq!(lattice.neighbour_sum(0, 0), 4);
    }
}

#[test]
fn checkerboard_has_energy_plus_two() {
    let l = 4;
    let mut lattice = Lattice::all_up(l);
    for y in 0..l {
        for x in 0..l {
            if (x + y) % 2 == 1 {
                lattice.flip(y * l + x);
            }
        }
    }
    assert!((energy_per_site(&lattice) - 2.0).abs() < 1e-12);
    assert!(magnetization(&lattice).abs() < 1e-12);
}

#[test]
fn single_flip_within_all_up_costs_eight() {
    let l = 4;
    let before = energy_per_site(&Lattice::all_up(l));
    let mut lattice = Lattice::all_up(l);
    lattice.flip(0);
    let delta = energy_per_site(&lattice) - before;
    assert!((delta - 8.0 / (l * l) as f64).abs() < 1e-12);
}

#[test]
fn flip_energy_change_matches_bond_change() {
    let mut lattice = Lattice::all_up(4);
    lattice.flip(5);
    lattice.flip(6);
    for index in 0..16 {
        let before = lattice.bond_sum();
        let de = lattice.flip_energy_change(index) as i64;
        let mut after = lattice.clone();
        after.flip(index);
        assert_eq!(after.bond_sum(), before - de);
    }
}

#[test]
fn flipping_twice_restores_the_lattice() {
    let mut lattice = Lattice::all_up(3);
    lattice.flip(4);
    let once = lattice.spins.clone();
    lattice.flip(7);
    lattice.flip(7);
    assert_eq!(lattice.spins, once);
}

#[test]
fn lattice_accessors() {
    let mut lattice = Lattice::all_up(3);
    assert_eq!(lattice.n(), 9);
    lattice.flip(3 + 1);
    assert_eq!(lattice.get(1, 1), -1);
    assert_eq!(lattice.get(0, 1), 1);
    assert_eq!(lattice.neighbour_sum(0, 1), 2);
    assert_eq!(lattice.spin_sum(), 7);
}

// ---------------------------------------------------------------------------
// Metropolis
// ---------------------------------------------------------------------------

#[test]
fn cold_start_never_accepts_uphill_flips() {
    let mut lattice = Lattice::all_up(8);
    let mut rng = Stream::new(2026);
    let accepted = sweep(&mut lattice, &boltzmann(0.01), &mut rng).0;
    assert_eq!(accepted, 0);
    assert!((magnetization(&lattice) - 1.0).abs() < 1e-12);
}

#[test]
fn high_temperature_accepts_roughly_half_the_proposals() {
    let mut lattice = Lattice::all_up(16);
    let mut rng = Stream::new(7);
    let accepted = sweep(&mut lattice, &boltzmann(100.0), &mut rng).0;
    assert!(accepted > 200);
}

#[test]
fn same_seed_replays_the_same_sweep() {
    let mut a = Lattice::all_up(8);
    let mut b = Lattice::all_up(8);
    let mut rng_a = Stream::new(11);
    let mut rng_b = Stream::new(11);
    for _ in 0..5 {
        sweep(&mut a, &boltzmann(2.3), &mut rng_a).0;
        sweep(&mut b, &boltzmann(2.3), &mut rng_b).0;
    }
    assert_eq!(a.spins, b.spins);
}

#[test]
fn taking_every_uphill_move_accepts_every_proposal() {
    let mut lattice = Lattice::all_up(6);
    let mut rng = Stream::new(5);
    let accepted = sweep(&mut lattice, &|_de: i32| UNIT_STEPS, &mut rng).0;
    assert_eq!(accepted, 36);
}

#[test]
fn refusing_uphill_moves_never_raises_the_energy() {
    let mut lattice = Lattice::all_up(6);
    let mut rng = Stream::new(9);
    for _ in 0..3 {
        sweep(&mut lattice, &|_de: i32| UNIT_STEPS, &mut rng).0;
    }
    for _ in 0..5 {
        let before = lattice.bond_sum();
        sweep(&mut lattice, &|_de: i32| 0, &mut rng).0;
        assert!(lattice.bond_sum() >= before);
    }
}

#[test]
fn a_sweep_changes_at_most_its_accepted_count_of_sites_with_the_same_parity() {
    let mut lattice = Lattice::all_up(6);
    let mut rng = Stream::new(31);
    for t in [1.0, 2.3, 5.0, 50.0] {
        let before = lattice.spins.clone();
        let accepted = sweep(&mut lattice, &boltzmann(t), &mut rng).0;
        let changed = (0..36).filter(|&i| lattice.spins[i] != before[i]).count();
        assert!(changed <= accepted);
        assert_eq!(changed % 2, accepted % 2);
    }
}

// ---------------------------------------------------------------------------
// Wolff
// ---------------------------------------------------------------------------

#[test]
fn cold_cluster_covers_the_whole_lattice() {
    let mut lattice = Lattice::all_up(8);
    let mut rng = Stream::new(2026);
    let size = cluster_flip(&mut lattice, bond_threshold(0.01), &mut rng).0;
    assert_eq!(size, 64);
    assert!((magnetization(&lattice) + 1.0).abs() < 1e-12);
}

#[test]
fn hot_cluster_is_small_on_average() {
    let mut lattice = Lattice::all_up(32);
    let mut rng = Stream::new(3);
    let mut total = 0usize;
    let flips = 50;
    for _ in 0..flips {
        total += cluster_flip(&mut lattice, bond_threshold(100.0), &mut rng).0;
    }
    let mean = total as f64 / flips as f64;
    assert!(mean < 4.0, "mean cluster size was {mean}");
}

#[test]
fn a_certain_bond_takes_the_whole_connected_component() {
    for seed in 0..8 {
        let mut lattice = Lattice::all_up(4);
        for x in 0..4 {
            lattice.flip(4 + x);
        }
        let mut rng = Stream::new(seed);
        let size = cluster_flip(&mut lattice, UNIT_STEPS, &mut rng).0;
        if size == 4 {
            assert!(lattice.spins.iter().all(|&s| s == 1));
        } else {
            assert_eq!(size, 12);
            assert!(lattice.spins.iter().all(|&s| s == -1));
        }
    }
}

#[test]
fn a_refused_bond_flips_only_the_seed() {
    let mut lattice = Lattice::all_up(5);
    let mut rng = Stream::new(1);
    let size = cluster_flip(&mut lattice, 0, &mut rng).0;
    assert_eq!(size, 1);
    assert_eq!(lattice.spin_sum(), 23);
}

#[test]
fn a_cluster_flip_changes_the_magnetization_by_twice_its_size() {
    let mut lattice = Lattice::all_up(6);
    let mut rng = Stream::new(42);
    for _ in 0..10 {
        let before = lattice.spin_sum();
        let spins_before = lattice.spins.clone();
        let size = cluster_flip(&mut lattice, bond_threshold(2.0), &mut rng).0 as i64;
        let changed: Vec<usize> = (0..36).filter(|&i| lattice.spins[i] != spins_before[i]).collect();
        assert_eq!(changed.len() as i64, size);
        let seed_spin = spins_before[changed[0]];
        assert!(changed.iter().all(|&i| spins_before[i] == seed_spin));
        assert_eq!((lattice.spin_sum() - before).abs(), 2 * size);
    }
}

// ---------------------------------------------------------------------------
// The temperature ramp
// ---------------------------------------------------------------------------

fn ramp(update: Update) -> RampRecord {
    let grid = [1.5, 1.6, 1.7];
    let thresholds: Vec<StepThresholds> = grid.iter().map(|&t| step_thresholds(t)).collect();
    simulate(update, 4, &thresholds, 2, 4, 2, 2026)
}

#[test]
fn measured_sweep_numbers_restart_at_one_at_each_temperature() {
    let report = ramp(Update::Metropolis);
    assert_eq!(report.series.len(), 3 * 4);
    for chunk in report.series.chunks(4) {
        assert_eq!(chunk.iter().map(|r| r.sweep).collect::<Vec<_>>(), vec![1, 2, 3, 4]);
    }
}

#[test]
fn global_frame_sweeps_include_discard_and_carry_across_the_ramp() {
    let report = ramp(Update::Metropolis);
    let sweeps: Vec<usize> = report.frames.iter().map(|f| f.sweep).collect();
    assert_eq!(sweeps, vec![4, 6, 10, 12, 16, 18]);
}

#[test]
fn metropolis_reports_an_acceptance_rate_and_wolff_a_cluster_size() {
    let metro = ramp(Update::Metropolis);
    assert_eq!(metro.totals.len(), 3);
    assert!(metro.totals.iter().all(|s| s.cluster_total == 0));
    assert!(metro.series.iter().all(|r| r.cluster_size.is_none()));

    let wolf = ramp(Update::Wolff);
    assert!(wolf.totals.iter().all(|s| s.cluster_total >= 4 && s.accepted == 0));
    assert!(wolf.series.iter().all(|r| r.cluster_size.is_some()));
}

#[test]
fn same_seed_gives_identical_series() {
    let a = ramp(Update::Metropolis);
    let b = ramp(Update::Metropolis);
    let values = |r: &RampRecord| r.series.iter().map(|s| (s.spin_sum, s.bond_sum)).collect::<Vec<_>>();
    assert_eq!(values(&a), values(&b));
}

#[test]
fn frames_carry_the_spins_of_their_step() {
    let report = ramp(Update::Wolff);
    for f in &report.frames {
        assert_eq!(f.spins.len(), 16);
        let sum: i64 = f.spins.iter().map(|&s| s as i64).sum();
        assert_eq!(sum, f.spin_sum);
        let local = (f.sweep - 1) % 6 + 1 - 2;
        let entry = &report.series[f.temperature * 4 + local - 1];
        assert_eq!(entry.spin_sum, f.spin_sum);
    }
    let totals: Vec<usize> = report
        .series
        .chunks(4)
        .map(|c| c.iter().map(|r| r.cluster_size.unwrap()).sum())
        .collect();
    assert_eq!(totals, report.totals.iter().map(|t| t.cluster_total).collect::<Vec<_>>());
}

#[test]
fn no_frames_when_every_is_zero() {
    let thresholds = vec![step_thresholds(2.0); 2];
    let r = simulate(Update::Metropolis, 4, &thresholds, 1, 3, 0, 1);
    assert!(r.frames.is_empty());
    assert_eq!(r.series.len(), 6);
}

#[test]
fn update_names_round_trip() {
    for u in [Update::Metropolis, Update::Wolff] {
        assert_eq!(Update::parse(u.as_str()), Ok(u));
    }
    assert_eq!(Update::Metropolis.time_unit(), "sweep");
    assert_eq!(Update::Wolff.time_unit(), "cluster_flip");
}

#[test]
fn each_measured_entry_records_the_lattice_after_its_step() {
    let report = ramp(Update::Metropolis);
    for f in &report.frames {
        let mut lattice = Lattice::all_up(4);
        lattice.spins = f.spins.clone();
        let local = (f.sweep - 1) % 6 + 1 - 2;
        let entry = &report.series[f.temperature * 4 + local - 1];
        assert_eq!(entry.spin_sum, lattice.spin_sum());
        assert_eq!(entry.bond_sum, lattice.bond_sum());
    }
}

#[test]
fn same_seed_gives_identical_wolff_series() {
    let a = ramp(Update::Wolff);
    let b = ramp(Update::Wolff);
    let values = |r: &RampRecord| {
        r.series.iter().map(|s| (s.spin_sum, s.bond_sum, s.cluster_size)).collect::<Vec<_>>()
    };
    assert_eq!(values(&a), values(&b));
}

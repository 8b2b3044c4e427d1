use physsim::md::cell_list::ForceMethod;
use physsim::md::check::{drift_window, pass};
use physsim::md::cli::{parse, usage, Command, FloatDefaults, RunArgs};
use physsim::md::greeting;
use physsim::md::simulation::{lattice_side, production_plan, rescales_during_equilibration, StepPlan};
use physsim::md::video::{frame_file_name, video_report, Canvas, MAX_VIDEO_BYTES};

fn args(list: &[&str]) -> Vec<String> {
    list.iter().map(|s| s.to_string()).collect()
}

fn number(s: &String) -> Option<f64> {
    s.parse::<f64>().ok()
}

fn defaults() -> FloatDefaults<f64> {
    FloatDefaults { rho: 0.8, temperature: 0.5, dt: 0.01 }
}

fn parse_md(list: &[&str]) -> Result<Command<f64>, String> {
    parse(&args(list), &number, defaults())
}

fn run_args(list: &[&str]) -> RunArgs<f64> {
    match parse_md(list) {
        Ok(Command::Run(r)) => r,
        Ok(_) => panic!("expected Run"),
        Err(e) => panic!("unexpected error: {e}"),
    }
}

fn error_of(list: &[&str]) -> String {
    match parse_md(list) {
        Err(e) => e,
        Ok(_) => panic!("expected an error"),
    }
}

#[test]
fn greeting_is_correct() {
    assert_eq!(greeting(), "Hello, world!");
}

#[test]
fn parse_run_defaults() {
    match parse_md(&["md", "run"]).unwrap() {
        Command::Run(r) => {
            assert_eq!(r.n, 100);
            assert_eq!(r.rho, 0.8);
            assert_eq!(r.temperature, 0.5);
            assert_eq!(r.dt, 0.01);
            assert_eq!(r.eq_steps, 2000);
            assert_eq!(r.steps, 10000);
            assert_eq!(r.sample_every, 50);
            assert_eq!(r.seed, 2026);
            assert_eq!(r.out, "artifacts");
        }
        _ => panic!("expected Run"),
    }
}

#[test]
fn parse_run_overrides() {
    match parse_md(&["md", "run", "--n", "36", "--out", "x"]).unwrap() {
        Command::Run(r) => {
            assert_eq!(r.n, 36);
            assert_eq!(r.out, "x");
        }
        _ => panic!("expected Run"),
    }
}

#[test]
fn parse_check_and_video() {
    match parse_md(&["md", "check", "dir"]).unwrap() {
        Command::Check { dir } => assert_eq!(dir, "dir"),
        _ => panic!("expected Check"),
    }
    match parse_md(&["md", "video", "dir", "--out", "o.mp4"]).unwrap() {
        Command::Video { dir, out } => {
            assert_eq!(dir, "dir");
            assert_eq!(out, "o.mp4");
        }
        _ => panic!("expected Video"),
    }
}

#[test]
fn parse_run_force_defaults_to_cells() {
    match parse_md(&["md", "run"]).unwrap() {
        Command::Run(r) => assert_eq!(r.force, ForceMethod::Cells),
        _ => panic!("expected Run"),
    }
}

#[test]
fn parse_run_force_naive() {
    match parse_md(&["md", "run", "--force", "naive"]).unwrap() {
        Command::Run(r) => assert_eq!(r.force, ForceMethod::Naive),
        _ => panic!("expected Run"),
    }
}

#[test]
fn parse_run_force_cells() {
    match parse_md(&["md", "run", "--force", "cells"]).unwrap() {
        Command::Run(r) => assert_eq!(r.force, ForceMethod::Cells),
        _ => panic!("expected Run"),
    }
}

#[test]
fn parse_run_force_rejects_invalid() {
    match parse_md(&["md", "run", "--force", "bogus"]) {
        Err(msg) => assert!(msg.contains("invalid --force"), "error was: {msg}"),
        Ok(_) => panic!("expected an error for an invalid --force value"),
    }
}

#[test]
fn lattice_rejects_unsupported_n() {
    assert!(lattice_side(50).is_err());
    assert!(lattice_side(81).is_err());
}

#[test]
fn lattice_side_of_supported_counts() {
    assert_eq!(lattice_side(100), Ok(10));
    assert_eq!(lattice_side(36), Ok(6));
    assert_eq!(lattice_side(4), Ok(2));
    assert_eq!(lattice_side(10_000), Ok(100));
}

#[test]
fn lattice_side_rejects_odd_sides_and_tiny_counts() {
    assert_eq!(
        lattice_side(81),
        Err("n = 81 is not supported: need n = m^2 with even m (default 100 = 10x10)".to_string())
    );
    assert!(lattice_side(0).is_err());
    assert!(lattice_side(1).is_err());
    assert!(lattice_side(99).is_err());
    assert!(lattice_side(101).is_err());
}

#[test]
fn run_settings_read_every_flag() {
    let r = run_args(&[
        "md", "run", "--n", "64", "--rho", "0.7", "--temperature", "1.25", "--dt", "0.005",
        "--eq-steps", "10", "--steps", "20", "--sample-every", "5", "--seed", "7", "--force",
        "naive", "--out", "runs/a",
    ]);
    assert_eq!(r.n, 64);
    assert_eq!(r.rho, 0.7);
    assert_eq!(r.temperature, 1.25);
    assert_eq!(r.dt, 0.005);
    assert_eq!(r.eq_steps, 10);
    assert_eq!(r.steps, 20);
    assert_eq!(r.sample_every, 5);
    assert_eq!(r.seed, 7);
    assert_eq!(r.force, ForceMethod::Naive);
    assert_eq!(r.out, "runs/a");
    assert_eq!(r.ramp_to, None);
}

#[test]
fn heating_target_is_read_when_given() {
    let r = run_args(&["md", "run", "--temperature", "0.2", "--ramp-to", "1.2"]);
    assert_eq!(r.temperature, 0.2);
    assert_eq!(r.ramp_to, Some(1.2));
    assert_eq!(error_of(&["md", "run", "--ramp-to", "hot"]), "invalid --ramp-to: hot");
}

#[test]
fn verdict_words() {
    assert_eq!(pass(true), "PASS");
    assert_eq!(pass(false), "FAIL");
}

#[test]
fn later_flags_override_earlier_ones() {
    let r = run_args(&["md", "run", "--n", "36", "--n", "16"]);
    assert_eq!(r.n, 16);
}

#[test]
fn run_errors_name_the_flag_and_value() {
    assert_eq!(error_of(&["md", "run", "--n"]), "missing value for --n");
    assert_eq!(error_of(&["md", "run", "--n", "-3"]), "invalid --n: -3");
    assert_eq!(error_of(&["md", "run", "--rho", "dense"]), "invalid --rho: dense");
    assert_eq!(error_of(&["md", "run", "--seed", "1.5"]), "invalid --seed: 1.5");
    assert_eq!(
        error_of(&["md", "run", "--force", "bogus"]),
        "invalid --force: bogus (expected naive or cells)"
    );
    assert_eq!(
        error_of(&["md", "run", "--bogus", "1"]),
        format!("unknown flag: --bogus\n{}", usage())
    );
}

#[test]
fn check_and_video_defaults_and_errors() {
    match parse_md(&["md", "check"]).unwrap() {
        Command::Check { dir } => assert_eq!(dir, "artifacts"),
        _ => panic!("expected Check"),
    }
    match parse_md(&["md", "video"]).unwrap() {
        Command::Video { dir, out } => {
            assert_eq!(dir, "artifacts");
            assert_eq!(out, "artifacts/run.mp4");
        }
        _ => panic!("expected Video"),
    }
    assert_eq!(
        error_of(&["md", "check", "--x"]),
        format!("unknown flag: --x\n{}", usage())
    );
    assert_eq!(error_of(&["md", "video", "--out"]), "missing value for --out");
}

#[test]
fn missing_or_unknown_subcommand() {
    assert_eq!(error_of(&["md"]), usage());
    assert_eq!(error_of(&["md", "--help"]), usage());
    assert_eq!(
        error_of(&["md", "fly"]),
        format!("unknown subcommand: fly\n{}", usage())
    );
}

#[test]
fn force_method_names_round_trip() {
    for m in [ForceMethod::Naive, ForceMethod::Cells] {
        assert_eq!(ForceMethod::parse(m.as_str()), Ok(m));
    }
    assert_eq!(ForceMethod::Naive.as_str(), "naive");
    assert_eq!(ForceMethod::Cells.as_str(), "cells");
    assert_eq!(ForceMethod::default(), ForceMethod::Naive);
}

#[test]
fn force_method_error_quotes_the_text() {
    assert_eq!(
        ForceMethod::parse("bo\"gus"),
        Err("expected naive or cells, got \"bo\\\"gus\"".to_string())
    );
}

#[test]
fn video_size_rule() {
    let ok = video_report(200, "artifacts/run.mp4".to_string(), 1_999_999).unwrap();
    assert_eq!(ok.frames, 200);
    assert_eq!(ok.out_path, "artifacts/run.mp4");
    assert_eq!(ok.size_bytes, 1_999_999);
    match video_report(200, "big.mp4".to_string(), MAX_VIDEO_BYTES) {
        Err(e) => assert_eq!(e, "video too large: 2000000 bytes"),
        Ok(_) => panic!("expected the size limit to refuse the video"),
    }
}

#[test]
fn frame_files_follow_the_encoder_pattern() {
    assert_eq!(frame_file_name(0), "frame_00000.ppm");
    assert_eq!(frame_file_name(7), "frame_00007.ppm");
    assert_eq!(frame_file_name(199), "frame_00199.ppm");
    assert_eq!(frame_file_name(99_999), "frame_99999.ppm");
}

#[test]
fn ppm_header_and_bytes() {
    let mut canvas = Canvas::new(3, 2, (255, 255, 255));
    canvas.put(1, 0, (1, 2, 3));
    canvas.put(2, 1, (9, 8, 7));
    canvas.put(-1, 0, (0, 0, 0));
    canvas.put(3, 0, (0, 0, 0));
    canvas.put(0, 2, (0, 0, 0));
    let bytes = canvas.ppm();
    let header = b"P6\n3 2\n255\n";
    assert_eq!(&bytes[..header.len()], header);
    assert_eq!(bytes.len(), header.len() + 3 * 2 * 3);
    let pixels = &bytes[header.len()..];
    assert_eq!(&pixels[0..3], &[255, 255, 255]);
    assert_eq!(&pixels[3..6], &[1, 2, 3]);
    assert_eq!(&pixels[6..9], &[255, 255, 255]);
    assert_eq!(&pixels[9..15], &[255, 255, 255, 255, 255, 255]);
    assert_eq!(&pixels[15..18], &[9, 8, 7]);
    let wide = Canvas::new(960, 480, (0, 0, 0)).ppm();
    assert!(wide.starts_with(b"P6\n960 480\n255\n"));
    assert_eq!(wide.len(), b"P6\n960 480\n255\n".len() + 960 * 480 * 3);
}

#[test]
fn drift_window_is_a_tenth_of_the_frames_at_least_one() {
    assert_eq!(drift_window(1), 1);
    assert_eq!(drift_window(9), 1);
    assert_eq!(drift_window(10), 1);
    assert_eq!(drift_window(25), 2);
    assert_eq!(drift_window(200), 20);
}

#[test]
fn thermostat_and_sampling_schedule() {
    assert!(rescales_during_equilibration(0));
    assert!(!rescales_during_equilibration(49));
    assert!(rescales_during_equilibration(100));
    assert_eq!(production_plan(50, 50, false), StepPlan { rescale: false, save: true });
    assert_eq!(production_plan(100, 30, true), StepPlan { rescale: true, save: false });
    assert_eq!(production_plan(90, 30, true), StepPlan { rescale: false, save: true });
    let saved: Vec<usize> = (1..=200).filter(|&s| production_plan(s, 50, false).save).collect();
    assert_eq!(saved, vec![50, 100, 150, 200]);
}

//! Command-line parsing for `md run|check|video`.
//!
//! The floating-point settings (density, temperature, time step) are read by a
//! caller-supplied reader and carried as values of the caller's number type;
//! their defaults come in that type too.

use vstd::prelude::*;
use vstd::string::*;
use crate::md::cell_list::{ForceMethod, force_from_text};
use crate::text::{is_text, usize_from_text, u64_from_text, usize_value, u64_value, starts_with_dashes, flag_like};

verus! {

/// The usage text of the `md` program.
pub const USAGE: &'static str = "usage:\n  md run [--n 100] [--rho 0.8] [--temperature 0.5] [--dt 0.01] [--eq-steps 2000] [--steps 10000] [--sample-every 50] [--seed 2026] [--force naive|cells] [--out artifacts]\n  md check [artifacts]\n  md video [artifacts] [--out artifacts/run.mp4]";

/// The usage text of the `md` program.
pub fn usage() -> (r: String)
    ensures
        r@ == USAGE@,
{
    String::from_str(USAGE)
}

/// The floating-point defaults of `md run` in the caller's number type; the
/// program's are density 0.8, temperature 0.5 and time step 0.01.
pub struct FloatDefaults<F> {
    pub rho: F,
    pub temperature: F,
    pub dt: F,
}

/// Settings of `md run`.
pub struct RunArgs<F> {
    pub n: usize,
    pub rho: F,
    pub temperature: F,
    pub dt: F,
    pub eq_steps: usize,
    pub steps: usize,
    pub sample_every: usize,
    pub seed: u64,
    pub force: ForceMethod,
    pub out: String,
    /// Final target temperature of a heating run (`--ramp-to`), if any.
    pub ramp_to: Option<F>,
}

/// The plain contents of [`RunArgs`].
pub struct RunArgsView<F> {
    pub n: usize,
    pub rho: F,
    pub temperature: F,
    pub dt: F,
    pub eq_steps: usize,
    pub steps: usize,
    pub sample_every: usize,
    pub seed: u64,
    pub force: ForceMethod,
    pub out: Seq<char>,
    pub ramp_to: Option<F>,
}

impl<F> View for RunArgs<F> {
    type V = RunArgsView<F>;

    open spec fn view(&self) -> RunArgsView<F> {
        RunArgsView {
            n: self.n,
            rho: self.rho,
            temperature: self.temperature,
            dt: self.dt,
            eq_steps: self.eq_steps,
            steps: self.steps,
            sample_every: self.sample_every,
            seed: self.seed,
            force: self.force,
            out: self.out@,
            ramp_to: self.ramp_to,
        }
    }
}

/// The default settings of `md run`, with the given floating-point defaults.
pub open spec fn default_run<F>(d: FloatDefaults<F>) -> RunArgsView<F> {
    RunArgsView {
        n: 100,
        rho: d.rho,
        temperature: d.temperature,
        dt: d.dt,
        eq_steps: 2000,
        steps: 10000,
        sample_every: 50,
        seed: 2026,
        force: ForceMethod::Cells,
        out: "artifacts"@,
        ramp_to: None,
    }
}

impl<F> RunArgs<F> {
    /// The default settings of `md run`, with the given floating-point
    /// defaults.
    pub fn with_defaults(d: FloatDefaults<F>) -> (r: Self)
        ensures
            r@ == default_run(d),
    {
        RunArgs {
            n: 100,
            rho: d.rho,
            temperature: d.temperature,
            dt: d.dt,
            eq_steps: 2000,
            steps: 10000,
            sample_every: 50,
            seed: 2026,
            force: ForceMethod::Cells,
            out: String::from_str("artifacts"),
            ramp_to: None,
        }
    }
}

/// A parsed `md` command line.
pub enum Command<F> {
    Run(RunArgs<F>),
    Check { dir: String },
    Video { dir: String, out: String },
}

/// The plain contents of a [`Command`].
pub enum CommandView<F> {
    Run(RunArgsView<F>),
    Check { dir: Seq<char> },
    Video { dir: Seq<char>, out: Seq<char> },
}

impl<F> View for Command<F> {
    type V = CommandView<F>;

    open spec fn view(&self) -> CommandView<F> {
        match self {
            Command::Run(r) => CommandView::Run(r@),
            Command::Check { dir } => CommandView::Check { dir: dir@ },
            Command::Video { dir, out } => CommandView::Video { dir: dir@, out: out@ },
        }
    }
}

/// `readings` says what the reader `number` gives: every value that
/// `number` can return for a text is `readings` of that text.
pub open spec fn reader_agrees<F, N: Fn(&String) -> Option<F>>(
    number: N,
    readings: spec_fn(Seq<char>) -> Option<F>,
) -> bool {
    forall|a: &String, x: Option<F>| #[trigger] call_ensures(number, (a,), x) ==> readings(a@) == x
}

/// Error text of a flag whose value does not read.
pub open spec fn invalid_error(key: Seq<char>, value: Seq<char>) -> Seq<char> {
    "invalid "@ + key + ": "@ + value
}

/// Error text of an unknown flag.
pub open spec fn unknown_flag_error(key: Seq<char>) -> Seq<char> {
    "unknown flag: "@ + key + "\n"@ + USAGE@
}

/// The effect of one `key value` pair of `md run`.
pub open spec fn apply_run_flag<F>(
    key: Seq<char>,
    value: Seq<char>,
    reading: Option<F>,
    st: RunArgsView<F>,
) -> Result<RunArgsView<F>, Seq<char>> {
    if key == "--n"@ {
        match usize_value(value) {
            Some(v) => Ok(RunArgsView { n: v, ..st }),
            None => Err(invalid_error(key, value)),
        }
    } else if key == "--rho"@ {
        match reading {
            Some(v) => Ok(RunArgsView { rho: v, ..st }),
            None => Err(invalid_error(key, value)),
        }
    } else if key == "--temperature"@ {
        match reading {
            Some(v) => Ok(RunArgsView { temperature: v, ..st }),
            None => Err(invalid_error(key, value)),
        }
    } else if key == "--dt"@ {
        match reading {
            Some(v) => Ok(RunArgsView { dt: v, ..st }),
            None => Err(invalid_error(key, value)),
        }
    } else if key == "--ramp-to"@ {
        match reading {
            Some(v) => Ok(RunArgsView { ramp_to: Some(v), ..st }),
            None => Err(invalid_error(key, value)),
        }
    } else if key == "--eq-steps"@ {
        match usize_value(value) {
            Some(v) => Ok(RunArgsView { eq_steps: v, ..st }),
            None => Err(invalid_error(key, value)),
        }
    } else if key == "--steps"@ {
        match usize_value(value) {
            Some(v) => Ok(RunArgsView { steps: v, ..st }),
            None => Err(invalid_error(key, value)),
        }
    } else if key == "--sample-every"@ {
        match usize_value(value) {
            Some(v) => Ok(RunArgsView { sample_every: v, ..st }),
            None => Err(invalid_error(key, value)),
        }
    } else if key == "--seed"@ {
        match u64_value(value) {
            Some(v) => Ok(RunArgsView { seed: v, ..st }),
            None => Err(invalid_error(key, value)),
        }
    } else if key == "--force"@ {
        match force_from_text(value) {
            Some(m) => Ok(RunArgsView { force: m, ..st }),
            None => Err(invalid_error(key, value) + " (expected naive or cells)"@),
        }
    } else if key == "--out"@ {
        Ok(RunArgsView { out: value, ..st })
    } else {
        Err(unknown_flag_error(key))
    }
}

/// Scans the `key value` pairs of `md run` from position `i` on.
pub open spec fn scan_run<F>(
    args: Seq<Seq<char>>,
    readings: spec_fn(Seq<char>) -> Option<F>,
    i: int,
    st: RunArgsView<F>,
) -> Result<RunArgsView<F>, Seq<char>>
    decreases args.len() - i,
{
    if i >= args.len() {
        Ok(st)
    } else if i + 1 >= args.len() {
        Err("missing value for "@ + args[i])
    } else {
        match apply_run_flag(args[i], args[i + 1], readings(args[i + 1]), st) {
            Ok(next) => scan_run(args, readings, i + 2, next),
            Err(e) => Err(e),
        }
    }
}

/// Scans the arguments of `md check` from position `i` on: the last plain
/// argument names the folder.
pub open spec fn scan_check(args: Seq<Seq<char>>, i: int, dir: Seq<char>) -> Result<
    Seq<char>,
    Seq<char>,
>
    decreases args.len() - i,
{
    if i >= args.len() {
        Ok(dir)
    } else if flag_like(args[i]) {
        Err(unknown_flag_error(args[i]))
    } else {
        scan_check(args, i + 1, args[i])
    }
}

/// Scans the arguments of `md video` from position `i` on.
pub open spec fn scan_video(args: Seq<Seq<char>>, i: int, dir: Seq<char>, out: Seq<char>) -> Result<
    (Seq<char>, Seq<char>),
    Seq<char>,
>
    decreases args.len() - i,
{
    if i >= args.len() {
        Ok((dir, out))
    } else if args[i] == "--out"@ {
        if i + 1 >= args.len() {
            Err("missing value for --out"@)
        } else {
            scan_video(args, i + 2, dir, args[i + 1])
        }
    } else if flag_like(args[i]) {
        Err(unknown_flag_error(args[i]))
    } else {
        scan_video(args, i + 1, args[i], out)
    }
}

/// What `parse` gives for the argument texts (program name first).
pub open spec fn parse_model<F>(
    args: Seq<Seq<char>>,
    readings: spec_fn(Seq<char>) -> Option<F>,
    defaults: FloatDefaults<F>,
) -> Result<CommandView<F>, Seq<char>> {
    if args.len() < 2 {
        Err(USAGE@)
    } else if args[1] == "run"@ {
        match scan_run(args, readings, 2, default_run(defaults)) {
            Ok(r) => Ok(CommandView::Run(r)),
            Err(e) => Err(e),
        }
    } else if args[1] == "check"@ {
        match scan_check(args, 2, "artifacts"@) {
            Ok(d) => Ok(CommandView::Check { dir: d }),
            Err(e) => Err(e),
        }
    } else if args[1] == "video"@ {
        match scan_video(args, 2, "artifacts"@, "artifacts/run.mp4"@) {
            Ok(p) => Ok(CommandView::Video { dir: p.0, out: p.1 }),
            Err(e) => Err(e),
        }
    } else if args[1] == "help"@ || args[1] == "--help"@ || args[1] == "-h"@ {
        Err(USAGE@)
    } else {
        Err("unknown subcommand: "@ + args[1] + "\n"@ + USAGE@)
    }
}


fn invalid_message(key: &String, value: &String) -> (e: String)
    ensures
        e@ == invalid_error(key@, value@),
{
    let mut e = String::from_str("invalid ");
    e.append(key.as_str());
    e.append(": ");
    e.append(value.as_str());
    e
}

fn unknown_flag_message(key: &String) -> (e: String)
    ensures
        e@ == unknown_flag_error(key@),
{
    let mut e = String::from_str("unknown flag: ");
    e.append(key.as_str());
    e.append("\n");
    e.append(USAGE);
    e
}

fn parse_run<F: Copy, N: Fn(&String) -> Option<F>>(
    args: &Vec<String>,
    start: usize,
    number: &N,
    defaults: FloatDefaults<F>,
) -> (r: Result<Command<F>, String>)
    requires
        forall|a: &String| call_requires(*number, (a,)),
    ensures
        forall|readings: spec_fn(Seq<char>) -> Option<F>|
            reader_agrees(*number, readings) ==> command_view(r) == match #[trigger] scan_run(
                arg_texts(args@),
                readings,
                start as int,
                default_run(defaults),
            ) {
                Ok(v) => Ok(CommandView::Run(v)),
                Err(e) => Err(e),
            },
{
    let ghost texts = arg_texts(args@);
    let ghost d = defaults;
    let mut run: RunArgs<F> = RunArgs::with_defaults(defaults);
    let mut i = start;
    while i < args.len()
        invariant
            texts == arg_texts(args@),
            forall|a: &String| call_requires(*number, (a,)),
            d == defaults,
            forall|readings: spec_fn(Seq<char>) -> Option<F>|
                reader_agrees(*number, readings) ==> #[trigger] scan_run(
                    texts,
                    readings,
                    start as int,
                    default_run(d),
                ) == scan_run(texts, readings, i as int, run@),
        decreases args.len() - i,
    {
        let key = &args[i];
        if i + 1 >= args.len() {
            let mut e = String::from_str("missing value for ");
            e.append(key.as_str());
            return Err(e);
        }
        let value = &args[i + 1];
        assert(texts[i as int] == key@ && texts[i + 1] == value@);
        if is_text(key, "--n") {
            match usize_from_text(value.as_str()) {
                Some(v) => run.n = v,
                None => return Err(invalid_message(key, value)),
            }
        } else if is_text(key, "--rho") || is_text(key, "--temperature") || is_text(key, "--dt")
            || is_text(key, "--ramp-to") {
            let got = number(value);
            match got {
                Some(v) => {
                    if is_text(key, "--rho") {
                        run.rho = v;
                    } else if is_text(key, "--temperature") {
                        run.temperature = v;
                    } else if is_text(key, "--dt") {
                        run.dt = v;
                    } else {
                        run.ramp_to = Some(v);
                    }
                },
                None => return Err(invalid_message(key, value)),
            }
        } else if is_text(key, "--eq-steps") {
            match usize_from_text(value.as_str()) {
                Some(v) => run.eq_steps = v,
                None => return Err(invalid_message(key, value)),
            }
        } else if is_text(key, "--steps") {
            match usize_from_text(value.as_str()) {
                Some(v) => run.steps = v,
                None => return Err(invalid_message(key, value)),
            }
        } else if is_text(key, "--sample-every") {
            match usize_from_text(value.as_str()) {
                Some(v) => run.sample_every = v,
                None => return Err(invalid_message(key, value)),
            }
        } else if is_text(key, "--seed") {
            match u64_from_text(value.as_str()) {
                Some(v) => run.seed = v,
                None => return Err(invalid_message(key, value)),
            }
        } else if is_text(key, "--force") {
            match ForceMethod::parse(value.as_str()) {
                Ok(m) => run.force = m,
                Err(_) => {
                    let mut e = invalid_message(key, value);
                    e.append(" (expected naive or cells)");
                    return Err(e);
                },
            }
        } else if is_text(key, "--out") {
            run.out = value.clone();
        } else {
            return Err(unknown_flag_message(key));
        }
        i = i + 2;
    }
    Ok(Command::Run(run))
}

fn parse_check<F>(args: &Vec<String>, start: usize) -> (r: Result<Command<F>, String>)
    ensures
        command_view(r) == match scan_check(arg_texts(args@), start as int, "artifacts"@) {
            Ok(d) => Ok(CommandView::<F>::Check { dir: d }),
            Err(e) => Err(e),
        },
{
    let ghost texts = arg_texts(args@);
    let mut dir = String::from_str("artifacts");
    let mut i = start;
    while i < args.len()
        invariant
            texts == arg_texts(args@),
            scan_check(texts, start as int, "artifacts"@) == scan_check(texts, i as int, dir@),
        decreases args.len() - i,
    {
        let a = &args[i];
        assert(texts[i as int] == a@);
        if starts_with_dashes(a.as_str()) {
            return Err(unknown_flag_message(a));
        }
        dir = a.clone();
        i = i + 1;
    }
    Ok(Command::Check { dir })
}

fn parse_video<F>(args: &Vec<String>, start: usize) -> (r: Result<Command<F>, String>)
    ensures
        command_view(r) == match scan_video(
            arg_texts(args@),
            start as int,
            "artifacts"@,
            "artifacts/run.mp4"@,
        ) {
            Ok(p) => Ok(CommandView::<F>::Video { dir: p.0, out: p.1 }),
            Err(e) => Err(e),
        },
{
    let ghost texts = arg_texts(args@);
    let mut dir = String::from_str("artifacts");
    let mut out = String::from_str("artifacts/run.mp4");
    let mut i = start;
    while i < args.len()
        invariant
            texts == arg_texts(args@),
            scan_video(texts, start as int, "artifacts"@, "artifacts/run.mp4"@) == scan_video(
                texts,
                i as int,
                dir@,
                out@,
            ),
        decreases args.len() - i,
    {
        let a = &args[i];
        assert(texts[i as int] == a@);
        if is_text(a, "--out") {
            if i + 1 >= args.len() {
                return Err(String::from_str("missing value for --out"));
            }
            assert(texts[i + 1] == args@[i + 1]@);
            out = args[i + 1].clone();
            i = i + 2;
        } else {
            if starts_with_dashes(a.as_str()) {
                return Err(unknown_flag_message(a));
            }
            dir = a.clone();
            i = i + 1;
        }
    }
    Ok(Command::Video { dir, out })
}

/// Parse `args` (program name first) into a [`Command`].
pub fn parse<F: Copy, N: Fn(&String) -> Option<F>>(
    args: &Vec<String>,
    number: &N,
    defaults: FloatDefaults<F>,
) -> (r: Result<Command<F>, String>)
    requires
        args@.len() >= 1,
        forall|a: &String| call_requires(*number, (a,)),
    ensures
        forall|readings: spec_fn(Seq<char>) -> Option<F>|
            reader_agrees(*number, readings) ==> command_view(r) == #[trigger] parse_model(
                arg_texts(args@),
                readings,
                defaults,
            ),
{
    if args.len() < 2 {
        return Err(usage());
    }
    let sub = &args[1];
    assert(arg_texts(args@)[1] == sub@);
    if is_text(sub, "run") {
        parse_run(args, 2, number, defaults)
    } else if is_text(sub, "check") {
        parse_check(args, 2)
    } else if is_text(sub, "video") {
        parse_video(args, 2)
    } else if is_text(sub, "help") || is_text(sub, "--help") || is_text(sub, "-h") {
        Err(usage())
    } else {
        let mut e = String::from_str("unknown subcommand: ");
        e.append(sub.as_str());
        e.append("\n");
        e.append(USAGE);
        Err(e)
    }
}

/// The plain contents of a parse result.
pub open spec fn command_view<F>(r: Result<Command<F>, String>) -> Result<CommandView<F>, Seq<char>> {
    match r {
        Ok(c) => Ok(c@),
        Err(e) => Err(e@),
    }
}

/// The texts of the arguments.
pub open spec fn arg_texts(args: Seq<String>) -> Seq<Seq<char>> {
    args.map_values(|s: String| s@)
}

} // verus!

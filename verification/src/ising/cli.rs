//! Command-line parsing for the Ising sampler.
//!
//! Temperatures are floating-point numbers, which this library does not hold:
//! the caller supplies how a temperature text is read (`number`) and how two
//! temperatures compare (`below`); everything else is decided here.

use vstd::prelude::*;
use vstd::string::*;
use crate::ising::simulation::{Update, update_from_text, update_error};
use crate::text::{is_text, usize_from_text, u64_from_text, usize_value, u64_value, push_decimal, decimal};

verus! {

/// The usage text of the `ising` program.
pub const USAGE: &'static str = "usage:
  ising --update metropolis|wolff --l <L> --t-from <T> --t-to <T> --t-step <dT> \\
        --discard <n> --measure <n> --seed <n> [--every <n>] --out <folder>

options:
  --update    metropolis (L*L single-site proposals per step) or wolff (one cluster flip per step)
  --l         integer lattice side, at least 2
  --t-from    lowest temperature; the ramp ascends from here, from an all-up lattice
  --t-to      temperature upper bound; included only if reached by the step
  --t-step    temperature step; each temperature starts from the previous lattice
  --discard   equilibration steps discarded at each temperature
  --measure   measured steps at each temperature
  --seed      random seed; one stream per run, carried through the ramp
  --every     record frames at measured steps every, 2*every, ... (default 0 = none)
  --out       output folder; may exist, same-named files are overwritten";

/// The usage text of the `ising` program.
pub fn usage() -> (r: String)
    ensures
        r@ == USAGE@,
{
    String::from_str(USAGE)
}

/// A temperature read from the command line: its value, how it prints, and
/// whether it is above zero.
pub struct Reading<F> {
    pub value: F,
    pub shown: String,
    pub exceeds_zero: bool,
}

/// The characters of an optional text.
pub open spec fn text_view(o: Option<String>) -> Option<Seq<char>> {
    match o {
        Some(t) => Some(t@),
        None => None,
    }
}

/// The plain contents of an optional reading.
pub open spec fn reading_view<F>(r: Option<Reading<F>>) -> Option<(F, Seq<char>, bool)> {
    match r {
        Some(x) => Some((x.value, x.shown@, x.exceeds_zero)),
        None => None,
    }
}

/// `readings` says what the reader `number` gives: every reading that
/// `number` can return for a text is `readings` of that text.
pub open spec fn reader_agrees<F, N: Fn(&String) -> Option<Reading<F>>>(
    number: N,
    readings: spec_fn(Seq<char>) -> Option<(F, Seq<char>, bool)>,
) -> bool {
    forall|a: &String, x: Option<Reading<F>>| #[trigger] call_ensures(number, (a,), x) ==> readings(a@)
        == reading_view(x)
}

/// `lt` says what the order `below` answers for every two values.
pub open spec fn order_agrees<F, B: Fn(&F, &F) -> bool>(below: B, lt: spec_fn(F, F) -> bool) -> bool {
    forall|x: &F, y: &F, r: bool| #[trigger] call_ensures(below, (x, y), r) ==> r == lt(*x, *y)
}

/// Fully validated run parameters.
pub struct Config<F> {
    pub update: Update,
    pub l: usize,
    pub t_from: F,
    pub t_to: F,
    pub t_step: F,
    pub discard: usize,
    pub measure: usize,
    pub every: usize,
    pub seed: u64,
    pub out: String,
}

/// The plain contents of a [`Config`].
pub struct ConfigView<F> {
    pub update: Update,
    pub l: usize,
    pub t_from: F,
    pub t_to: F,
    pub t_step: F,
    pub discard: usize,
    pub measure: usize,
    pub every: usize,
    pub seed: u64,
    pub out: Seq<char>,
}

impl<F> View for Config<F> {
    type V = ConfigView<F>;

    open spec fn view(&self) -> ConfigView<F> {
        ConfigView {
            update: self.update,
            l: self.l,
            t_from: self.t_from,
            t_to: self.t_to,
            t_step: self.t_step,
            discard: self.discard,
            measure: self.measure,
            every: self.every,
            seed: self.seed,
            out: self.out@,
        }
    }
}

/// Arguments seen so far while scanning the command line.
pub struct Scanned<F> {
    pub update: Option<Update>,
    pub l: Option<usize>,
    pub t_from: Option<(F, Seq<char>, bool)>,
    pub t_to: Option<(F, Seq<char>, bool)>,
    pub t_step: Option<(F, Seq<char>, bool)>,
    pub discard: Option<usize>,
    pub measure: Option<usize>,
    pub every: usize,
    pub seed: Option<u64>,
    pub out: Option<Seq<char>>,
}

/// Nothing seen yet; `--every` defaults to zero.
pub open spec fn nothing_scanned<F>() -> Scanned<F> {
    Scanned {
        update: None,
        l: None,
        t_from: None,
        t_to: None,
        t_step: None,
        discard: None,
        measure: None,
        every: 0,
        seed: None,
        out: None,
    }
}

/// Error text for a flag whose value is not a non-negative integer.
pub open spec fn integer_error(flag: Seq<char>, value: Seq<char>) -> Seq<char> {
    "invalid "@ + flag + ": "@ + value + " (expected a non-negative integer)"@
}

/// Error text for a flag whose value is not a number.
pub open spec fn number_error(flag: Seq<char>, value: Seq<char>) -> Seq<char> {
    "invalid "@ + flag + ": "@ + value + " (expected a number)"@
}

/// Error text for a flag given last, without a value.
pub open spec fn missing_value_error(key: Seq<char>) -> Seq<char> {
    "missing value for "@ + key + "\n"@ + USAGE@
}

/// Error text for an unknown flag.
pub open spec fn unknown_error(key: Seq<char>) -> Seq<char> {
    "unknown argument: "@ + key + "\n"@ + USAGE@
}

/// The effect of one `key value` pair.
pub open spec fn apply_flag<F>(
    key: Seq<char>,
    value: Seq<char>,
    reading: Option<(F, Seq<char>, bool)>,
    st: Scanned<F>,
) -> Result<Scanned<F>, Seq<char>> {
    if key == "--update"@ {
        match update_from_text(value) {
            Some(u) => Ok(Scanned { update: Some(u), ..st }),
            None => Err(update_error(value)),
        }
    } else if key == "--l"@ {
        match usize_value(value) {
            Some(v) => Ok(Scanned { l: Some(v), ..st }),
            None => Err(integer_error("--l"@, value)),
        }
    } else if key == "--t-from"@ {
        match reading {
            Some(r) => Ok(Scanned { t_from: Some(r), ..st }),
            None => Err(number_error("--t-from"@, value)),
        }
    } else if key == "--t-to"@ {
        match reading {
            Some(r) => Ok(Scanned { t_to: Some(r), ..st }),
            None => Err(number_error("--t-to"@, value)),
        }
    } else if key == "--t-step"@ {
        match reading {
            Some(r) => Ok(Scanned { t_step: Some(r), ..st }),
            None => Err(number_error("--t-step"@, value)),
        }
    } else if key == "--discard"@ {
        match usize_value(value) {
            Some(v) => Ok(Scanned { discard: Some(v), ..st }),
            None => Err(integer_error("--discard"@, value)),
        }
    } else if key == "--measure"@ {
        match usize_value(value) {
            Some(v) => Ok(Scanned { measure: Some(v), ..st }),
            None => Err(integer_error("--measure"@, value)),
        }
    } else if key == "--every"@ {
        match usize_value(value) {
            Some(v) => Ok(Scanned { every: v, ..st }),
            None => Err(integer_error("--every"@, value)),
        }
    } else if key == "--seed"@ {
        match u64_value(value) {
            Some(v) => Ok(Scanned { seed: Some(v), ..st }),
            None => Err(integer_error("--seed"@, value)),
        }
    } else if key == "--out"@ {
        Ok(Scanned { out: Some(value), ..st })
    } else {
        Err(unknown_error(key))
    }
}

/// Scans the `key value` pairs from position `i` on.
pub open spec fn scan<F>(
    args: Seq<Seq<char>>,
    readings: spec_fn(Seq<char>) -> Option<(F, Seq<char>, bool)>,
    i: int,
    st: Scanned<F>,
) -> Result<Scanned<F>, Seq<char>>
    decreases args.len() - i,
{
    if i >= args.len() {
        Ok(st)
    } else if i + 1 >= args.len() {
        Err(missing_value_error(args[i]))
    } else {
        match apply_flag(args[i], args[i + 1], readings(args[i + 1]), st) {
            Ok(next) => scan(args, readings, i + 2, next),
            Err(e) => Err(e),
        }
    }
}

/// The required flags that were not given, in the order they are listed.
pub open spec fn missing_flags<F>(st: Scanned<F>) -> Seq<Seq<char>> {
    absent_names(
        st.update is Some,
        st.l is Some,
        st.t_from is Some,
        st.t_to is Some,
        st.t_step is Some,
        st.discard is Some,
        st.measure is Some,
        st.seed is Some,
        st.out is Some,
    )
}

/// The texts joined with `sep` between neighbours.
pub open spec fn join(items: Seq<Seq<char>>, sep: Seq<char>) -> Seq<char>
    decreases items.len(),
{
    if items.len() == 0 {
        seq![]
    } else if items.len() == 1 {
        items[0]
    } else {
        join(items.drop_last(), sep) + sep + items.last()
    }
}

/// Checks that every required flag was given and that the values are in range.
pub open spec fn finish<F>(st: Scanned<F>, below: spec_fn(F, F) -> bool) -> Result<
    ConfigView<F>,
    Seq<char>,
> {
    let missing = missing_flags(st);
    if missing.len() > 0 {
        Err("missing required argument(s): "@ + join(missing, ", "@) + "\n"@ + USAGE@)
    } else {
        let l = st.l.unwrap();
        let from = st.t_from.unwrap();
        let to = st.t_to.unwrap();
        let step = st.t_step.unwrap();
        let measure = st.measure.unwrap();
        if l < 2 {
            Err("--l must be at least 2 (got "@ + decimal(l as nat) + ")"@)
        } else if !from.2 {
            Err("--t-from must be positive (got "@ + from.1 + ")"@)
        } else if below(to.0, from.0) {
            Err("--t-to ("@ + to.1 + ") must not be below --t-from ("@ + from.1 + ")"@)
        } else if !step.2 {
            Err("--t-step must be positive (got "@ + step.1 + ")"@)
        } else if measure < 1 {
            Err("--measure must be at least 1 (got "@ + decimal(measure as nat) + ")"@)
        } else {
            Ok(
                ConfigView {
                    update: st.update.unwrap(),
                    l,
                    t_from: from.0,
                    t_to: to.0,
                    t_step: step.0,
                    discard: st.discard.unwrap(),
                    measure,
                    every: st.every,
                    seed: st.seed.unwrap(),
                    out: st.out.unwrap(),
                },
            )
        }
    }
}

/// The range rule of the temperatures: once every required flag is given,
/// the side is at least 2, both `--t-from` and `--t-step` are positive and at
/// least one step is measured, the arguments are accepted exactly when
/// `--t-to` is not below `--t-from` (so a single temperature, `--t-to` equal
/// to `--t-from`, is accepted), and the configuration holds the given values.
pub proof fn lemma_temperature_range_rule<F>(st: Scanned<F>, below: spec_fn(F, F) -> bool)
    requires
        st.update is Some,
        st.l is Some,
        st.t_from is Some,
        st.t_to is Some,
        st.t_step is Some,
        st.discard is Some,
        st.measure is Some,
        st.seed is Some,
        st.out is Some,
        st.l.unwrap() >= 2,
        st.t_from.unwrap().2,
        st.t_step.unwrap().2,
        st.measure.unwrap() >= 1,
    ensures
        finish(st, below) is Ok <==> !below(st.t_to.unwrap().0, st.t_from.unwrap().0),
        finish(st, below) is Ok ==> finish(st, below) == Ok::<ConfigView<F>, Seq<char>>(
            ConfigView {
                update: st.update.unwrap(),
                l: st.l.unwrap(),
                t_from: st.t_from.unwrap().0,
                t_to: st.t_to.unwrap().0,
                t_step: st.t_step.unwrap().0,
                discard: st.discard.unwrap(),
                measure: st.measure.unwrap(),
                every: st.every,
                seed: st.seed.unwrap(),
                out: st.out.unwrap(),
            },
        ),
{
    assert(missing_flags(st) =~= Seq::<Seq<char>>::empty());
}

/// What `parse` gives for the argument texts (program name first).
pub open spec fn parse_model<F>(
    args: Seq<Seq<char>>,
    readings: spec_fn(Seq<char>) -> Option<(F, Seq<char>, bool)>,
    below: spec_fn(F, F) -> bool,
) -> Result<ConfigView<F>, Seq<char>> {
    match scan(args, readings, 1, nothing_scanned()) {
        Ok(st) => finish(st, below),
        Err(e) => Err(e),
    }
}


/// The range rule as `parse` applies it: when scanning the arguments
/// succeeds with every required flag given, a side of at least 2, positive
/// `--t-from` and `--t-step` and at least one measured step, `parse` accepts
/// exactly when `--t-to` is not below `--t-from`.
pub proof fn lemma_parse_temperature_range<F>(
    args: Seq<Seq<char>>,
    readings: spec_fn(Seq<char>) -> Option<(F, Seq<char>, bool)>,
    below: spec_fn(F, F) -> bool,
    st: Scanned<F>,
)
    requires
        scan(args, readings, 1, nothing_scanned()) == Ok::<Scanned<F>, Seq<char>>(st),
        st.update is Some,
        st.l is Some,
        st.t_from is Some,
        st.t_to is Some,
        st.t_step is Some,
        st.discard is Some,
        st.measure is Some,
        st.seed is Some,
        st.out is Some,
        st.l.unwrap() >= 2,
        st.t_from.unwrap().2,
        st.t_step.unwrap().2,
        st.measure.unwrap() >= 1,
    ensures
        parse_model(args, readings, below) is Ok <==> !below(st.t_to.unwrap().0, st.t_from.unwrap().0),
{
    lemma_temperature_range_rule(st, below);
}

/// Reads a non-negative integer for `flag`.
pub fn parse_usize(flag: &str, value: &str) -> (r: Result<usize, String>)
    ensures
        match r {
            Ok(v) => usize_value(value@) == Some(v),
            Err(e) => usize_value(value@) is None && e@ == integer_error(flag@, value@),
        },
{
    match usize_from_text(value) {
        Some(v) => Ok(v),
        None => Err(integer_message(flag, value)),
    }
}

/// Reads a non-negative 64-bit integer for `flag`.
pub fn parse_u64(flag: &str, value: &str) -> (r: Result<u64, String>)
    ensures
        match r {
            Ok(v) => u64_value(value@) == Some(v),
            Err(e) => u64_value(value@) is None && e@ == integer_error(flag@, value@),
        },
{
    match u64_from_text(value) {
        Some(v) => Ok(v),
        None => Err(integer_message(flag, value)),
    }
}

fn integer_message(flag: &str, value: &str) -> (e: String)
    ensures
        e@ == integer_error(flag@, value@),
{
    let mut e = String::from_str("invalid ");
    e.append(flag);
    e.append(": ");
    e.append(value);
    e.append(" (expected a non-negative integer)");
    e
}

/// Reads a temperature for `flag` with the caller's reader.
pub fn parse_number<F, N: Fn(&String) -> Option<Reading<F>>>(
    flag: &str,
    value: &String,
    number: &N,
) -> (r: Result<Reading<F>, String>)
    requires
        forall|a: &String| call_requires(*number, (a,)),
    ensures
        match r {
            Ok(x) => forall|readings: spec_fn(Seq<char>) -> Option<(F, Seq<char>, bool)>|
                reader_agrees(*number, readings) ==> #[trigger] readings(value@) == reading_view(Some(x)),
            Err(e) => e@ == number_error(flag@, value@) && forall|
                readings: spec_fn(Seq<char>) -> Option<(F, Seq<char>, bool)>,
            | reader_agrees(*number, readings) ==> #[trigger] readings(value@) is None,
        },
{
    let got = number(value);
    match got {
        Some(x) => Ok(x),
        None => {
            let mut e = String::from_str("invalid ");
            e.append(flag);
            e.append(": ");
            e.append(value.as_str());
            e.append(" (expected a number)");
            Err(e)
        },
    }
}


/// The names of the required flags whose `present` bit is false, in order.
pub open spec fn absent_names(
    update: bool,
    l: bool,
    t_from: bool,
    t_to: bool,
    t_step: bool,
    discard: bool,
    measure: bool,
    seed: bool,
    out: bool,
) -> Seq<Seq<char>> {
    (if !update { seq!["--update"@] } else { seq![] }) + (if !l { seq!["--l"@] } else { seq![] }) + (
    if !t_from {
        seq!["--t-from"@]
    } else {
        seq![]
    }) + (if !t_to { seq!["--t-to"@] } else { seq![] }) + (if !t_step {
        seq!["--t-step"@]
    } else {
        seq![]
    }) + (if !discard { seq!["--discard"@] } else { seq![] }) + (if !measure {
        seq!["--measure"@]
    } else {
        seq![]
    }) + (if !seed { seq!["--seed"@] } else { seq![] }) + (if !out { seq!["--out"@] } else { seq![] })
}

proof fn lemma_join_push(items: Seq<Seq<char>>, sep: Seq<char>, last: Seq<char>)
    ensures
        join(items.push(last), sep) == if items.len() == 0 {
            last
        } else {
            join(items, sep) + sep + last
        },
{
    assert(items.push(last).drop_last() =~= items);
}

fn note_absent(
    text: &mut String,
    count: usize,
    present: bool,
    name: &str,
    Ghost(names): Ghost<Seq<Seq<char>>>,
) -> (r: usize)
    requires
        old(text)@ == join(names, ", "@),
        count == names.len(),
        count < 9,
    ensures
        final(text)@ == join(
            names + (if !present {
                seq![name@]
            } else {
                seq![]
            }),
            ", "@,
        ),
        r == names.len() + (if !present {
            1int
        } else {
            0
        }),
{
    if !present {
        proof {
            lemma_join_push(names, ", "@, name@);
            assert(names + seq![name@] =~= names.push(name@));
        }
        if count > 0 {
            text.append(", ");
        }
        text.append(name);
        count + 1
    } else {
        assert(names + seq![] =~= names);
        count
    }
}

fn missing_text(
    update: bool,
    l: bool,
    t_from: bool,
    t_to: bool,
    t_step: bool,
    discard: bool,
    measure: bool,
    seed: bool,
    out: bool,
) -> (r: (String, usize))
    ensures
        r.0@ == join(
            absent_names(update, l, t_from, t_to, t_step, discard, measure, seed, out),
            ", "@,
        ),
        r.1 == absent_names(update, l, t_from, t_to, t_step, discard, measure, seed, out).len(),
{
    let mut text = String::new();
    let ghost n0: Seq<Seq<char>> = seq![];
    let ghost n1 = n0 + (if !update { seq!["--update"@] } else { seq![] });
    let ghost n2 = n1 + (if !l { seq!["--l"@] } else { seq![] });
    let ghost n3 = n2 + (if !t_from { seq!["--t-from"@] } else { seq![] });
    let ghost n4 = n3 + (if !t_to { seq!["--t-to"@] } else { seq![] });
    let ghost n5 = n4 + (if !t_step { seq!["--t-step"@] } else { seq![] });
    let ghost n6 = n5 + (if !discard { seq!["--discard"@] } else { seq![] });
    let ghost n7 = n6 + (if !measure { seq!["--measure"@] } else { seq![] });
    let ghost n8 = n7 + (if !seed { seq!["--seed"@] } else { seq![] });
    let ghost n9 = n8 + (if !out { seq!["--out"@] } else { seq![] });
    assert(seq![] + (if !update { seq!["--update"@] } else { seq![] }) =~= (if !update {
        seq!["--update"@]
    } else {
        seq![]
    }));
    let c = note_absent(&mut text, 0, update, "--update", Ghost(n0));
    let c = note_absent(&mut text, c, l, "--l", Ghost(n1));
    let c = note_absent(&mut text, c, t_from, "--t-from", Ghost(n2));
    let c = note_absent(&mut text, c, t_to, "--t-to", Ghost(n3));
    let c = note_absent(&mut text, c, t_step, "--t-step", Ghost(n4));
    let c = note_absent(&mut text, c, discard, "--discard", Ghost(n5));
    let c = note_absent(&mut text, c, measure, "--measure", Ghost(n6));
    let c = note_absent(&mut text, c, seed, "--seed", Ghost(n7));
    let c = note_absent(&mut text, c, out, "--out", Ghost(n8));
    assert(n9 == absent_names(update, l, t_from, t_to, t_step, discard, measure, seed, out));
    (text, c)
}

#[verifier::rlimit(40)]
fn finish_parse<F: Copy, B: Fn(&F, &F) -> bool>(
    update: Option<Update>,
    l: Option<usize>,
    t_from: Option<Reading<F>>,
    t_to: Option<Reading<F>>,
    t_step: Option<Reading<F>>,
    discard: Option<usize>,
    measure: Option<usize>,
    every: usize,
    seed: Option<u64>,
    out: Option<String>,
    below: &B,
) -> (r: Result<Config<F>, String>)
    requires
        forall|x: &F, y: &F| call_requires(*below, (x, y)),
    ensures
        forall|lt: spec_fn(F, F) -> bool|
            order_agrees(*below, lt) ==> parsed_view(r) == #[trigger] finish(
                Scanned {
                    update,
                    l,
                    t_from: reading_view(t_from),
                    t_to: reading_view(t_to),
                    t_step: reading_view(t_step),
                    discard,
                    measure,
                    every,
                    seed,
                    out: text_view(out),
                },
                lt,
            ),
{
    let ghost st = Scanned {
        update,
        l,
        t_from: reading_view(t_from),
        t_to: reading_view(t_to),
        t_step: reading_view(t_step),
        discard,
        measure,
        every,
        seed,
        out: text_view(out),
    };
    let (missing, absent) = missing_text(
        update.is_some(),
        l.is_some(),
        t_from.is_some(),
        t_to.is_some(),
        t_step.is_some(),
        discard.is_some(),
        measure.is_some(),
        seed.is_some(),
        out.is_some(),
    );
    if absent > 0 {
        let mut e = String::from_str("missing required argument(s): ");
        e.append(missing.as_str());
        e.append("\n");
        e.append(USAGE);
        return Err(e);
    }
    let update = update.unwrap();
    let l = l.unwrap();
    let from = t_from.unwrap();
    let to = t_to.unwrap();
    let step = t_step.unwrap();
    let discard = discard.unwrap();
    let measure = measure.unwrap();
    let seed = seed.unwrap();
    let out = out.unwrap();
    if l < 2 {
        let mut e = String::from_str("--l must be at least 2 (got ");
        push_decimal(&mut e, l as u64);
        e.append(")");
        return Err(e);
    }
    if !from.exceeds_zero {
        let mut e = String::from_str("--t-from must be positive (got ");
        e.append(from.shown.as_str());
        e.append(")");
        return Err(e);
    }
    let lower = below(&to.value, &from.value);
    if lower {
        let mut e = String::from_str("--t-to (");
        e.append(to.shown.as_str());
        e.append(") must not be below --t-from (");
        e.append(from.shown.as_str());
        e.append(")");
        return Err(e);
    }
    if !step.exceeds_zero {
        let mut e = String::from_str("--t-step must be positive (got ");
        e.append(step.shown.as_str());
        e.append(")");
        return Err(e);
    }
    if measure < 1 {
        let mut e = String::from_str("--measure must be at least 1 (got ");
        push_decimal(&mut e, measure as u64);
        e.append(")");
        return Err(e);
    }
    Ok(
        Config {
            update,
            l,
            t_from: from.value,
            t_to: to.value,
            t_step: step.value,
            discard,
            measure,
            every,
            seed,
            out,
        },
    )
}

/// Parse `args` (including the program name) into a validated [`Config`].
pub fn parse<F: Copy, N: Fn(&String) -> Option<Reading<F>>, B: Fn(&F, &F) -> bool>(
    args: &Vec<String>,
    number: &N,
    below: &B,
) -> (r: Result<Config<F>, String>)
    requires
        forall|a: &String| call_requires(*number, (a,)),
        forall|x: &F, y: &F| call_requires(*below, (x, y)),
    ensures
        forall|
            readings: spec_fn(Seq<char>) -> Option<(F, Seq<char>, bool)>,
            lt: spec_fn(F, F) -> bool,
        |
            reader_agrees(*number, readings) && order_agrees(*below, lt) ==> parsed_view(r)
                == #[trigger] parse_model(arg_texts(args@), readings, lt),
{
    let ghost texts = arg_texts(args@);
    let mut update: Option<Update> = None;
    let mut l: Option<usize> = None;
    let mut t_from: Option<Reading<F>> = None;
    let mut t_to: Option<Reading<F>> = None;
    let mut t_step: Option<Reading<F>> = None;
    let mut discard: Option<usize> = None;
    let mut measure: Option<usize> = None;
    let mut every: usize = 0;
    let mut seed: Option<u64> = None;
    let mut out: Option<String> = None;
    let mut i: usize = 1;
    while i < args.len()
        invariant
            texts == arg_texts(args@),
            forall|a: &String| call_requires(*number, (a,)),
            1 <= i,
            forall|readings: spec_fn(Seq<char>) -> Option<(F, Seq<char>, bool)>|
                reader_agrees(*number, readings) ==> #[trigger] scan(texts, readings, 1, nothing_scanned())
                    == scan(
                    texts,
                    readings,
                    i as int,
                    Scanned {
                        update,
                        l,
                        t_from: reading_view(t_from),
                        t_to: reading_view(t_to),
                        t_step: reading_view(t_step),
                        discard,
                        measure,
                        every,
                        seed,
                        out: text_view(out),
                    },
                ),
        decreases args.len() - i,
    {
        let ghost before = Scanned {
            update,
            l,
            t_from: reading_view(t_from),
            t_to: reading_view(t_to),
            t_step: reading_view(t_step),
            discard,
            measure,
            every,
            seed,
            out: text_view(out),
        };
        let key = &args[i];
        if i + 1 >= args.len() {
            let mut e = String::from_str("missing value for ");
            e.append(key.as_str());
            e.append("\n");
            e.append(USAGE);
            return Err(e);
        }
        let value = &args[i + 1];
        assert(texts[i as int] == key@ && texts[i + 1] == value@);
        if is_text(key, "--update") {
            update = Some(Update::parse(value.as_str())?);
        } else if is_text(key, "--l") {
            l = Some(parse_usize("--l", value.as_str())?);
        } else if is_text(key, "--t-from") {
            t_from = Some(parse_number("--t-from", value, number)?);
        } else if is_text(key, "--t-to") {
            t_to = Some(parse_number("--t-to", value, number)?);
        } else if is_text(key, "--t-step") {
            t_step = Some(parse_number("--t-step", value, number)?);
        } else if is_text(key, "--discard") {
            discard = Some(parse_usize("--discard", value.as_str())?);
        } else if is_text(key, "--measure") {
            measure = Some(parse_usize("--measure", value.as_str())?);
        } else if is_text(key, "--every") {
            every = parse_usize("--every", value.as_str())?;
        } else if is_text(key, "--seed") {
            seed = Some(parse_u64("--seed", value.as_str())?);
        } else if is_text(key, "--out") {
            out = Some(value.clone());
        } else {
            let mut e = String::from_str("unknown argument: ");
            e.append(key.as_str());
            e.append("\n");
            e.append(USAGE);
            return Err(e);
        }
        i = i + 2;
    }
    let ghost done = Scanned {
        update,
        l,
        t_from: reading_view(t_from),
        t_to: reading_view(t_to),
        t_step: reading_view(t_step),
        discard,
        measure,
        every,
        seed,
        out: text_view(out),
    };
    assert forall|readings: spec_fn(Seq<char>) -> Option<(F, Seq<char>, bool)>|
        reader_agrees(*number, readings) implies #[trigger] scan(texts, readings, 1, nothing_scanned())
        == Ok::<Scanned<F>, Seq<char>>(done) by {
        assert(scan(texts, readings, i as int, done) == Ok::<Scanned<F>, Seq<char>>(done));
    }
    finish_parse(update, l, t_from, t_to, t_step, discard, measure, every, seed, out, below)
}

/// The plain contents of a parse result.
pub open spec fn parsed_view<F>(r: Result<Config<F>, String>) -> Result<ConfigView<F>, Seq<char>> {
    match r {
        Ok(c) => Ok(c@),
        Err(e) => Err(e@),
    }
}

/// The texts of the arguments.
pub open spec fn arg_texts(args: Seq<String>) -> Seq<Seq<char>> {
    args.map_values(|s: String| s@)
}

} // verus!

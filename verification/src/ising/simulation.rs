//! The temperature ramp: which Monte Carlo update defines one step, and the
//! run that carries one lattice and one random stream through every
//! temperature.

use vstd::prelude::*;
use vstd::string::*;
use crate::text::same_text;
use crate::ising::lattice::{Lattice, lemma_same_spins_same_sums};
use crate::ising::metropolis::{sweep, sweep_run, sweep_draws, all_up_spins, same_lattice, thresholds_from, lemma_sweep_replays, SweepTrace};
use crate::ising::wolff::{cluster_flip, cluster_flipped, grown_through_bonds, offers_decided, offers_at_edge, offers_in_order, refusals_cover, lemma_cluster_flip_replays, ClusterTrace, cluster_draws};
use crate::rng::Stream;

verus! {

/// Which Monte Carlo update defines one step.
#[derive(Clone, Copy, Debug, PartialEq, Eq, Structural)]
pub enum Update {
    Metropolis,
    Wolff,
}

/// Name of an update rule on the command line and in `run.json`.
pub open spec fn update_name(u: Update) -> Seq<char> {
    match u {
        Update::Metropolis => "metropolis"@,
        Update::Wolff => "wolff"@,
    }
}

/// The update rule a command-line text names, if any.
pub open spec fn update_from_text(s: Seq<char>) -> Option<Update> {
    if s == "metropolis"@ {
        Some(Update::Metropolis)
    } else if s == "wolff"@ {
        Some(Update::Wolff)
    } else {
        None
    }
}

/// Error text for an unknown update rule.
pub open spec fn update_error(s: Seq<char>) -> Seq<char> {
    "invalid --update: "@ + s + " (expected metropolis or wolff)"@
}

/// Name of one step of an update rule, as written to `run.json`.
pub open spec fn time_unit_name(u: Update) -> Seq<char> {
    match u {
        Update::Metropolis => "sweep"@,
        Update::Wolff => "cluster_flip"@,
    }
}

impl Update {
    pub fn parse(text: &str) -> (r: Result<Self, String>)
        ensures
            match r {
                Ok(u) => update_from_text(text@) == Some(u),
                Err(e) => update_from_text(text@) is None && e@ == update_error(text@),
            },
    {
        if same_text(text, "metropolis") {
            Ok(Update::Metropolis)
        } else if same_text(text, "wolff") {
            Ok(Update::Wolff)
        } else {
            let mut e = String::from_str("invalid --update: ");
            e.append(text);
            e.append(" (expected metropolis or wolff)");
            Err(e)
        }
    }

    pub fn as_str(self) -> (r: &'static str)
        ensures
            r@ == update_name(self),
    {
        match self {
            Update::Metropolis => "metropolis",
            Update::Wolff => "wolff",
        }
    }

    /// Name of one step, as written to `run.json`.
    pub fn time_unit(self) -> (r: &'static str)
        ensures
            r@ == time_unit_name(self),
    {
        match self {
            Update::Metropolis => "sweep",
            Update::Wolff => "cluster_flip",
        }
    }
}

/// Reading back the name of an update rule gives the same rule.
pub proof fn lemma_update_name_round_trip(u: Update)
    ensures
        update_from_text(update_name(u)) == Some(u),
{
    reveal_strlit("metropolis");
    reveal_strlit("wolff");
    assert("wolff"@.len() != "metropolis"@.len());
}

/// The acceptance thresholds at one temperature `T`, each a probability `p`
/// given as `ceil(p * 2^52)` (see [`draw_below`](crate::rng::draw_below)).
/// On a lattice of spins +1 and -1 an uphill Metropolis move costs 4 or 8.
#[derive(Clone, Copy, Debug)]
pub struct StepThresholds {
    /// `exp(-4 / T)`.
    pub uphill_four: u64,
    /// `exp(-8 / T)`.
    pub uphill_eight: u64,
    /// The Wolff bond probability `1 - exp(-2 / T)`.
    pub bond: u64,
}

/// The lattice after one measured step.
#[derive(Clone, Copy, Debug)]
pub struct MeasuredStep {
    /// Index of the temperature.
    pub temperature: usize,
    /// Measured step at that temperature, from 1.
    pub sweep: usize,
    /// Sum of all spins (the magnetization is `spin_sum / N`).
    pub spin_sum: i64,
    /// Bond sum (the energy per site is `-bond_sum / N`).
    pub bond_sum: i64,
    /// Size of the flipped cluster, for the Wolff update only.
    pub cluster_size: Option<usize>,
}

/// A recorded spin configuration.
#[derive(Clone, Debug)]
pub struct SpinFrame {
    /// Index of the temperature.
    pub temperature: usize,
    /// Step of the whole run, from 1, equilibration included.
    pub sweep: usize,
    /// Sum of all spins.
    pub spin_sum: i64,
    /// The spins, row-major.
    pub spins: Vec<i8>,
}

/// What one temperature adds up.
#[derive(Clone, Copy, Debug)]
pub struct TemperatureTotals {
    /// Accepted Metropolis proposals over all its steps, equilibration included.
    pub accepted: usize,
    /// Sum of the Wolff cluster sizes over its measured steps.
    pub cluster_total: usize,
}

/// Everything a ramp produces, in integers.
pub struct RampRecord {
    /// One entry per measured step, temperature by temperature.
    pub series: Vec<MeasuredStep>,
    /// The recorded frames, in run order.
    pub frames: Vec<SpinFrame>,
    /// One entry per temperature.
    pub totals: Vec<TemperatureTotals>,
    /// Every step of the run, as it was taken.
    pub run: Ghost<RampTrace>,
}

/// One step of the ramp, as it was taken, with the index of its temperature.
pub enum RampMove {
    /// A Metropolis sweep and the number of proposals it accepted.
    Sweep { temperature: int, trace: SweepTrace, accepted: int },
    /// A Wolff cluster flip.
    Flip { temperature: int, trace: ClusterTrace },
}

/// The lattice before every step and after the last, and the steps in order.
pub struct RampTrace {
    pub lattices: Seq<Lattice>,
    pub moves: Seq<RampMove>,
    pub positions: Seq<nat>,
}

/// Step `m`, on `n` sites, read the stream seeded with `seed` from position
/// `from` to `to`, one draw per decision (see [`sweep_draws`] and
/// [`cluster_draws`]).
pub open spec fn step_draws(m: RampMove, seed: u64, n: nat, from: nat, to: nat) -> bool {
    match m {
        RampMove::Sweep { trace, .. } => sweep_draws(seed, n, trace, from, to),
        RampMove::Flip { trace, .. } => cluster_draws(seed, n, trace, from, to),
    }
}

/// The steps of `run` read the stream seeded with `seed` one after the
/// other, from position 0 on.
pub open spec fn run_draws(run: RampTrace, seed: u64, n: nat) -> bool {
    &&& run.positions.len() == run.moves.len() + 1
    &&& run.positions[0] == 0
    &&& forall|g: int|
        0 <= g < run.moves.len() ==> #[trigger] step_draws(
            run.moves[g],
            seed,
            n,
            run.positions[g],
            run.positions[g + 1],
        )
}

proof fn lemma_draws_push(before: RampTrace, run: RampTrace, m: RampMove, seed: u64, n: nat, to: nat)
    requires
        run_draws(before, seed, n),
        run.moves == before.moves.push(m),
        run.positions == before.positions.push(to),
        step_draws(m, seed, n, before.positions.last(), to),
    ensures
        run_draws(run, seed, n),
{
    assert forall|g: int| 0 <= g < run.moves.len() implies #[trigger] step_draws(
        run.moves[g],
        seed,
        n,
        run.positions[g],
        run.positions[g + 1],
    ) by {
        if g < before.moves.len() {
            assert(step_draws(before.moves[g], seed, n, before.positions[g], before.positions[g + 1]));
            assert(run.moves[g] == before.moves[g]);
            assert(run.positions[g] == before.positions[g]);
            assert(run.positions[g + 1] == before.positions[g + 1]);
        }
    }
}

/// The temperature index of a step.
pub open spec fn move_temperature(m: RampMove) -> int {
    match m {
        RampMove::Sweep { temperature, .. } => temperature,
        RampMove::Flip { temperature, .. } => temperature,
    }
}

/// Step `m` of rule `update` at a temperature with thresholds `limits` leads
/// from `before` to `after`: a sweep asking `uphill_four` for an energy change
/// of 4 and `uphill_eight` otherwise, or a cluster flip with bond threshold
/// `bond` that offered sites only at the edge of its cluster and offered
/// every same-spin neighbour of the cluster that did not join.
pub open spec fn step_taken(before: Lattice, m: RampMove, after: Lattice, update: Update, limits: StepThresholds) -> bool {
    match m {
        RampMove::Sweep { trace, accepted, .. } => {
            &&& update == Update::Metropolis
            &&& sweep_run(before, trace, after, accepted)
            &&& forall|k: int|
                0 <= k < trace.proposals.len() && #[trigger] trace.proposals[k].de > 0
                    ==> trace.proposals[k].threshold == (if trace.proposals[k].de == 4 {
                    limits.uphill_four
                } else {
                    limits.uphill_eight
                })
        },
        RampMove::Flip { trace, .. } => {
            &&& update == Update::Wolff
            &&& after.l == before.l
            &&& cluster_flipped(before.spins@, after.spins@, trace.members, trace.members.len() as int)
            &&& grown_through_bonds(trace.members, before.l as int)
            &&& offers_decided(before.spins@, trace.members, trace.offers, limits.bond)
            &&& refusals_cover(before.spins@, trace.members, trace.offers, before.l as int)
            &&& offers_at_edge(trace.members, trace.offers, before.l as int)
            &&& offers_in_order(before.spins@, before.l as int, trace.members[0], trace.offers)
        },
    }
}

/// Step `g` of the run was taken at its temperature's thresholds.
pub open spec fn step_ok_at(run: RampTrace, g: int, update: Update, thresholds: Seq<StepThresholds>) -> bool {
    let t = move_temperature(run.moves[g]);
    &&& 0 <= t < thresholds.len()
    &&& step_taken(run.lattices[g], run.moves[g], run.lattices[g + 1], update, thresholds[t])
}

proof fn lemma_run_push(
    before: RampTrace,
    run: RampTrace,
    m: RampMove,
    after: Lattice,
    update: Update,
    thresholds: Seq<StepThresholds>,
)
    requires
        before.lattices.len() == before.moves.len() + 1,
        run.lattices == before.lattices.push(after),
        run.moves == before.moves.push(m),
        forall|g: int| 0 <= g < before.moves.len() ==> #[trigger] step_ok_at(before, g, update, thresholds),
        0 <= move_temperature(m) < thresholds.len(),
        step_taken(before.lattices.last(), m, after, update, thresholds[move_temperature(m)]),
    ensures
        run.lattices.len() == run.moves.len() + 1,
        forall|g: int| 0 <= g < run.moves.len() ==> #[trigger] step_ok_at(run, g, update, thresholds),
        forall|i: int| 0 <= i < before.moves.len() ==> #[trigger] run.moves[i] == before.moves[i],
        forall|i: int| 0 <= i < before.lattices.len() ==> #[trigger] run.lattices[i] == before.lattices[i],
{
    assert forall|g: int| 0 <= g < run.moves.len() implies #[trigger] step_ok_at(run, g, update, thresholds) by {
        if g < before.moves.len() {
            assert(step_ok_at(before, g, update, thresholds));
            assert(run.moves[g] == before.moves[g]);
            assert(run.lattices[g] == before.lattices[g]);
            assert(run.lattices[g + 1] == before.lattices[g + 1]);
        } else {
            assert(run.lattices[g] == before.lattices.last());
        }
    }
}

/// Position of entry `col` of row `row` in rows of `width` entries.
pub open spec fn slot(row: int, col: int, width: int) -> int {
    row * width + col
}

/// Frames recorded per temperature: one every `every` measured steps.
pub open spec fn frames_per_temperature(measure: int, every: int) -> int {
    if every > 0 {
        measure / every
    } else {
        0
    }
}

/// Frames recorded among the first `k` measured steps of a temperature.
pub open spec fn frames_through(k: int, every: int) -> int {
    if every > 0 {
        k / every
    } else {
        0
    }
}

/// Sum of the cluster sizes of `k` entries of `series` from `start`.
pub open spec fn cluster_total_of(series: Seq<MeasuredStep>, start: int, k: int) -> int
    decreases k,
{
    if k <= 0 {
        0
    } else {
        cluster_total_of(series, start, k - 1) + match series[start + k - 1].cluster_size {
            Some(c) => c as int,
            None => 0,
        }
    }
}

/// Entry `k` of temperature `t` in the series of a ramp.
pub open spec fn step_entry(e: MeasuredStep, t: int, k: int, update: Update, n: int) -> bool {
    &&& e.temperature == t
    &&& e.sweep == k + 1
    &&& (e.cluster_size is Some <==> update == Update::Wolff)
    &&& (e.cluster_size matches Some(c) ==> 1 <= c <= n)
}

/// Frame `k` of temperature `t`: taken after measured step `(k + 1) * every`,
/// which is step `t * (discard + measure) + discard + (k + 1) * every` of the
/// run, with the spins (each +1 or -1) of that step.
pub open spec fn frame_entry(
    f: SpinFrame,
    t: int,
    k: int,
    discard: int,
    measure: int,
    every: int,
    n: int,
    series: Seq<MeasuredStep>,
) -> bool {
    &&& f.temperature == t
    &&& f.sweep == t * (discard + measure) + discard + (k + 1) * every
    &&& f.spins@.len() == n
    &&& forall|i: int| 0 <= i < n ==> #[trigger] f.spins@[i] == 1 || f.spins@[i] == -1
    &&& f.spin_sum == series[slot(t, (k + 1) * every - 1, measure)].spin_sum
}

/// The totals of temperature `t`.
pub open spec fn totals_entry(
    e: TemperatureTotals,
    t: int,
    update: Update,
    steps: int,
    measure: int,
    n: int,
    series: Seq<MeasuredStep>,
) -> bool {
    &&& e.cluster_total == cluster_total_of(series, slot(t, 0, measure), measure)
    &&& (update == Update::Metropolis ==> e.accepted <= steps * n)
    &&& (update == Update::Wolff ==> e.accepted == 0)
}

/// Entry `e` records the lattice `after` that step `m` left: its spin sum, its
/// bond sum, and for a cluster flip the size of the flipped cluster.
pub open spec fn records_step(e: MeasuredStep, m: RampMove, after: Lattice) -> bool {
    &&& e.spin_sum == after.spin_total()
    &&& e.bond_sum == after.bonds()
    &&& match m {
        RampMove::Flip { trace, .. } => e.cluster_size == Some(trace.members.len() as usize),
        RampMove::Sweep { .. } => e.cluster_size is None,
    }
}

/// Frame `f` holds the spins of `after`.
pub open spec fn frame_shows(f: SpinFrame, after: Lattice) -> bool {
    f.spins@ == after.spins@
}

/// The proposals a step accepted: those of a sweep, none for a cluster flip.
pub open spec fn move_accepted(m: RampMove) -> int {
    match m {
        RampMove::Sweep { accepted, .. } => accepted,
        RampMove::Flip { .. } => 0,
    }
}

/// Accepted proposals of `k` steps of `moves` from `start`.
pub open spec fn accepted_total(moves: Seq<RampMove>, start: int, k: int) -> int
    decreases k,
{
    if k <= 0 {
        0
    } else {
        accepted_total(moves, start, k - 1) + move_accepted(moves[start + k - 1])
    }
}

proof fn lemma_accepted_total_stable(a: Seq<RampMove>, b: Seq<RampMove>, start: int, k: int)
    requires
        0 <= start,
        0 <= k,
        start + k <= a.len(),
        start + k <= b.len(),
        forall|i: int| start <= i < start + k ==> a[i] == b[i],
    ensures
        accepted_total(a, start, k) == accepted_total(b, start, k),
    decreases k,
{
    if k > 0 {
        lemma_accepted_total_stable(a, b, start, k - 1);
    }
}

/// `r` records a ramp of rule `update` on an `l x l` lattice through the
/// temperatures of `thresholds`, `discard` then `measure` steps at each,
/// reading the stream seeded with `seed`: its run starts from all spins up,
/// takes each step as [`step_taken`] says, reads the stream one draw per
/// decision from position 0 on, and each series entry records the lattice
/// its step left.
pub open spec fn ramp_recorded(
    r: RampRecord,
    update: Update,
    l: usize,
    thresholds: Seq<StepThresholds>,
    discard: usize,
    measure: usize,
    seed: u64,
) -> bool {
    let steps = discard + measure;
    &&& r.series@.len() == thresholds.len() * measure
    &&& r.run@.lattices.len() == thresholds.len() * steps + 1
    &&& r.run@.moves.len() == thresholds.len() * steps
    &&& r.run@.lattices[0].l == l
    &&& r.run@.lattices[0].spins@.len() == l * l
    &&& all_up_spins(r.run@.lattices[0])
    &&& run_draws(r.run@, seed, (l * l) as nat)
    &&& forall|t: int, j: int|
        0 <= t < thresholds.len() && 0 <= j < steps ==> #[trigger] step_taken(
            r.run@.lattices[slot(t, j, steps)],
            r.run@.moves[slot(t, j, steps)],
            r.run@.lattices[slot(t, j, steps) + 1],
            update,
            thresholds[t],
        )
    &&& forall|t: int, k: int|
        0 <= t < thresholds.len() && 0 <= k < measure ==> #[trigger] step_entry(
            r.series@[slot(t, k, measure as int)],
            t,
            k,
            update,
            l * l,
        )
    &&& forall|t: int, k: int|
        0 <= t < thresholds.len() && 0 <= k < measure ==> #[trigger] records_step(
            r.series@[slot(t, k, measure as int)],
            r.run@.moves[slot(t, discard + k, steps)],
            r.run@.lattices[slot(t, discard + k, steps) + 1],
        )
}

proof fn lemma_slot_of(m: int, w: int, rows: int)
    requires
        0 <= m < rows * w,
        0 <= rows,
        0 <= w,
    ensures
        w > 0,
        0 <= m / w < rows,
        0 <= m % w < w,
        m == slot(m / w, m % w, w),
{
    assert(w > 0) by (nonlinear_arith)
        requires
            0 <= m < rows * w,
            0 <= rows,
            0 <= w,
    ;
    vstd::arithmetic::div_mod::lemma_fundamental_div_mod(m, w);
    assert((m / w) * w == w * (m / w)) by (nonlinear_arith);
    assert(m / w < rows) by (nonlinear_arith)
        requires
            m == w * (m / w) + m % w,
            0 <= m % w,
            m < rows * w,
            w > 0,
    ;
    assert(0 <= m / w) by (nonlinear_arith)
        requires
            m == w * (m / w) + m % w,
            m % w < w,
            m >= 0,
            w > 0,
    ;
}

/// Step `m` of two runs: its moves are of the same kind, and a cluster flip
/// has the same members in both.
pub open spec fn same_move(a: RampMove, b: RampMove) -> bool {
    match (a, b) {
        (RampMove::Sweep { .. }, RampMove::Sweep { .. }) => true,
        (RampMove::Flip { trace: ta, .. }, RampMove::Flip { trace: tb, .. }) => ta.members == tb.members,
        _ => false,
    }
}

proof fn lemma_step_replays(
    r1: RampRecord,
    r2: RampRecord,
    update: Update,
    l: usize,
    thresholds: Seq<StepThresholds>,
    discard: usize,
    measure: usize,
    seed: u64,
    m: int,
)
    requires
        ramp_recorded(r1, update, l, thresholds, discard, measure, seed),
        ramp_recorded(r2, update, l, thresholds, discard, measure, seed),
        0 <= m < thresholds.len() * (discard + measure),
        same_lattice(r1.run@.lattices[m], r2.run@.lattices[m]),
        r1.run@.positions[m] == r2.run@.positions[m],
    ensures
        same_lattice(r1.run@.lattices[m + 1], r2.run@.lattices[m + 1]),
        r1.run@.positions[m + 1] == r2.run@.positions[m + 1],
        same_move(r1.run@.moves[m], r2.run@.moves[m]),
{
    let steps = discard + measure;
    lemma_slot_of(m, steps, thresholds.len() as int);
    let t = m / steps;
    let j = m % steps;
    let (run1, run2) = (r1.run@, r2.run@);
    assert(step_taken(
        run1.lattices[slot(t, j, steps)],
        run1.moves[slot(t, j, steps)],
        run1.lattices[slot(t, j, steps) + 1],
        update,
        thresholds[t],
    ));
    assert(step_taken(
        run2.lattices[slot(t, j, steps)],
        run2.moves[slot(t, j, steps)],
        run2.lattices[slot(t, j, steps) + 1],
        update,
        thresholds[t],
    ));
    assert(step_draws(run1.moves[m], seed, (l * l) as nat, run1.positions[m], run1.positions[m + 1]));
    assert(step_draws(run2.moves[m], seed, (l * l) as nat, run2.positions[m], run2.positions[m + 1]));
    let four = thresholds[t].uphill_four;
    let eight = thresholds[t].uphill_eight;
    let limits = |de: i32| if de == 4 {
        four
    } else {
        eight
    };
    match (run1.moves[m], run2.moves[m]) {
        (
            RampMove::Sweep { trace: trace1, accepted: accepted1, .. },
            RampMove::Sweep { trace: trace2, accepted: accepted2, .. },
        ) => {
            assert(thresholds_from(trace1.proposals, limits));
            assert(thresholds_from(trace2.proposals, limits));
            lemma_sweep_replays(
                run1.lattices[m],
                trace1,
                run1.lattices[m + 1],
                accepted1,
                run1.positions[m + 1],
                run2.lattices[m],
                trace2,
                run2.lattices[m + 1],
                accepted2,
                run2.positions[m + 1],
                seed,
                (l * l) as nat,
                run1.positions[m],
                limits,
            );
        },
        (RampMove::Flip { trace: trace1, .. }, RampMove::Flip { trace: trace2, .. }) => {
            lemma_cluster_flip_replays(
                run1.lattices[m],
                trace1,
                run1.lattices[m + 1],
                run1.positions[m + 1],
                run2.lattices[m],
                trace2,
                run2.lattices[m + 1],
                run2.positions[m + 1],
                seed,
                (l * l) as nat,
                run1.positions[m],
                thresholds[t].bond,
            );
        },
        _ => {},
    }
}

proof fn lemma_runs_agree(
    r1: RampRecord,
    r2: RampRecord,
    update: Update,
    l: usize,
    thresholds: Seq<StepThresholds>,
    discard: usize,
    measure: usize,
    seed: u64,
    g: int,
)
    requires
        ramp_recorded(r1, update, l, thresholds, discard, measure, seed),
        ramp_recorded(r2, update, l, thresholds, discard, measure, seed),
        0 <= g <= thresholds.len() * (discard + measure),
    ensures
        same_lattice(r1.run@.lattices[g], r2.run@.lattices[g]),
        r1.run@.positions[g] == r2.run@.positions[g],
    decreases g,
{
    if g == 0 {
        assert(r1.run@.lattices[0].spins@ =~= r2.run@.lattices[0].spins@);
    } else {
        lemma_runs_agree(r1, r2, update, l, thresholds, discard, measure, seed, g - 1);
        lemma_step_replays(r1, r2, update, l, thresholds, discard, measure, seed, g - 1);
    }
}

/// The replay law of a ramp: two ramps of the same rule with the same
/// lattice side, thresholds, step counts and seed take the same lattices
/// through every step and record the same series.
pub proof fn lemma_ramp_replays(
    r1: RampRecord,
    r2: RampRecord,
    update: Update,
    l: usize,
    thresholds: Seq<StepThresholds>,
    discard: usize,
    measure: usize,
    seed: u64,
)
    requires
        ramp_recorded(r1, update, l, thresholds, discard, measure, seed),
        ramp_recorded(r2, update, l, thresholds, discard, measure, seed),
    ensures
        forall|g: int|
            0 <= g < r1.run@.lattices.len() ==> same_lattice(
                #[trigger] r1.run@.lattices[g],
                r2.run@.lattices[g],
            ),
        r1.series@ == r2.series@,
{
    let steps = discard + measure;
    assert forall|g: int| 0 <= g < r1.run@.lattices.len() implies same_lattice(
        #[trigger] r1.run@.lattices[g],
        r2.run@.lattices[g],
    ) by {
        lemma_runs_agree(r1, r2, update, l, thresholds, discard, measure, seed, g);
    }
    assert forall|i: int| 0 <= i < r1.series@.len() implies r1.series@[i] == r2.series@[i] by {
        lemma_slot_of(i, measure as int, thresholds.len() as int);
        let t = i / (measure as int);
        let k = i % (measure as int);
        assert(step_entry(r1.series@[slot(t, k, measure as int)], t, k, update, l * l));
        assert(step_entry(r2.series@[slot(t, k, measure as int)], t, k, update, l * l));
        assert(records_step(
            r1.series@[slot(t, k, measure as int)],
            r1.run@.moves[slot(t, discard + k, steps)],
            r1.run@.lattices[slot(t, discard + k, steps) + 1],
        ));
        assert(records_step(
            r2.series@[slot(t, k, measure as int)],
            r2.run@.moves[slot(t, discard + k, steps)],
            r2.run@.lattices[slot(t, discard + k, steps) + 1],
        ));
        let m = slot(t, discard + k, steps);
        lemma_row_step(t, discard + k, steps);
        assert(t * steps + steps <= thresholds.len() * steps) by (nonlinear_arith)
            requires
                t < thresholds.len(),
                steps >= 0,
        ;
        lemma_runs_agree(r1, r2, update, l, thresholds, discard, measure, seed, m);
        lemma_step_replays(r1, r2, update, l, thresholds, discard, measure, seed, m);
        lemma_same_spins_same_sums(r1.run@.lattices[m + 1], r2.run@.lattices[m + 1]);
    }
    assert(r1.series@ =~= r2.series@);
}

proof fn lemma_next_frame_count(k: int, e: int)
    requires
        k >= 0,
        e > 0,
    ensures
        (k + 1) / e == k / e + if (k + 1) % e == 0 {
            1int
        } else {
            0int
        },
        (k + 1) % e == 0 ==> k + 1 == ((k + 1) / e) * e,
{
    let q = k / e;
    let r = k % e;
    vstd::arithmetic::div_mod::lemma_fundamental_div_mod(k, e);
    vstd::arithmetic::div_mod::lemma_fundamental_div_mod(k + 1, e);
    assert(e * ((k + 1) / e) == ((k + 1) / e) * e) by (nonlinear_arith);
    assert(e * (q + 1) == e * q + e) by (nonlinear_arith);
    if r == e - 1 {
        vstd::arithmetic::div_mod::lemma_fundamental_div_mod_converse(k + 1, e, q + 1, 0);
    } else {
        vstd::arithmetic::div_mod::lemma_fundamental_div_mod_converse(k + 1, e, q, r + 1);
    }
}

proof fn lemma_cluster_total_stable(a: Seq<MeasuredStep>, b: Seq<MeasuredStep>, start: int, k: int)
    requires
        0 <= start,
        0 <= k,
        start + k <= a.len(),
        start + k <= b.len(),
        forall|i: int| start <= i < start + k ==> a[i] == b[i],
    ensures
        cluster_total_of(a, start, k) == cluster_total_of(b, start, k),
    decreases k,
{
    if k > 0 {
        lemma_cluster_total_stable(a, b, start, k - 1);
    }
}

proof fn lemma_cluster_total_prefix(before: Seq<MeasuredStep>, after: Seq<MeasuredStep>, start: int, k: int)
    requires
        0 <= start,
        0 <= k,
        before.len() == start + k,
        after.len() == before.len() + 1,
        forall|i: int| 0 <= i < before.len() ==> after[i] == before[i],
    ensures
        cluster_total_of(after, start, k + 1) == cluster_total_of(before, start, k) + match after[start
            + k].cluster_size {
            Some(c) => c as int,
            None => 0,
        },
{
    lemma_cluster_total_stable(before, after, start, k);
}

proof fn lemma_frame_step_in_range(k: int, e: int, m: int)
    requires
        e > 0,
        m >= 0,
        0 <= k < m / e,
    ensures
        0 <= (k + 1) * e - 1 < m,
{
    vstd::arithmetic::div_mod::lemma_fundamental_div_mod(m, e);
    assert((k + 1) * e <= (m / e) * e) by (nonlinear_arith)
        requires
            k + 1 <= m / e,
            e > 0,
    ;
    assert((k + 1) * e >= 1) by (nonlinear_arith)
        requires
            k >= 0,
            e > 0,
    ;
}

proof fn lemma_uphill_thresholds<A: Fn(i32) -> u64>(trace: SweepTrace, uphill: A, four: u64, eight: u64)
    requires
        crate::ising::metropolis::thresholds_asked(trace.proposals, uphill),
        forall|de: i32, u: u64| #[trigger] call_ensures(uphill, (de,), u) ==> u == (if de == 4 {
            four
        } else {
            eight
        }),
    ensures
        forall|k: int|
            0 <= k < trace.proposals.len() && #[trigger] trace.proposals[k].de > 0
                ==> trace.proposals[k].threshold == (if trace.proposals[k].de == 4 {
                four
            } else {
                eight
            }),
{
    assert forall|k: int|
        0 <= k < trace.proposals.len() && #[trigger] trace.proposals[k].de > 0 implies trace.proposals[k].threshold
            == (if trace.proposals[k].de == 4 {
            four
        } else {
            eight
        }) by {
        assert(call_ensures(uphill, (trace.proposals[k].de,), trace.proposals[k].threshold));
    }
}

proof fn lemma_slot_before(a: int, j: int, t: int, w: int)
    requires
        0 <= a < t,
        0 <= j < w,
    ensures
        0 <= slot(a, j, w) < slot(t, 0, w),
{
    assert(a * w + j < t * w) by (nonlinear_arith)
        requires
            0 <= a < t,
            0 <= j < w,
    ;
    assert(0 <= a * w) by (nonlinear_arith)
        requires
            0 <= a,
            0 <= w,
    ;
}

proof fn lemma_row_step(t: int, k: int, w: int)
    requires
        0 <= t,
        0 <= k,
        0 <= w,
    ensures
        slot(t, k, w) == t * w + k,
        slot(t + 1, 0, w) == t * w + w,
        k < w ==> slot(t, k, w) < slot(t + 1, 0, w),
{
    assert((t + 1) * w == t * w + w) by (nonlinear_arith);
}

/// Run the ramp: one lattice, all spins up, and one random stream seeded
/// with `seed` are carried through the temperatures in order, each
/// temperature `t` using `thresholds[t]`. At each temperature `discard`
/// steps of `update` are taken without record, then `measure` measured steps;
/// after measured step `s` a frame is recorded when `every > 0` and `every`
/// divides `s`. Every step reads the stream one draw per decision, so the
/// same arguments give the same run and the same series (see
/// [`lemma_ramp_replays`]).
///
/// The step counters and acceptance totals must fit in `usize`, the lattice
/// must be small enough for its sums to fit in `i64`, and a Wolff run that
/// takes any step needs at least one site to seed its clusters.
pub fn simulate(
    update: Update,
    l: usize,
    thresholds: &Vec<StepThresholds>,
    discard: usize,
    measure: usize,
    every: usize,
    seed: u64,
) -> (r: RampRecord)
    requires
        l * l <= 0x8000_0000_0000,
        l * l <= usize::MAX,
        thresholds.len() * (discard + measure) <= usize::MAX,
        (l * l) * (discard + measure) <= usize::MAX,
        update == Update::Wolff && thresholds.len() * (discard + measure) > 0 ==> l > 0,
    ensures
        r.series@.len() == thresholds.len() * measure,
        r.frames@.len() == thresholds.len() * frames_per_temperature(measure as int, every as int),
        r.totals@.len() == thresholds.len(),
        forall|t: int, k: int|
            0 <= t < thresholds.len() && 0 <= k < measure ==> #[trigger] step_entry(
                r.series@[slot(t, k, measure as int)],
                t,
                k,
                update,
                l * l,
            ),
        forall|t: int, k: int|
            0 <= t < thresholds.len() && 0 <= k < frames_per_temperature(measure as int, every as int)
                ==> #[trigger] frame_entry(
                r.frames@[slot(t, k, frames_per_temperature(measure as int, every as int))],
                t,
                k,
                discard as int,
                measure as int,
                every as int,
                l * l,
                r.series@,
            ),
        forall|t: int|
            0 <= t < thresholds.len() ==> #[trigger] totals_entry(
                r.totals@[t],
                t,
                update,
                discard + measure,
                measure as int,
                l * l,
                r.series@,
            ),
        run_draws(r.run@, seed, (l * l) as nat),
        ramp_recorded(r, update, l, thresholds@, discard, measure, seed),
        r.run@.lattices.len() == thresholds.len() * (discard + measure) + 1,
        r.run@.moves.len() == thresholds.len() * (discard + measure),
        r.run@.lattices[0].l == l,
        r.run@.lattices[0].spins@.len() == l * l,
        all_up_spins(r.run@.lattices[0]),
        forall|t: int, j: int|
            0 <= t < thresholds.len() && 0 <= j < discard + measure ==> #[trigger] step_taken(
                r.run@.lattices[slot(t, j, discard + measure)],
                r.run@.moves[slot(t, j, discard + measure)],
                r.run@.lattices[slot(t, j, discard + measure) + 1],
                update,
                thresholds@[t],
            ),
        forall|t: int|
            0 <= t < thresholds.len() ==> (#[trigger] r.totals@[t]).accepted == accepted_total(
                r.run@.moves,
                slot(t, 0, discard + measure),
                discard + measure,
            ),
        forall|t: int, k: int|
            0 <= t < thresholds.len() && 0 <= k < measure ==> #[trigger] records_step(
                r.series@[slot(t, k, measure as int)],
                r.run@.moves[slot(t, discard + k, discard + measure)],
                r.run@.lattices[slot(t, discard + k, discard + measure) + 1],
            ),
        forall|t: int, k: int|
            0 <= t < thresholds.len() && 0 <= k < frames_per_temperature(measure as int, every as int)
                ==> #[trigger] frame_shows(
                r.frames@[slot(t, k, frames_per_temperature(measure as int, every as int))],
                r.run@.lattices[slot(t, discard + (k + 1) * every - 1, discard + measure) + 1],
            ),
{
    let temps = thresholds.len();
    let ghost per = frames_per_temperature(measure as int, every as int);
    let ghost n = l * l;
    let mut rng = Stream::new(seed);
    let mut lattice = Lattice::all_up(l);
    proof {
        assert forall|i: int| 0 <= i < lattice.spins@.len() implies #[trigger] lattice.spins@[i] != i8::MIN by {
            assert(lattice.spins@[i] == 1);
        }
    }
    let ghost steps = discard + measure;
    let ghost mut run = RampTrace { lattices: seq![lattice], moves: seq![], positions: seq![0] };
    let mut global: usize = 0;
    let mut series: Vec<MeasuredStep> = Vec::new();
    let mut frames: Vec<SpinFrame> = Vec::new();
    let mut totals: Vec<TemperatureTotals> = Vec::new();
    let mut t: usize = 0;
    while t < temps
        invariant
            temps == thresholds.len(),
            lattice.wf(),
            lattice.flippable(),
            lattice.unit_spins(),
            lattice.l == l,
            n == l * l,
            l * l <= 0x8000_0000_0000,
            l * l <= usize::MAX,
            temps * (discard + measure) <= usize::MAX,
            (l * l) * (discard + measure) <= usize::MAX,
            update == Update::Wolff && temps * (discard + measure) > 0 ==> l > 0,
            per == frames_per_temperature(measure as int, every as int),
            t <= temps,
            global == t * (discard + measure),
            steps == discard + measure,
            run.lattices.len() == global + 1,
            run.moves.len() == global,
            run.lattices.last() == lattice,
            run_draws(run, seed, n as nat),
            run.positions.last() == rng.pos(),
            rng.seed() == seed,
            run.lattices[0].l == l,
            run.lattices[0].spins@.len() == l * l,
            all_up_spins(run.lattices[0]),
            forall|g: int| 0 <= g < run.moves.len() ==> #[trigger] step_ok_at(run, g, update, thresholds@),
            forall|a: int, jj: int|
                0 <= a < t && 0 <= jj < steps ==> #[trigger] move_temperature(run.moves[slot(a, jj, steps)]) == a,
            series@.len() == t * measure,
            frames@.len() == t * per,
            totals@.len() == t,
            forall|a: int, k: int|
                0 <= a < t && 0 <= k < measure ==> #[trigger] step_entry(
                    series@[slot(a, k, measure as int)],
                    a,
                    k,
                    update,
                    n,
                ),
            forall|a: int, k: int|
                0 <= a < t && 0 <= k < per ==> #[trigger] frame_entry(
                    frames@[slot(a, k, per)],
                    a,
                    k,
                    discard as int,
                    measure as int,
                    every as int,
                    n,
                    series@,
                ),
            forall|a: int|
                0 <= a < t ==> #[trigger] totals_entry(
                    totals@[a],
                    a,
                    update,
                    discard + measure,
                    measure as int,
                    n,
                    series@,
                ),
            forall|a: int|
                0 <= a < t ==> (#[trigger] totals@[a]).accepted == accepted_total(
                    run.moves,
                    slot(a, 0, steps),
                    steps,
                ),
            forall|a: int, k: int|
                0 <= a < t && 0 <= k < measure ==> #[trigger] records_step(
                    series@[slot(a, k, measure as int)],
                    run.moves[slot(a, discard + k, steps)],
                    run.lattices[slot(a, discard + k, steps) + 1],
                ),
            forall|a: int, k: int|
                0 <= a < t && 0 <= k < per ==> #[trigger] frame_shows(
                    frames@[slot(a, k, per)],
                    run.lattices[slot(a, discard + (k + 1) * every - 1, steps) + 1],
                ),
        decreases temps - t,
    {
        let limits = thresholds[t];
        let four = limits.uphill_four;
        let eight = limits.uphill_eight;
        let uphill = |de: i32| -> (u: u64)
            ensures
                u == (if de == 4 {
                    four
                } else {
                    eight
                }),
            {
                if de == 4 {
                    four
                } else {
                    eight
                }
            };
        assert(forall|de: i32| de > 0 ==> call_requires(uphill, (de,)));
        assert(forall|de: i32, u: u64| #[trigger] call_ensures(uphill, (de,), u) ==> u == (if de == 4 {
            four
        } else {
            eight
        }));
        let ghost run_start = run;
        proof {
            assert((t + 1) * (discard + measure) <= temps * (discard + measure)) by (nonlinear_arith)
                requires
                    t < temps,
            ;
            assert((t + 1) * (discard + measure) == t * (discard + measure) + discard + measure)
                by (nonlinear_arith);
        }
        let ghost series_start = series@;
        let ghost frames_start = frames@;
        let mut accepted: usize = 0;
        let mut j: usize = 0;
        while j < discard
            invariant
                lattice.wf(),
                lattice.flippable(),
                lattice.unit_spins(),
                lattice.l == l,
                n == l * l,
                (l * l) * (discard + measure) <= usize::MAX,
                update == Update::Wolff && temps * (discard + measure) > 0 ==> l > 0,
                t < temps,
                j <= discard,
                global == t * (discard + measure) + j,
                (t + 1) * (discard + measure) <= usize::MAX,
                (t + 1) * (discard + measure) == t * (discard + measure) + discard + measure,
                accepted <= j * n,
                accepted == accepted_total(run.moves, slot(t as int, 0, steps), j as int),
                update == Update::Wolff ==> accepted == 0,
                forall|de: i32| de > 0 ==> call_requires(uphill, (de,)),
                forall|de: i32, u: u64| #[trigger] call_ensures(uphill, (de,), u) ==> u == (if de == 4 {
                    four
                } else {
                    eight
                }),
                run_start.lattices.len() == t * (discard + measure) + 1,
                run_start.moves.len() == t * (discard + measure),
                forall|i: int| 0 <= i < run_start.lattices.len() ==> #[trigger] run.lattices[i] == run_start.lattices[i],
                forall|i: int| 0 <= i < run_start.moves.len() ==> #[trigger] run.moves[i] == run_start.moves[i],
                steps == discard + measure,
                temps == thresholds.len(),
                limits == thresholds@[t as int],
                four == limits.uphill_four,
                eight == limits.uphill_eight,
                run.lattices.len() == global + 1,
                run.moves.len() == global,
                run.lattices.last() == lattice,
                run_draws(run, seed, n as nat),
                run.positions.last() == rng.pos(),
                rng.seed() == seed,
                run.lattices[0].l == l,
                run.lattices[0].spins@.len() == l * l,
                all_up_spins(run.lattices[0]),
                forall|g: int| 0 <= g < run.moves.len() ==> #[trigger] step_ok_at(run, g, update, thresholds@),
                forall|a: int, jj: int|
                    0 <= a < t && 0 <= jj < steps ==> #[trigger] move_temperature(run.moves[slot(a, jj, steps)]) == a,
                forall|jj: int|
                    0 <= jj < j ==> #[trigger] move_temperature(run.moves[slot(t as int, jj, steps)]) == t,
            decreases discard - j,
        {
            proof {
                assert((j + 1) * n <= (l * l) * (discard + measure)) by (nonlinear_arith)
                    requires
                        j < discard,
                        n == l * l,
                ;
                assert((j + 1) * n == j * n + n) by (nonlinear_arith);
                assert(temps * (discard + measure) > 0) by (nonlinear_arith)
                    requires
                        t < temps,
                        j < discard,
                ;
            }
            global = global + 1;
            let ghost before_run = run;
            let ghost before = lattice;
            let ghost at = rng.pos();
            let ghost mut mv = RampMove::Flip {
                temperature: t as int,
                trace: ClusterTrace { members: seq![], offers: seq![], positions: seq![] },
            };
            match update {
                Update::Metropolis => {
                    let (taken, trace) = sweep(&mut lattice, &uphill, &mut rng);
                    accepted = accepted + taken;
                    proof {
                        mv = RampMove::Sweep { temperature: t as int, trace: trace@, accepted: taken as int };
                        lemma_uphill_thresholds(trace@, uphill, four, eight);
                    }
                },
                Update::Wolff => {
                    let (_, trace) = cluster_flip(&mut lattice, limits.bond, &mut rng);
                    proof {
                        mv = RampMove::Flip { temperature: t as int, trace: trace@ };
                    }
                },
            }
            proof {
                assert(step_taken(before, mv, lattice, update, limits));
                run = RampTrace {
                    lattices: run.lattices.push(lattice),
                    moves: run.moves.push(mv),
                    positions: run.positions.push(rng.pos()),
                };
                lemma_draws_push(before_run, run, mv, seed, n as nat, rng.pos());
                lemma_run_push(before_run, run, mv, lattice, update, thresholds@);
                lemma_row_step(t as int, j as int, steps);
                lemma_row_step(t as int, 0, steps);
                lemma_accepted_total_stable(before_run.moves, run.moves, slot(t as int, 0, steps), j as int);
                assert(run.moves[slot(t as int, 0, steps) + j] == mv);
            }
            proof {
                lemma_row_step(t as int, j as int, steps);
                assert forall|a: int, jj: int|
                    0 <= a < t && 0 <= jj < steps implies #[trigger] move_temperature(run.moves[slot(a, jj, steps)]) == a by {
                    lemma_slot_before(a, jj, t as int, steps);
                    assert(run.moves[slot(a, jj, steps)] == before_run.moves[slot(a, jj, steps)]);
                }
                assert forall|jj: int|
                    0 <= jj < j + 1 implies #[trigger] move_temperature(run.moves[slot(t as int, jj, steps)]) == t by {
                    lemma_row_step(t as int, jj, steps);
                    if jj < j {
                        assert(run.moves[slot(t as int, jj, steps)] == before_run.moves[slot(t as int, jj, steps)]);
                    }
                }
            }
            j = j + 1;
        }
        let mut cluster_total: usize = 0;
        let mut k: usize = 0;
        proof {
            lemma_row_step(t as int, 0, measure as int);
            assert(frames_through(0, every as int) == 0);
        }
        while k < measure
            invariant
                lattice.wf(),
                lattice.flippable(),
                lattice.unit_spins(),
                lattice.l == l,
                n == l * l,
                l * l <= 0x8000_0000_0000,
                (l * l) * (discard + measure) <= usize::MAX,
                update == Update::Wolff && temps * (discard + measure) > 0 ==> l > 0,
                t < temps,
                per == frames_per_temperature(measure as int, every as int),
                k <= measure,
                global == t * (discard + measure) + discard + k,
                (t + 1) * (discard + measure) <= usize::MAX,
                (t + 1) * (discard + measure) == t * (discard + measure) + discard + measure,
                accepted <= (discard + k) * n,
                accepted == accepted_total(run.moves, slot(t as int, 0, steps), discard + k),
                update == Update::Wolff ==> accepted == 0,
                forall|de: i32| de > 0 ==> call_requires(uphill, (de,)),
                forall|de: i32, u: u64| #[trigger] call_ensures(uphill, (de,), u) ==> u == (if de == 4 {
                    four
                } else {
                    eight
                }),
                run_start.lattices.len() == t * (discard + measure) + 1,
                run_start.moves.len() == t * (discard + measure),
                forall|i: int| 0 <= i < run_start.lattices.len() ==> #[trigger] run.lattices[i] == run_start.lattices[i],
                forall|i: int| 0 <= i < run_start.moves.len() ==> #[trigger] run.moves[i] == run_start.moves[i],
                steps == discard + measure,
                temps == thresholds.len(),
                limits == thresholds@[t as int],
                four == limits.uphill_four,
                eight == limits.uphill_eight,
                run.lattices.len() == global + 1,
                run.moves.len() == global,
                run.lattices.last() == lattice,
                run_draws(run, seed, n as nat),
                run.positions.last() == rng.pos(),
                rng.seed() == seed,
                run.lattices[0].l == l,
                run.lattices[0].spins@.len() == l * l,
                all_up_spins(run.lattices[0]),
                forall|g: int| 0 <= g < run.moves.len() ==> #[trigger] step_ok_at(run, g, update, thresholds@),
                forall|a: int, jj: int|
                    0 <= a < t && 0 <= jj < steps ==> #[trigger] move_temperature(run.moves[slot(a, jj, steps)]) == a,
                forall|jj: int|
                    0 <= jj < discard + k ==> #[trigger] move_temperature(run.moves[slot(t as int, jj, steps)]) == t,
                cluster_total <= k * n,
                series@.len() == t * measure + k,
                series@.subrange(0, t * measure) == series_start,
                series_start.len() == t * measure,
                frames@.len() == t * per + frames_through(k as int, every as int),
                frames@.subrange(0, t * per) == frames_start,
                frames_start.len() == t * per,
                cluster_total == cluster_total_of(series@, slot(t as int, 0, measure as int), k as int),
                forall|kk: int|
                    0 <= kk < k ==> #[trigger] step_entry(
                        series@[slot(t as int, kk, measure as int)],
                        t as int,
                        kk,
                        update,
                        n,
                    ),
                forall|kk: int|
                    0 <= kk < frames_through(k as int, every as int) ==> #[trigger] frame_entry(
                        frames@[slot(t as int, kk, per)],
                        t as int,
                        kk,
                        discard as int,
                        measure as int,
                        every as int,
                        n,
                        series@,
                    ),
                forall|kk: int|
                    0 <= kk < k ==> #[trigger] records_step(
                        series@[slot(t as int, kk, measure as int)],
                        run.moves[slot(t as int, discard + kk, steps)],
                        run.lattices[slot(t as int, discard + kk, steps) + 1],
                    ),
                forall|kk: int|
                    0 <= kk < frames_through(k as int, every as int) ==> #[trigger] frame_shows(
                        frames@[slot(t as int, kk, per)],
                        run.lattices[slot(t as int, discard + (kk + 1) * every - 1, steps) + 1],
                    ),
            decreases measure - k,
        {
            proof {
                assert((discard + k + 1) * n <= (l * l) * (discard + measure)) by (nonlinear_arith)
                    requires
                        k < measure,
                        n == l * l,
                ;
                assert((discard + k + 1) * n == (discard + k) * n + n) by (nonlinear_arith);
                assert((k + 1) * n == k * n + n) by (nonlinear_arith);
                assert(k * n <= (discard + k) * n) by (nonlinear_arith)
                    requires
                        n >= 0,
                ;
                assert(temps * (discard + measure) > 0) by (nonlinear_arith)
                    requires
                        t < temps,
                        k < measure,
                ;
            }
            global = global + 1;
            let ghost before_run = run;
            let ghost before = lattice;
            let ghost at = rng.pos();
            let ghost mut mv = RampMove::Flip {
                temperature: t as int,
                trace: ClusterTrace { members: seq![], offers: seq![], positions: seq![] },
            };
            let cluster_size = match update {
                Update::Metropolis => {
                    let (taken, trace) = sweep(&mut lattice, &uphill, &mut rng);
                    accepted = accepted + taken;
                    proof {
                        mv = RampMove::Sweep { temperature: t as int, trace: trace@, accepted: taken as int };
                        lemma_uphill_thresholds(trace@, uphill, four, eight);
                    }
                    None
                },
                Update::Wolff => {
                    let (size, trace) = cluster_flip(&mut lattice, limits.bond, &mut rng);
                    cluster_total = cluster_total + size;
                    proof {
                        mv = RampMove::Flip { temperature: t as int, trace: trace@ };
                    }
                    Some(size)
                },
            };
            proof {
                assert(step_taken(before, mv, lattice, update, limits));
                run = RampTrace {
                    lattices: run.lattices.push(lattice),
                    moves: run.moves.push(mv),
                    positions: run.positions.push(rng.pos()),
                };
                lemma_draws_push(before_run, run, mv, seed, n as nat, rng.pos());
                lemma_run_push(before_run, run, mv, lattice, update, thresholds@);
                lemma_row_step(t as int, discard + k, steps);
                lemma_row_step(t as int, 0, steps);
                lemma_accepted_total_stable(
                    before_run.moves,
                    run.moves,
                    slot(t as int, 0, steps),
                    discard + k,
                );
                assert(run.moves[slot(t as int, 0, steps) + discard + k] == mv);
            }
            proof {
                lemma_row_step(t as int, discard + k, steps);
                assert forall|a: int, jj: int|
                    0 <= a < t && 0 <= jj < steps implies #[trigger] move_temperature(run.moves[slot(a, jj, steps)]) == a by {
                    lemma_slot_before(a, jj, t as int, steps);
                    assert(run.moves[slot(a, jj, steps)] == before_run.moves[slot(a, jj, steps)]);
                }
                assert forall|jj: int|
                    0 <= jj < discard + k + 1 implies #[trigger] move_temperature(run.moves[slot(t as int, jj, steps)]) == t by {
                    lemma_row_step(t as int, jj, steps);
                    if jj < discard + k {
                        assert(run.moves[slot(t as int, jj, steps)] == before_run.moves[slot(t as int, jj, steps)]);
                    }
                }
            }
            let spin_sum = lattice.spin_sum();
            let bond_sum = lattice.bond_sum();
            let ghost before = series@;
            series.push(MeasuredStep { temperature: t, sweep: k + 1, spin_sum, bond_sum, cluster_size });
            proof {
                lemma_row_step(t as int, k as int, measure as int);
                assert(series@[slot(t as int, k as int, measure as int)].spin_sum == spin_sum);
                assert(series@.subrange(0, t * measure) == series_start) by {
                    assert(series@.subrange(0, t * measure) =~= before.subrange(0, t * measure));
                }
                assert forall|kk: int| 0 <= kk <= k implies #[trigger] step_entry(
                    series@[slot(t as int, kk, measure as int)],
                    t as int,
                    kk,
                    update,
                    n,
                ) by {
                    lemma_row_step(t as int, kk, measure as int);
                    if kk < k {
                        assert(series@[slot(t as int, kk, measure as int)] == before[slot(t as int, kk, measure as int)]);
                    }
                }
                assert(cluster_total_of(series@, slot(t as int, 0, measure as int), k + 1) == cluster_total) by {
                    lemma_cluster_total_prefix(before, series@, slot(t as int, 0, measure as int), k as int);
                }
            }
            let ghost frames_before = frames@;
            if every > 0 && (k + 1) % every == 0 {
                let spins = lattice.spins.clone();
                assert(spins@ == lattice.spins@);
                frames.push(SpinFrame { temperature: t, sweep: global, spin_sum, spins });
            }
            proof {
                let e = every as int;
                let c = frames_through(k as int, e);
                if e > 0 {
                    lemma_next_frame_count(k as int, e);
                }
                assert(frames@.subrange(0, t * per) == frames_start) by {
                    assert(frames@.subrange(0, t * per) =~= frames_before.subrange(0, t * per));
                }
                assert forall|kk: int| 0 <= kk < frames_through(k + 1, e) implies #[trigger] frame_entry(
                    frames@[slot(t as int, kk, per)],
                    t as int,
                    kk,
                    discard as int,
                    measure as int,
                    e,
                    n,
                    series@,
                ) by {
                    lemma_row_step(t as int, kk, per);
                    if kk < c {
                        assert(frames@[slot(t as int, kk, per)] == frames_before[slot(t as int, kk, per)]);
                        assert(frame_entry(frames_before[slot(t as int, kk, per)], t as int, kk, discard as int, measure as int, e, n, before));
                        let s = (kk + 1) * e - 1;
                        assert(0 <= s < k) by {
                            assert(kk + 1 <= c);
                            assert((kk + 1) * e <= c * e) by (nonlinear_arith)
                                requires
                                    kk + 1 <= c,
                                    e > 0,
                            ;
                            vstd::arithmetic::div_mod::lemma_fundamental_div_mod(k as int, e);
                            assert((kk + 1) * e >= e) by (nonlinear_arith)
                                requires
                                    kk >= 0,
                                    e > 0,
                            ;
                        }
                        lemma_row_step(t as int, s, measure as int);
                        assert(series@[slot(t as int, s, measure as int)] == before[slot(t as int, s, measure as int)]);
                    } else {
                        assert(kk == c);
                        assert(k + 1 == (kk + 1) * e);
                    }
                }
                assert forall|kk: int| 0 <= kk < frames_through(k + 1, e) implies #[trigger] frame_shows(
                    frames@[slot(t as int, kk, per)],
                    run.lattices[slot(t as int, discard + (kk + 1) * e - 1, steps) + 1],
                ) by {
                    lemma_row_step(t as int, kk, per);
                    if kk < c {
                        assert(frames@[slot(t as int, kk, per)] == frames_before[slot(t as int, kk, per)]);
                        let s = (kk + 1) * e - 1;
                        assert(0 <= s < k) by {
                            assert((kk + 1) * e <= c * e) by (nonlinear_arith)
                                requires
                                    kk + 1 <= c,
                                    e > 0,
                            ;
                            vstd::arithmetic::div_mod::lemma_fundamental_div_mod(k as int, e);
                            assert((kk + 1) * e >= e) by (nonlinear_arith)
                                requires
                                    kk >= 0,
                                    e > 0,
                            ;
                        }
                        lemma_row_step(t as int, discard + s, steps);
                        assert(run.lattices[slot(t as int, discard + s, steps) + 1]
                            == before_run.lattices[slot(t as int, discard + s, steps) + 1]);
                    } else {
                        assert(kk == c);
                        assert(k + 1 == (kk + 1) * e);
                        lemma_row_step(t as int, discard + k, steps);
                        assert(run.lattices[slot(t as int, discard + k, steps) + 1] == lattice);
                    }
                }
            }
            k = k + 1;
        }
        proof {
            assert(frames_through(measure as int, every as int) == per);
        }
        let ghost totals_before = totals@;
        totals.push(TemperatureTotals { accepted, cluster_total });
        proof {
            assert forall|i: int| 0 <= i < t * measure implies series@[i] == series_start[i] by {
                assert(series@.subrange(0, t * measure)[i] == series@[i]);
            }
            assert forall|i: int| 0 <= i < t * per implies frames@[i] == frames_start[i] by {
                assert(frames@.subrange(0, t * per)[i] == frames@[i]);
            }
            lemma_row_step(t as int, measure as int, measure as int);
            lemma_row_step(t as int, per, per);
            assert((t + 1) * measure == t * measure + measure) by (nonlinear_arith);
            assert((t + 1) * per == t * per + per) by (nonlinear_arith);
            assert forall|a: int, kk: int| 0 <= a <= t && 0 <= kk < measure implies #[trigger] step_entry(
                series@[slot(a, kk, measure as int)],
                a,
                kk,
                update,
                n,
            ) by {
                if a < t {
                    lemma_row_step(a, kk, measure as int);
                    assert(slot(a + 1, 0, measure as int) <= slot(t as int, 0, measure as int)) by (nonlinear_arith)
                        requires
                            a + 1 <= t,
                            measure >= 0,
                    ;
                    assert(series@[slot(a, kk, measure as int)] == series_start[slot(a, kk, measure as int)]);
                }
            }
            assert forall|a: int, kk: int| 0 <= a <= t && 0 <= kk < per implies #[trigger] frame_entry(
                frames@[slot(a, kk, per)],
                a,
                kk,
                discard as int,
                measure as int,
                every as int,
                n,
                series@,
            ) by {
                if a < t {
                    lemma_row_step(a, kk, per);
                    assert(slot(a + 1, 0, per) <= slot(t as int, 0, per)) by (nonlinear_arith)
                        requires
                            a + 1 <= t,
                            per >= 0,
                    ;
                    assert(frames@[slot(a, kk, per)] == frames_start[slot(a, kk, per)]);
                    assert(frame_entry(frames@[slot(a, kk, per)], a, kk, discard as int, measure as int, every as int, n, series_start));
                    let s = (kk + 1) * every - 1;
                    assert(0 <= s < measure) by {
                        lemma_frame_step_in_range(kk, every as int, measure as int);
                    }
                    lemma_row_step(a, s, measure as int);
                    assert(slot(a + 1, 0, measure as int) <= slot(t as int, 0, measure as int)) by (nonlinear_arith)
                        requires
                            a + 1 <= t,
                            measure >= 0,
                    ;
                    assert(series@[slot(a, s, measure as int)] == series_start[slot(a, s, measure as int)]);
                }
            }
            assert forall|a: int| 0 <= a <= t implies #[trigger] totals_entry(
                totals@[a],
                a,
                update,
                discard + measure,
                measure as int,
                n,
                series@,
            ) by {
                if a < t {
                    assert(totals@[a] == totals_before[a]);
                    assert(totals_entry(totals_before[a], a, update, discard + measure, measure as int, n, series_start));
                    lemma_row_step(a, measure as int, measure as int);
                    assert(slot(a + 1, 0, measure as int) <= slot(t as int, 0, measure as int)) by (nonlinear_arith)
                        requires
                            a + 1 <= t,
                            measure >= 0,
                    ;
                    lemma_cluster_total_stable(series_start, series@, slot(a, 0, measure as int), measure as int);
                } else {
                    assert(totals@[a] == TemperatureTotals { accepted, cluster_total });
                    assert((discard + measure) * n == (l * l) * (discard + measure)) by (nonlinear_arith)
                        requires
                            n == l * l,
                    ;
                    assert(cluster_total == cluster_total_of(series@, slot(a, 0, measure as int), measure as int));
                    assert(update == Update::Metropolis ==> accepted <= (discard + measure) * n);
                }
            }
        }
        proof {
            assert(slot(t as int, 0, steps) == t * steps);
            assert forall|a: int| 0 <= a <= t implies (#[trigger] totals@[a]).accepted == accepted_total(
                run.moves,
                slot(a, 0, steps),
                steps,
            ) by {
                if a < t {
                    assert(totals@[a] == totals_before[a]);
                    lemma_row_step(a, 0, steps);
                    assert(slot(a + 1, 0, steps) <= slot(t as int, 0, steps)) by (nonlinear_arith)
                        requires
                            a + 1 <= t,
                            steps >= 0,
                    ;
                    lemma_row_step(a, steps, steps);
                    lemma_accepted_total_stable(run_start.moves, run.moves, slot(a, 0, steps), steps);
                }
            }
            assert forall|a: int, kk: int| 0 <= a <= t && 0 <= kk < measure implies #[trigger] records_step(
                series@[slot(a, kk, measure as int)],
                run.moves[slot(a, discard + kk, steps)],
                run.lattices[slot(a, discard + kk, steps) + 1],
            ) by {
                if a < t {
                    lemma_row_step(a, kk, measure as int);
                    assert(slot(a + 1, 0, measure as int) <= slot(t as int, 0, measure as int)) by (nonlinear_arith)
                        requires
                            a + 1 <= t,
                            measure >= 0,
                    ;
                    assert(series@[slot(a, kk, measure as int)] == series_start[slot(a, kk, measure as int)]);
                    lemma_slot_before(a, discard + kk, t as int, steps);
                    assert(run.moves[slot(a, discard + kk, steps)] == run_start.moves[slot(a, discard + kk, steps)]);
                    assert(run.lattices[slot(a, discard + kk, steps) + 1]
                        == run_start.lattices[slot(a, discard + kk, steps) + 1]);
                }
            }
            assert forall|a: int, kk: int| 0 <= a <= t && 0 <= kk < per implies #[trigger] frame_shows(
                frames@[slot(a, kk, per)],
                run.lattices[slot(a, discard + (kk + 1) * every - 1, steps) + 1],
            ) by {
                if a < t {
                    lemma_row_step(a, kk, per);
                    assert(slot(a + 1, 0, per) <= slot(t as int, 0, per)) by (nonlinear_arith)
                        requires
                            a + 1 <= t,
                            per >= 0,
                    ;
                    assert(frames@[slot(a, kk, per)] == frames_start[slot(a, kk, per)]);
                    let s = (kk + 1) * every - 1;
                    assert(0 <= s < measure) by {
                        lemma_frame_step_in_range(kk, every as int, measure as int);
                    }
                    lemma_slot_before(a, discard + s, t as int, steps);
                    assert(run.lattices[slot(a, discard + s, steps) + 1]
                        == run_start.lattices[slot(a, discard + s, steps) + 1]);
                }
            }
            assert forall|a: int, jj: int|
                0 <= a < t + 1 && 0 <= jj < steps implies #[trigger] move_temperature(run.moves[slot(a, jj, steps)]) == a by {
                if a == t {
                    assert(move_temperature(run.moves[slot(t as int, jj, steps)]) == t);
                }
            }
        }
        t = t + 1;
    }
    proof {
        assert forall|tt: int, j: int|
            0 <= tt < temps && 0 <= j < steps implies #[trigger] step_taken(
            run.lattices[slot(tt, j, steps)],
            run.moves[slot(tt, j, steps)],
            run.lattices[slot(tt, j, steps) + 1],
            update,
            thresholds@[tt],
        ) by {
            lemma_slot_before(tt, j, temps as int, steps);
            assert(slot(temps as int, 0, steps) == temps * steps);
            assert(step_ok_at(run, slot(tt, j, steps), update, thresholds@));
        }
    }
    RampRecord { series, frames, totals, run: Ghost(run) }
}

} // verus!

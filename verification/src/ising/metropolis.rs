//! Single-site Metropolis update.
//!
//! One sweep is exactly `L * L` proposals. Each proposal picks a site
//! uniformly at random, with replacement, and computes the energy change
//! `dE = 2 * s * (sum of the four neighbours)` of flipping it. A move with
//! `dE <= 0` is always taken; an uphill move is taken when a uniform draw on
//! `[0, 1)` falls below the Boltzmann factor `exp(-dE / T)`. The factor is
//! handed in by the caller as the threshold `ceil(exp(-dE / T) * 2^52)` of
//! [`steps_below`](crate::rng::steps_below).

use vstd::prelude::*;
use crate::ising::lattice::{Lattice, flipped_at, lemma_flip_bond_change, lemma_index_site, lemma_all_up_values};
use crate::rng::{Stream, draw_below, stdrng_next, stdrng_index, UNIT_STEPS};

verus! {

/// Every uphill move is refused: the threshold of each `dE > 0` is 0 (the
/// zero-temperature limit).
pub open spec fn refuses_uphill<A: Fn(i32) -> u64>(threshold: A) -> bool {
    forall|de: i32, t: u64| de > 0 && #[trigger] call_ensures(threshold, (de,), t) ==> t == 0
}

/// Every uphill move is taken: the threshold of each `dE > 0` is at least
/// `2^52` (an acceptance probability of 1).
pub open spec fn takes_uphill<A: Fn(i32) -> u64>(threshold: A) -> bool {
    forall|de: i32, t: u64| de > 0 && #[trigger] call_ensures(threshold, (de,), t) ==> t >= UNIT_STEPS
}

/// Every spin of the lattice is +1.
pub open spec fn all_up_spins(lattice: Lattice) -> bool {
    forall|i: int| 0 <= i < lattice.spins@.len() ==> #[trigger] lattice.spins@[i] == 1
}

/// One proposal of a sweep, as it was decided: the drawn site, its energy
/// change, and for an uphill move the threshold asked for and the 64-bit word
/// drawn for it (both 0 for a move that is not uphill).
pub struct Proposal {
    pub site: usize,
    pub de: i32,
    pub threshold: u64,
    pub word: u64,
    pub accepted: bool,
}

/// What a sweep did: the lattice before each proposal and after the last,
/// the proposals in order, and the position of the random stream before each
/// proposal and after the last.
pub struct SweepTrace {
    pub states: Seq<Lattice>,
    pub proposals: Seq<Proposal>,
    pub positions: Seq<nat>,
}

/// Proposal `p` on `n` sites read the stream seeded with `seed` from
/// position `from` to `to`: its site is the stream's next index below `n`,
/// and an uphill proposal's word is the stream's next word after it; no
/// other draw is made.
pub open spec fn proposal_draws(seed: u64, n: nat, p: Proposal, from: nat, to: nat) -> bool {
    let (site, mid) = stdrng_index(seed, from, n as u64);
    &&& p.site == site
    &&& if p.de > 0 {
        stdrng_next(seed, mid) == (p.word, to)
    } else {
        to == mid
    }
}

/// The proposals of `trace` read the stream seeded with `seed` one after
/// the other, from position `from` to position `to`.
pub open spec fn sweep_draws(seed: u64, n: nat, trace: SweepTrace, from: nat, to: nat) -> bool {
    &&& trace.positions.len() == trace.proposals.len() + 1
    &&& trace.positions[0] == from
    &&& trace.positions.last() == to
    &&& forall|k: int|
        0 <= k < trace.proposals.len() ==> #[trigger] proposal_draws(
            seed,
            n,
            trace.proposals[k],
            trace.positions[k],
            trace.positions[k + 1],
        )
}

/// Two lattices hold the same spins on the same side.
pub open spec fn same_lattice(a: Lattice, b: Lattice) -> bool {
    a.l == b.l && a.spins@ == b.spins@
}

/// Proposal `p` turns `before` into `after`: its energy change is that of
/// flipping its site in `before`; it is taken when it is not uphill or when
/// its word falls below its threshold; taken, exactly its site flips, and
/// otherwise nothing changes.
pub open spec fn proposal_step(before: Lattice, p: Proposal, after: Lattice) -> bool {
    let x = (p.site % before.l) as int;
    let y = (p.site / before.l) as int;
    &&& p.site < before.spins@.len()
    &&& p.de == 2 * before.spin(x, y) * before.neighbours(x, y)
    &&& p.accepted == (p.de <= 0 || (p.word >> 12u64) < p.threshold)
    &&& (p.de <= 0 ==> p.threshold == 0 && p.word == 0)
    &&& after.l == before.l
    &&& after.spins@ == if p.accepted {
        before.spins@.update(p.site as int, (-before.spins@[p.site as int]) as i8)
    } else {
        before.spins@
    }
}

/// `proposals` lead through `states`, one step each.
pub open spec fn metropolis_run(states: Seq<Lattice>, proposals: Seq<Proposal>) -> bool {
    &&& states.len() == proposals.len() + 1
    &&& forall|k: int|
        0 <= k < proposals.len() ==> #[trigger] proposal_step(states[k], proposals[k], states[k + 1])
}

/// Number of taken proposals.
pub open spec fn accepted_count(proposals: Seq<Proposal>) -> int
    decreases proposals.len(),
{
    if proposals.len() == 0 {
        0
    } else {
        accepted_count(proposals.drop_last()) + if proposals.last().accepted {
            1int
        } else {
            0
        }
    }
}

/// The sites at which the spins `a` and `b` differ.
pub open spec fn changed_sites(a: Seq<i8>, b: Seq<i8>) -> Set<int> {
    Set::new(|i: int| 0 <= i < a.len() && a[i] != b[i])
}

/// Every uphill proposal asked `threshold` for the threshold of its energy
/// change.
pub open spec fn thresholds_asked<A: Fn(i32) -> u64>(proposals: Seq<Proposal>, threshold: A) -> bool {
    forall|k: int|
        0 <= k < proposals.len() && #[trigger] proposals[k].de > 0 ==> call_ensures(
            threshold,
            (proposals[k].de,),
            proposals[k].threshold,
        )
}

/// A sweep of `l * l` proposals leads from `before` to `after`, taking
/// `accepted` of them.
pub open spec fn sweep_run(before: Lattice, trace: SweepTrace, after: Lattice, accepted: int) -> bool {
    &&& trace.proposals.len() == before.l * before.l
    &&& metropolis_run(trace.states, trace.proposals)
    &&& same_lattice(trace.states[0], before)
    &&& same_lattice(trace.states.last(), after)
    &&& accepted == accepted_count(trace.proposals)
}

proof fn lemma_all_up_cost(a: Lattice, index: int, x: int, y: int, de: int)
    requires
        a.wf(),
        all_up_spins(a),
        0 <= index < a.spins@.len(),
        0 <= x < a.l,
        0 <= y < a.l,
        de == 2 * a.spin(x, y) * a.neighbours(x, y),
        a.spin(x, y) == a.spins@[index],
    ensures
        de == 8,
{
    lemma_all_up_values(a);
    assert(a.neighbours(x, y) == 4);
    assert(a.spins@[index] == 1);
}

proof fn lemma_run_changes(start: Seq<i8>, states: Seq<Lattice>, proposals: Seq<Proposal>, k: int)
    requires
        metropolis_run(states, proposals),
        states[0].spins@ == start,
        forall|i: int| 0 <= i < start.len() ==> #[trigger] start[i] == 1 || start[i] == -1,
        0 <= k <= proposals.len(),
    ensures
        states[k].spins@.len() == start.len(),
        forall|i: int|
            0 <= i < start.len() ==> #[trigger] states[k].spins@[i] == 1 || states[k].spins@[i] == -1,
        changed_sites(start, states[k].spins@).finite(),
        changed_sites(start, states[k].spins@).len() <= accepted_count(proposals.take(k)),
        changed_sites(start, states[k].spins@).len() % 2 == accepted_count(proposals.take(k)) % 2,
    decreases k,
{
    if k == 0 {
        assert(changed_sites(start, states[0].spins@) =~= Set::<int>::empty());
        assert(proposals.take(0) =~= Seq::<Proposal>::empty());
    } else {
        lemma_run_changes(start, states, proposals, k - 1);
        let before = states[k - 1];
        let after = states[k];
        let p = proposals[k - 1];
        let m = k - 1;
        assert(proposal_step(states[m], proposals[m], states[m + 1]));
        assert(proposals.take(k).drop_last() =~= proposals.take(k - 1));
        assert(proposals.take(k).last() == p);
        let d = changed_sites(start, before.spins@);
        let d2 = changed_sites(start, after.spins@);
        if p.accepted {
            let j = p.site as int;
            assert(start[j] == 1 || start[j] == -1);
            assert(before.spins@[j] == 1 || before.spins@[j] == -1);
            if before.spins@[j] == start[j] {
                assert(d2 =~= d.insert(j));
                assert(!d.contains(j));
            } else {
                assert(d2 =~= d.remove(j));
                assert(d.contains(j));
            }
            assert forall|i: int| 0 <= i < start.len() implies #[trigger] after.spins@[i] == 1 || after.spins@[i]
                == -1 by {
                assert(before.spins@[i] == 1 || before.spins@[i] == -1);
            }
        } else {
            assert(d2 =~= d);
        }
    }
}

/// The law of one sweep: on a lattice of spins +1 and -1, the sites whose
/// spin a sweep changed are at most as many as the proposals it accepted, and
/// as many modulo 2 (each accepted proposal changes exactly one site, and a
/// site flipped twice is back).
pub proof fn lemma_sweep_changed_sites(before: Lattice, trace: SweepTrace, after: Lattice, accepted: int)
    requires
        sweep_run(before, trace, after, accepted),
        before.unit_spins(),
    ensures
        changed_sites(before.spins@, after.spins@).finite(),
        changed_sites(before.spins@, after.spins@).len() <= accepted,
        changed_sites(before.spins@, after.spins@).len() % 2 == accepted % 2,
{
    let k = trace.proposals.len() as int;
    lemma_run_changes(before.spins@, trace.states, trace.proposals, k);
    assert(trace.proposals.take(k) =~= trace.proposals);
    assert(trace.states.last() == trace.states[k]);
}

/// Every uphill proposal of `proposals` used `limits(dE)` as its threshold.
pub open spec fn thresholds_from(proposals: Seq<Proposal>, limits: spec_fn(i32) -> u64) -> bool {
    forall|k: int|
        0 <= k < proposals.len() && #[trigger] proposals[k].de > 0 ==> proposals[k].threshold == limits(
            proposals[k].de,
        )
}

proof fn lemma_replay_prefix(
    t1: SweepTrace,
    t2: SweepTrace,
    seed: u64,
    n: nat,
    limits: spec_fn(i32) -> u64,
    k: int,
)
    requires
        metropolis_run(t1.states, t1.proposals),
        metropolis_run(t2.states, t2.proposals),
        same_lattice(t1.states[0], t2.states[0]),
        t1.proposals.len() == t2.proposals.len(),
        t1.positions.len() == t1.proposals.len() + 1,
        t2.positions.len() == t2.proposals.len() + 1,
        t1.positions[0] == t2.positions[0],
        forall|i: int|
            0 <= i < t1.proposals.len() ==> #[trigger] proposal_draws(
                seed,
                n,
                t1.proposals[i],
                t1.positions[i],
                t1.positions[i + 1],
            ),
        forall|i: int|
            0 <= i < t2.proposals.len() ==> #[trigger] proposal_draws(
                seed,
                n,
                t2.proposals[i],
                t2.positions[i],
                t2.positions[i + 1],
            ),
        thresholds_from(t1.proposals, limits),
        thresholds_from(t2.proposals, limits),
        0 <= k <= t1.proposals.len(),
    ensures
        same_lattice(t1.states[k], t2.states[k]),
        t1.positions[k] == t2.positions[k],
        t1.proposals.take(k) == t2.proposals.take(k),
    decreases k,
{
    if k == 0 {
        assert(t1.proposals.take(0) =~= t2.proposals.take(0));
    } else {
        let m = k - 1;
        lemma_replay_prefix(t1, t2, seed, n, limits, m);
        let (a, b) = (t1.states[m], t2.states[m]);
        let (p, q) = (t1.proposals[m], t2.proposals[m]);
        assert(proposal_step(t1.states[m], t1.proposals[m], t1.states[m + 1]));
        assert(proposal_step(t2.states[m], t2.proposals[m], t2.states[m + 1]));
        assert(proposal_draws(seed, n, t1.proposals[m], t1.positions[m], t1.positions[m + 1]));
        assert(proposal_draws(seed, n, t2.proposals[m], t2.positions[m], t2.positions[m + 1]));
        assert(p.site == q.site);
        assert(a.l == b.l && a.spins@ == b.spins@);
        assert(p.de == q.de);
        if p.de > 0 {
            assert(p.threshold == limits(p.de));
            assert(q.threshold == limits(q.de));
        }
        assert(p == q);
        assert(t1.proposals.take(k) =~= t1.proposals.take(m).push(p));
        assert(t2.proposals.take(k) =~= t2.proposals.take(m).push(q));
    }
}

/// The replay law of one sweep: two sweeps of lattices holding the same
/// spins, reading the same stream from the same position, with the same
/// uphill thresholds, make the same proposals, accept the same number, leave
/// the same spins and stop at the same position.
pub proof fn lemma_sweep_replays(
    before1: Lattice,
    trace1: SweepTrace,
    after1: Lattice,
    accepted1: int,
    to1: nat,
    before2: Lattice,
    trace2: SweepTrace,
    after2: Lattice,
    accepted2: int,
    to2: nat,
    seed: u64,
    n: nat,
    from: nat,
    limits: spec_fn(i32) -> u64,
)
    requires
        same_lattice(before1, before2),
        sweep_run(before1, trace1, after1, accepted1),
        sweep_run(before2, trace2, after2, accepted2),
        sweep_draws(seed, n, trace1, from, to1),
        sweep_draws(seed, n, trace2, from, to2),
        thresholds_from(trace1.proposals, limits),
        thresholds_from(trace2.proposals, limits),
    ensures
        trace1.proposals == trace2.proposals,
        accepted1 == accepted2,
        same_lattice(after1, after2),
        to1 == to2,
{
    let k = trace1.proposals.len() as int;
    lemma_replay_prefix(trace1, trace2, seed, n, limits, k);
    assert(trace1.proposals.take(k) =~= trace1.proposals);
    assert(trace2.proposals.take(k) =~= trace2.proposals);
    assert(trace1.states.last() == trace1.states[k]);
    assert(trace2.states.last() == trace2.states[k]);
    assert(trace1.positions.last() == trace1.positions[k]);
    assert(trace2.positions.last() == trace2.positions[k]);
}

/// One Monte Carlo sweep of `L * L` proposals; returns the number of accepted
/// proposals and, as a ghost, what each proposal did. `threshold(dE)` is the
/// acceptance threshold of an uphill move with energy change `dE > 0`.
///
/// Each proposal takes its site as the stream's next index below `L * L`,
/// computes its energy change on the current lattice, and for an uphill move
/// asks `threshold` and compares the stream's next word with the answer; no
/// other draw is made, and a taken proposal flips exactly its site. So the
/// sweep is a function of the lattice, the thresholds and the stream's seed
/// and position (see [`lemma_sweep_replays`]). Beyond that, the
/// lattice keeps its size, spins of +1 and -1 stay so, at most `L * L` flips
/// are taken and with none taken the lattice is unchanged; on spins +1 and
/// -1 the sites that changed are at most the accepted count and as many
/// modulo 2 (see [`lemma_sweep_changed_sites`]). When every uphill
/// move is refused, the bond sum never decreases (the energy never rises),
/// and a lattice with every spin up stays as it is with no proposal accepted;
/// when every uphill move is taken, every proposal is accepted.
#[verifier::spinoff_prover]
pub fn sweep<A: Fn(i32) -> u64>(lattice: &mut Lattice, threshold: &A, rng: &mut Stream) -> (r: (
    usize,
    Ghost<SweepTrace>,
))
    requires
        old(lattice).wf(),
        old(lattice).flippable(),
        forall|de: i32| de > 0 ==> call_requires(*threshold, (de,)),
    ensures
        sweep_run(*old(lattice), r.1@, *final(lattice), r.0 as int),
        thresholds_asked(r.1@.proposals, *threshold),
        sweep_draws(
            old(rng).seed(),
            (old(lattice).l * old(lattice).l) as nat,
            r.1@,
            old(rng).pos(),
            final(rng).pos(),
        ),
        final(rng).seed() == old(rng).seed(),
        final(lattice).wf(),
        final(lattice).flippable(),
        final(lattice).l == old(lattice).l,
        old(lattice).unit_spins() ==> final(lattice).unit_spins(),
        r.0 <= old(lattice).l * old(lattice).l,
        r.0 == 0 ==> final(lattice).spins@ == old(lattice).spins@,
        refuses_uphill(*threshold) && old(lattice).l >= 2 ==> final(lattice).bonds() >= old(lattice).bonds(),
        refuses_uphill(*threshold) && old(lattice).l >= 1 && all_up_spins(*old(lattice)) ==> r.0 == 0
            && final(lattice).spins@ == old(lattice).spins@,
        takes_uphill(*threshold) ==> r.0 == old(lattice).l * old(lattice).l,
        old(lattice).unit_spins() ==> changed_sites(old(lattice).spins@, final(lattice).spins@).finite()
            && changed_sites(old(lattice).spins@, final(lattice).spins@).len() <= r.0
            && changed_sites(old(lattice).spins@, final(lattice).spins@).len() % 2 == r.0 % 2,
{
    let n = lattice.n();
    let ghost start = *lattice;
    let ghost mut states: Seq<Lattice> = seq![*lattice];
    let ghost mut proposals: Seq<Proposal> = seq![];
    let ghost mut positions: Seq<nat> = seq![rng.pos()];
    let ghost seed = rng.seed();
    let ghost from = rng.pos();
    let mut accepted: usize = 0;
    let mut i: usize = 0;
    assert(changed_sites(start.spins@, lattice.spins@) =~= Set::<int>::empty());
    while i < n
        invariant
            lattice.wf(),
            lattice.flippable(),
            lattice.l == start.l,
            n == start.l * start.l,
            start == *old(lattice),
            start.wf(),
            start.unit_spins() ==> lattice.unit_spins(),
            forall|de: i32| de > 0 ==> call_requires(*threshold, (de,)),
            i <= n,
            accepted <= i,
            proposals.len() == i,
            metropolis_run(states, proposals),
            rng.seed() == seed,
            seed == old(rng).seed(),
            from == old(rng).pos(),
            positions.len() == i + 1,
            positions[0] == from,
            positions.last() == rng.pos(),
            forall|k: int|
                0 <= k < i ==> #[trigger] proposal_draws(seed, n as nat, proposals[k], positions[k], positions[k + 1]),
            same_lattice(states[0], start),
            same_lattice(states.last(), *lattice),
            accepted == accepted_count(proposals),
            thresholds_asked(proposals, *threshold),
            accepted == 0 ==> lattice.spins@ == start.spins@,
            refuses_uphill(*threshold) && start.l >= 2 ==> lattice.bonds() >= start.bonds(),
            refuses_uphill(*threshold) && start.l >= 1 && all_up_spins(start) ==> accepted == 0
                && lattice.spins@ == start.spins@,
            takes_uphill(*threshold) ==> accepted == i,
            start.unit_spins() ==> changed_sites(start.spins@, lattice.spins@).finite()
                && changed_sites(start.spins@, lattice.spins@).len() <= accepted
                && changed_sites(start.spins@, lattice.spins@).len() % 2 == accepted % 2,
        decreases n - i,
    {
        let ghost at = rng.pos();
        let index = rng.index_below(n);
        let de = lattice.flip_energy_change(index);
        proof {
            assert(lattice.l > 0) by (nonlinear_arith)
                requires
                    index < lattice.l * lattice.l,
            ;
            lemma_index_site(index as int, lattice.l as int);
            if refuses_uphill(*threshold) && all_up_spins(start) && lattice.spins@ == start.spins@ {
                lemma_all_up_values(*lattice);
                lemma_all_up_cost(
                    *lattice,
                    index as int,
                    (index % lattice.l) as int,
                    (index / lattice.l) as int,
                    de as int,
                );
            }
        }
        let mut accept = true;
        let mut asked: u64 = 0;
        let mut word: u64 = 0;
        if de > 0 {
            asked = threshold(de);
            let drawn = draw_below(rng, asked);
            accept = drawn.0;
            word = drawn.1;
            proof {
                if refuses_uphill(*threshold) {
                    assert(asked == 0);
                }
                if takes_uphill(*threshold) {
                    assert(asked >= UNIT_STEPS);
                }
            }
        }
        let ghost before = *lattice;
        if accept {
            proof {
                assert(before.spins@[index as int] != i8::MIN);
            }
            lattice.flip(index);
            proof {
                let l = before.l as int;
                lemma_index_site(index as int, l);
                let x = (index as int) % l;
                let y = (index as int) / l;
                assert(y * l + x == index);
                assert(flipped_at(before, *lattice, x, y));
                if before.l >= 2 {
                    lemma_flip_bond_change(before, *lattice, x, y);
                }
                assert forall|k: int| 0 <= k < lattice.spins@.len() implies #[trigger] lattice.spins@[k] != i8::MIN by {
                    assert(before.spins@[k] != i8::MIN);
                }
                if start.unit_spins() {
                    assert forall|k: int| 0 <= k < lattice.spins@.len() implies (#[trigger] lattice.spins@[k] == 1
                        || lattice.spins@[k] == -1) by {
                        assert(before.spins@[k] == 1 || before.spins@[k] == -1);
                    }
                }
            }
            accepted = accepted + 1;
        }
        proof {
            let p = Proposal { site: index, de, threshold: asked, word, accepted: accept };
            assert(proposal_step(before, p, *lattice));
            if start.unit_spins() && accept {
                let d = changed_sites(start.spins@, before.spins@);
                let d2 = changed_sites(start.spins@, lattice.spins@);
                let k = index as int;
                assert(start.spins@[k] == 1 || start.spins@[k] == -1);
                assert(before.spins@[k] == 1 || before.spins@[k] == -1);
                if before.spins@[k] == start.spins@[k] {
                    assert(d2 =~= d.insert(k));
                    assert(!d.contains(k));
                } else {
                    assert(d2 =~= d.remove(k));
                    assert(d.contains(k));
                }
            }
            let old_states = states;
            let old_proposals = proposals;
            let old_positions = positions;
            assert(proposal_draws(seed, n as nat, p, at, rng.pos()));
            states = states.push(*lattice);
            proposals = proposals.push(p);
            positions = positions.push(rng.pos());
            assert forall|k: int| 0 <= k < proposals.len() implies #[trigger] proposal_draws(
                seed,
                n as nat,
                proposals[k],
                positions[k],
                positions[k + 1],
            ) by {
                if k < old_proposals.len() {
                    assert(proposals[k] == old_proposals[k]);
                    assert(positions[k] == old_positions[k]);
                    assert(positions[k + 1] == old_positions[k + 1]);
                }
            }
            assert(proposals.drop_last() =~= old_proposals);
            assert forall|k: int| 0 <= k < proposals.len() implies #[trigger] proposal_step(
                states[k],
                proposals[k],
                states[k + 1],
            ) by {
                if k < old_proposals.len() {
                    assert(proposal_step(old_states[k], old_proposals[k], old_states[k + 1]));
                }
            }
            assert forall|k: int| 0 <= k < proposals.len() && #[trigger] proposals[k].de > 0 implies call_ensures(
                *threshold,
                (proposals[k].de,),
                proposals[k].threshold,
            ) by {
                if k < old_proposals.len() {
                    assert(proposals[k] == old_proposals[k]);
                }
            }
        }
        i = i + 1;
    }
    (accepted, Ghost(SweepTrace { states, proposals, positions }))
}

} // verus!

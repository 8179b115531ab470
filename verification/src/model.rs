//! The simulator as contracts see it: its state, what a batch and a run do
//! to it, and what holds of every run.

use crate::calc::{places_ahead, spec_lane};
use crate::competitor::{entered_at, spec_person_hist_bounds, Competitor};
use crate::event::{spec_num_attempts, EventType};
use crate::event_simulator::{
    counts_with_attempts, spec_solves, Ao5Simulation, Bo3Simulation, EventSimulation,
    Mo3Simulation,
};
use crate::histogram::counts_with_times;
use crate::simd::{max2, min2, spec_splat, LaneDraw, DNF_VALUE};
use crate::simulation::RuntimeConfig;
use crate::tally::{all_others_ahead, lemma_last_in_every_round, rounds_of_field, tally_rounds};
use vstd::prelude::*;

verus! {

/// The counts of the two histograms of one competitor.
pub struct HistogramCounts {
    /// Count per bucket of the single attempts.
    pub single: Map<i32, i32>,
    /// Count per bucket of the round results.
    pub average: Map<i32, i32>,
}

/// The state of a simulator as contracts see it.
pub struct SimulatorModel {
    /// The event that is simulated.
    pub event: EventType,
    /// The field, in the order it was loaded.
    pub competitors: Seq<Competitor>,
    /// What the current run was asked to do.
    pub config: RuntimeConfig,
    /// Batches simulated in the current run.
    pub batches_run: nat,
    /// The rounds simulated in the current run, oldest first: for each the
    /// result of every competitor.
    pub rounds: Seq<Seq<i32>>,
    /// The histogram counts of every competitor; `None` before the first
    /// run and once the output of a run has been taken.
    pub histograms: Option<Seq<HistogramCounts>>,
}

/// Number of batches of a run: a batch holds four rounds.
pub open spec fn spec_num_batches(config: RuntimeConfig) -> nat {
    (config.num_simulations / 4) as nat
}

/// The histogram range shared by the first `k` competitors: the lowest of
/// their lower bounds and the highest of their upper bounds, starting from
/// the empty range `(i32::MAX, 0)`.
pub open spec fn spec_bounds_of(competitors: Seq<Competitor>, k: nat) -> (int, int)
    decreases k,
{
    if k == 0 {
        (i32::MAX as int, 0int)
    } else {
        let rest = spec_bounds_of(competitors, (k - 1) as nat);
        let own = spec_person_hist_bounds(competitors[k - 1].stats);
        (min2(own.0 as int, rest.0), max2(own.1 as int, rest.1))
    }
}

/// The histogram range of a run: the range shared by all competitors, with
/// its lower bound raised to zero where it is negative.
pub open spec fn spec_hist_bounds(competitors: Seq<Competitor>) -> (i32, i32) {
    let shared = spec_bounds_of(competitors, competitors.len());
    (max2(shared.0, 0) as i32, shared.1 as i32)
}

/// What was drawn for competitor `c` in a batch: nothing where the batch
/// holds no entry for the competitor.
pub open spec fn draws_for(batch: Seq<Vec<LaneDraw>>, c: int) -> Seq<LaneDraw> {
    if 0 <= c < batch.len() {
        batch[c]@
    } else {
        Seq::empty()
    }
}

/// The draws of batch `b` of a run: nothing where the run was handed no
/// draws for the batch.
pub open spec fn batch_at(draws: Seq<Vec<Vec<LaneDraw>>>, b: int) -> Seq<Vec<LaneDraw>> {
    if 0 <= b < draws.len() {
        draws[b]@
    } else {
        Seq::empty()
    }
}

/// The lanes of every attempt of a competitor in one batch of an event.
pub open spec fn spec_round_solves(
    event: EventType,
    competitor: Competitor,
    include_dnf: bool,
    draws: Seq<LaneDraw>,
) -> Seq<Seq<i32>> {
    match event {
        EventType::Ao5(_) => spec_solves(&Ao5Simulation, competitor, include_dnf, draws),
        EventType::Mo3(e) => spec_solves(
            &Mo3Simulation { event: e },
            competitor,
            include_dnf,
            draws,
        ),
        EventType::Bo3(_) => spec_solves(&Bo3Simulation, competitor, include_dnf, draws),
    }
}

/// The result of a competitor in each lane of one batch: the failure time
/// in every lane without stats, else what the event's format makes of the
/// competitor's attempts.
pub open spec fn spec_round_result(
    event: EventType,
    competitor: Competitor,
    include_dnf: bool,
    draws: Seq<LaneDraw>,
) -> Seq<i32> {
    let solves = spec_round_solves(event, competitor, include_dnf, draws);
    if competitor.stats.is_none() {
        spec_splat(DNF_VALUE)
    } else {
        match event {
            EventType::Ao5(_) => Ao5Simulation.spec_result(solves),
            EventType::Mo3(e) => (Mo3Simulation { event: e }).spec_result(solves),
            EventType::Bo3(_) => Bo3Simulation.spec_result(solves),
        }
    }
}

/// The histogram counts of a competitor after one more batch.  A
/// competitor without stats leaves its histograms as they are.
pub open spec fn spec_round_counts(
    event: EventType,
    competitor: Competitor,
    include_dnf: bool,
    draws: Seq<LaneDraw>,
    bounds: (i32, i32),
    counts: HistogramCounts,
) -> HistogramCounts {
    if competitor.stats.is_none() {
        counts
    } else {
        HistogramCounts {
            single: counts_with_attempts(
                counts.single,
                bounds.0,
                bounds.1,
                spec_round_solves(event, competitor, include_dnf, draws),
                competitor.entered_results@,
                spec_num_attempts(event),
            ),
            average: counts_with_times(
                counts.average,
                bounds.0,
                bounds.1,
                spec_round_result(event, competitor, include_dnf, draws),
                4,
            ),
        }
    }
}

/// The results of a batch: for every competitor its result in each lane.
pub open spec fn spec_batch_results(m: SimulatorModel, batch: Seq<Vec<LaneDraw>>) -> Seq<Seq<i32>> {
    Seq::new(
        m.competitors.len(),
        |c: int|
            spec_round_result(m.event, m.competitors[c], m.config.include_dnf, draws_for(batch, c)),
    )
}

/// The round simulated in lane `lane` of a batch.
pub open spec fn spec_batch_round(m: SimulatorModel, batch: Seq<Vec<LaneDraw>>, lane: int) -> Seq<
    i32,
> {
    Seq::new(m.competitors.len(), |c: int| spec_batch_results(m, batch)[c][lane])
}

/// `rounds` followed by the first `k` lanes of a batch.
pub open spec fn spec_with_lanes(rounds: Seq<Seq<i32>>, batch: Seq<[i32; 4]>, k: nat) -> Seq<
    Seq<i32>,
>
    decreases k,
{
    if k == 0 {
        rounds
    } else {
        spec_with_lanes(rounds, batch, (k - 1) as nat).push(spec_lane(batch, k - 1))
    }
}

/// `rounds` followed by the four rounds of a batch, lane 0 first.
pub open spec fn spec_with_batch(rounds: Seq<Seq<i32>>, batch: Seq<[i32; 4]>) -> Seq<Seq<i32>> {
    spec_with_lanes(rounds, batch, 4)
}

/// Whether a further batch can be simulated: a run has been started, its
/// output has not been taken, and it is not complete.
pub open spec fn spec_can_step(m: SimulatorModel) -> bool {
    m.histograms.is_some() && m.batches_run < spec_num_batches(m.config)
}

/// Number of batches that can still be simulated.
pub open spec fn spec_batches_left(m: SimulatorModel) -> nat {
    if spec_can_step(m) {
        (spec_num_batches(m.config) - m.batches_run) as nat
    } else {
        0
    }
}

/// The state after one more batch with the given draws; the state itself
/// where no further batch can be simulated.
pub open spec fn spec_step(m: SimulatorModel, batch: Seq<Vec<LaneDraw>>) -> SimulatorModel {
    if spec_can_step(m) {
        SimulatorModel {
            batches_run: m.batches_run + 1,
            rounds: m.rounds.push(spec_batch_round(m, batch, 0)).push(
                spec_batch_round(m, batch, 1),
            ).push(spec_batch_round(m, batch, 2)).push(spec_batch_round(m, batch, 3)),
            histograms: Some(
                Seq::new(
                    m.competitors.len(),
                    |c: int|
                        spec_round_counts(
                            m.event,
                            m.competitors[c],
                            m.config.include_dnf,
                            draws_for(batch, c),
                            spec_hist_bounds(m.competitors),
                            m.histograms.unwrap()[c],
                        ),
                ),
            ),
            ..m
        }
    } else {
        m
    }
}

/// The state at the start of a run: nothing simulated, nothing counted.
pub open spec fn spec_start(m: SimulatorModel, config: RuntimeConfig) -> SimulatorModel {
    SimulatorModel {
        config,
        batches_run: 0,
        rounds: Seq::empty(),
        histograms: Some(
            Seq::new(
                m.competitors.len(),
                |c: int| HistogramCounts { single: Map::empty(), average: Map::empty() },
            ),
        ),
        ..m
    }
}

/// The state after the first `k` batches of a run with the given draws.
pub open spec fn spec_steps(
    m: SimulatorModel,
    draws: Seq<Vec<Vec<LaneDraw>>>,
    k: nat,
) -> SimulatorModel
    decreases k,
{
    if k == 0 {
        m
    } else {
        spec_step(spec_steps(m, draws, (k - 1) as nat), batch_at(draws, k - 1))
    }
}

/// The state after a whole run with the given draws.
pub open spec fn spec_run(
    m: SimulatorModel,
    config: RuntimeConfig,
    draws: Seq<Vec<Vec<LaneDraw>>>,
) -> SimulatorModel {
    spec_steps(spec_start(m, config), draws, spec_num_batches(config))
}

/// The field with the results in `entered` entered: competitor `i` gets
/// `entered[i]`, and a competitor for whom the list holds nothing keeps
/// what it has.
pub open spec fn spec_with_entered(competitors: Seq<Competitor>, entered: Seq<Vec<i32>>) -> Seq<
    Competitor,
> {
    Seq::new(
        competitors.len(),
        |i: int|
            if i < entered.len() {
                Competitor {
                    name: competitors[i].name,
                    results: competitors[i].results,
                    entered_results: entered[i],
                    stats: competitors[i].stats,
                }
            } else {
                competitors[i]
            },
    )
}

/// Whether `entered` holds exactly `attempts` results for each of the first
/// `k` competitors that it has an entry for.
pub open spec fn spec_entries_fit(n: nat, entered: Seq<Vec<i32>>, attempts: nat, k: int) -> bool {
    forall|i: int|
        0 <= i < k && i < n && i < entered.len() ==> (#[trigger] entered[i])@.len() == attempts
}

/// Whether a result is entered for every attempt slot of the event.
pub open spec fn all_entered(event: EventType, competitor: Competitor) -> bool {
    forall|slot: int|
        0 <= slot < spec_num_attempts(event) ==> #[trigger] entered_at(
            competitor.entered_results@,
            slot,
        ) != 0
}

/// Whether every competitor without stats has the failure time in every
/// one of the rounds.
pub open spec fn no_stats_fail(competitors: Seq<Competitor>, rounds: Seq<Seq<i32>>) -> bool {
    forall|i: int, c: int|
        0 <= i < rounds.len() && 0 <= c < competitors.len() && competitors[c].stats.is_none()
            ==> #[trigger] rounds[i][c] == DNF_VALUE
}

/// A competitor without stats has the failure time in every lane, whatever
/// is entered for it and whatever is drawn.
pub proof fn lemma_no_stats_fails(
    event: EventType,
    competitor: Competitor,
    include_dnf: bool,
    draws: Seq<LaneDraw>,
    lane: int,
)
    requires
        competitor.stats.is_none(),
        0 <= lane < 4,
    ensures
        spec_round_result(event, competitor, include_dnf, draws)[lane] == DNF_VALUE,
{
}

/// Where a result is entered for every attempt slot of a competitor, its
/// result in a round does not depend on what is drawn, nor on whether
/// failures are modelled, and is the same in every lane.
pub proof fn lemma_entered_results_decide(
    event: EventType,
    competitor: Competitor,
    include_dnf: bool,
    draws: Seq<LaneDraw>,
    other_include_dnf: bool,
    other_draws: Seq<LaneDraw>,
)
    requires
        all_entered(event, competitor),
    ensures
        spec_round_result(event, competitor, include_dnf, draws) == spec_round_result(
            event,
            competitor,
            other_include_dnf,
            other_draws,
        ),
        forall|l: int|
            0 <= l < 4 ==> #[trigger] spec_round_result(event, competitor, include_dnf, draws)[l]
                == spec_round_result(event, competitor, include_dnf, draws)[0],
{
    let first = spec_round_solves(event, competitor, include_dnf, draws);
    let second = spec_round_solves(event, competitor, other_include_dnf, other_draws);
    assert forall|slot: int| 0 <= slot < spec_num_attempts(event) implies first[slot]
        == second[slot] && (forall|l: int| 0 <= l < 4 ==> (#[trigger] first[slot][l])
        == first[slot][0]) by {
        assert(entered_at(competitor.entered_results@, slot) != 0);
    }
    assert(first =~= second);
    assert(spec_round_result(event, competitor, include_dnf, draws) =~= spec_round_result(
        event,
        competitor,
        other_include_dnf,
        other_draws,
    ));
}

/// Every round of a run holds a result for every competitor, and for a
/// competitor without stats the failure time.
pub proof fn lemma_rounds_of_run(m: SimulatorModel, draws: Seq<Vec<Vec<LaneDraw>>>, k: nat)
    requires
        rounds_of_field(m.competitors.len(), m.rounds),
        no_stats_fail(m.competitors, m.rounds),
    ensures
        spec_steps(m, draws, k).competitors == m.competitors,
        spec_steps(m, draws, k).event == m.event,
        spec_steps(m, draws, k).config == m.config,
        rounds_of_field(m.competitors.len(), spec_steps(m, draws, k).rounds),
        no_stats_fail(m.competitors, spec_steps(m, draws, k).rounds),
    decreases k,
{
    if k > 0 {
        lemma_rounds_of_run(m, draws, (k - 1) as nat);
        let before = spec_steps(m, draws, (k - 1) as nat);
        let after = spec_steps(m, draws, k);
        let batch = batch_at(draws, k - 1);
        assert(after == spec_step(before, batch));
        if spec_can_step(before) {
            let old_len = before.rounds.len();
            assert forall|i: int, c: int|
                0 <= i < after.rounds.len() && 0 <= c < m.competitors.len()
                    && m.competitors[c].stats.is_none() implies #[trigger] after.rounds[i][c]
                == DNF_VALUE by {
                if i < old_len {
                    assert(after.rounds[i] == before.rounds[i]);
                    assert(before.rounds[i][c] == DNF_VALUE);
                } else {
                    assert(after.rounds[i] == spec_batch_round(before, batch, i - old_len));
                }
            }
            assert forall|i: int| 0 <= i < after.rounds.len() implies (
            #[trigger] after.rounds[i]).len() == m.competitors.len() by {
                if i < old_len {
                    assert(after.rounds[i] == before.rounds[i]);
                } else {
                    assert(after.rounds[i] == spec_batch_round(before, batch, i - old_len));
                }
            }
        }
    }
}

/// Whether every competitor of the field is without stats or has a result
/// entered for every attempt slot.
pub open spec fn field_decided(m: SimulatorModel) -> bool {
    forall|c: int|
        0 <= c < m.competitors.len() ==> (#[trigger] m.competitors[c]).stats.is_none()
            || all_entered(m.event, m.competitors[c])
}

/// Where the results of the whole field are entered, every simulated round
/// is the same round, whichever batch and lane it is simulated in and
/// whatever is drawn: the same competitor wins every one of them.
pub proof fn lemma_entered_field_repeats(
    m: SimulatorModel,
    batch: Seq<Vec<LaneDraw>>,
    lane: int,
    other_batch: Seq<Vec<LaneDraw>>,
    other_lane: int,
)
    requires
        field_decided(m),
        0 <= lane < 4,
        0 <= other_lane < 4,
    ensures
        spec_batch_round(m, batch, lane) == spec_batch_round(m, other_batch, other_lane),
{
    assert forall|c: int| 0 <= c < m.competitors.len() implies spec_batch_round(m, batch, lane)[c]
        == spec_batch_round(m, other_batch, other_lane)[c] by {
        let competitor = m.competitors[c];
        if !competitor.stats.is_none() {
            lemma_entered_results_decide(
                m.event,
                competitor,
                m.config.include_dnf,
                draws_for(batch, c),
                m.config.include_dnf,
                draws_for(other_batch, c),
            );
            let here = spec_round_result(
                m.event,
                competitor,
                m.config.include_dnf,
                draws_for(batch, c),
            );
            assert(here[lane] == here[0]);
            assert(here[other_lane] == here[0]);
        }
    }
    assert(spec_batch_round(m, batch, lane) =~= spec_batch_round(m, other_batch, other_lane));
}

/// A competitor without stats finishes last in every round in which every
/// other competitor has a result below the failure time: over such rounds
/// all its finishes are in the last place, it never wins in a field of two
/// or more, and never stands on the podium in a field of four or more.
pub proof fn lemma_no_stats_finishes_last(
    competitors: Seq<Competitor>,
    rounds: Seq<Seq<i32>>,
    c: int,
)
    requires
        rounds_of_field(competitors.len(), rounds),
        no_stats_fail(competitors, rounds),
        0 <= c < competitors.len(),
        competitors[c].stats.is_none(),
        forall|i: int, k: int|
            0 <= i < rounds.len() && 0 <= k < competitors.len() && k != c ==> (
            #[trigger] rounds[i][k]) < DNF_VALUE,
    ensures
        tally_rounds(competitors.len(), rounds, c).rank_dist[competitors.len() - 1]
            == rounds.len(),
        competitors.len() >= 2 ==> tally_rounds(competitors.len(), rounds, c).win_count == 0,
        competitors.len() >= 4 ==> tally_rounds(competitors.len(), rounds, c).pod_count == 0,
{
    assert forall|i: int| 0 <= i < rounds.len() implies all_others_ahead(
        #[trigger] rounds[i],
        c,
    ) by {
        assert forall|k: int| 0 <= k < rounds[i].len() && k != c implies #[trigger] places_ahead(
            rounds[i],
            k,
            c,
        ) by {
            assert(rounds[i][k] < DNF_VALUE);
            assert(rounds[i][c] == DNF_VALUE);
        }
    }
    lemma_last_in_every_round(competitors.len(), rounds, c);
}

/// The histogram range of a field rests on the stats of its competitors
/// alone.
pub proof fn lemma_bounds_rest_on_stats(first: Seq<Competitor>, second: Seq<Competitor>, k: nat)
    requires
        first.len() == second.len(),
        k <= first.len(),
        forall|c: int| 0 <= c < first.len() ==> (#[trigger] first[c]).stats == second[c].stats,
    ensures
        spec_bounds_of(first, k) == spec_bounds_of(second, k),
    decreases k,
{
    if k > 0 {
        lemma_bounds_rest_on_stats(first, second, (k - 1) as nat);
        assert(first[k - 1].stats == second[k - 1].stats);
    }
}

} // verus!

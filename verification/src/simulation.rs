//! The simulator: the field, the accumulators of a run, and the protocol of
//! loading once and running as often as wanted.

use crate::calc::{as_ints, find_lowest_indices, is_ranking, ranking, spec_lane, transpose_solves};
use crate::competitor::Competitor;
use crate::event::{spec_num_attempts, EventType};
use crate::event_simulator::{Ao5Simulation, Bo3Simulation, EventSimulation, Mo3Simulation};
use crate::histogram::Histogram;
use crate::model::{
    batch_at, draws_for, lemma_bounds_rest_on_stats, lemma_rounds_of_run, no_stats_fail,
    spec_batch_round, spec_batches_left, spec_bounds_of, spec_can_step, spec_entries_fit,
    spec_hist_bounds, spec_num_batches, spec_round_counts, spec_round_result, spec_run,
    spec_start, spec_step, spec_steps, spec_with_batch, spec_with_entered, spec_with_lanes,
    HistogramCounts, SimulatorModel,
};
use crate::simd::{spec_splat, LaneDraw, DNF_VALUE};
use crate::tally::{
    lemma_places, lemma_rank_distribution_total, lemma_tally_shape, lemma_total_podiums,
    lemma_total_wins, place_of, rounds_of_field, sum_of, tally_round, tally_rounds,
    total_podiums, total_wins, zero_tally, Tally,
};
use std::collections::HashMap;
use vstd::prelude::*;

verus! {

/// What a run is asked to do.
#[derive(Debug, Clone, Copy)]
pub struct RuntimeConfig {
    /// Number of simulated rounds; a run simulates the largest multiple of
    /// four that does not exceed it.
    pub num_simulations: u32,
    /// Whether attempts drawn as failed count as failed.
    pub include_dnf: bool,
}

/// The two histograms kept for a competitor.
#[derive(Debug)]
pub struct ResultHistograms {
    /// Single attempts that were simulated, not entered.
    pub hist_single: Histogram,
    /// Results of the simulated rounds.
    pub hist_average: Histogram,
}

/// What a run accumulates for one competitor.
pub struct SimulationResult {
    win_count: u32,
    pod_count: u32,
    total_rank: u64,
    rank_dist: Vec<u32>,
    histograms: ResultHistograms,
}

impl SimulationResult {
    /// The place counts.
    pub closed spec fn spec_tally(&self) -> Tally {
        Tally {
            win_count: self.win_count as int,
            pod_count: self.pod_count as int,
            total_rank: self.total_rank as int,
            rank_dist: Seq::new(self.rank_dist@.len(), |p: int| self.rank_dist@[p] as int),
        }
    }

    /// The two histograms.
    pub closed spec fn spec_histograms(&self) -> ResultHistograms {
        self.histograms
    }

    /// An accumulator for one competitor of a field of `num_competitors`,
    /// with nothing counted and both histograms over `[hist_min, hist_max)`.
    pub fn new(num_competitors: usize, hist_min: i32, hist_max: i32) -> (r: Self)
        ensures
            r.spec_tally() == zero_tally(num_competitors as nat),
            r.spec_histograms().hist_single@ == Map::<i32, i32>::empty(),
            r.spec_histograms().hist_average@ == Map::<i32, i32>::empty(),
            r.spec_histograms().hist_single.spec_min() == hist_min,
            r.spec_histograms().hist_single.spec_max() == hist_max,
            r.spec_histograms().hist_average.spec_min() == hist_min,
            r.spec_histograms().hist_average.spec_max() == hist_max,
    {
        let histograms = ResultHistograms {
            hist_single: Histogram::new_with_bounds(hist_min, hist_max),
            hist_average: Histogram::new_with_bounds(hist_min, hist_max),
        };
        let mut rank_dist: Vec<u32> = Vec::new();
        let mut i: usize = 0;
        while i < num_competitors
            invariant
                i <= num_competitors,
                rank_dist.len() == i,
                forall|p: int| 0 <= p < i ==> rank_dist[p] == 0,
            decreases num_competitors - i,
        {
            rank_dist.push(0);
            i += 1;
        }
        let r = Self { win_count: 0, pod_count: 0, total_rank: 0, rank_dist, histograms };
        assert(r.spec_tally().rank_dist =~= zero_tally(num_competitors as nat).rank_dist);
        r
    }

    /// The counts of the two histograms.
    pub open spec fn spec_counts(&self) -> HistogramCounts {
        HistogramCounts {
            single: self.spec_histograms().hist_single@,
            average: self.spec_histograms().hist_average@,
        }
    }

    /// Whether both histograms range over `[bounds.0, bounds.1)`.
    pub open spec fn spec_ranges_over(&self, bounds: (i32, i32)) -> bool {
        &&& self.spec_histograms().hist_single.spec_min() == bounds.0
        &&& self.spec_histograms().hist_single.spec_max() == bounds.1
        &&& self.spec_histograms().hist_average.spec_min() == bounds.0
        &&& self.spec_histograms().hist_average.spec_max() == bounds.1
    }

    /// Rounds won.
    pub fn win_count(&self) -> (r: u32)
        ensures
            r == self.spec_tally().win_count,
    {
        self.win_count
    }

    /// Rounds finished among the first three.
    pub fn pod_count(&self) -> (r: u32)
        ensures
            r == self.spec_tally().pod_count,
    {
        self.pod_count
    }

    /// Sum over the rounds of the rank, counted from one.
    pub fn total_rank(&self) -> (r: u64)
        ensures
            r == self.spec_tally().total_rank,
    {
        self.total_rank
    }

    /// For every place the number of rounds finished there.
    pub fn rank_dist(&self) -> (r: &Vec<u32>)
        ensures
            r@.len() == self.spec_tally().rank_dist.len(),
            forall|p: int| 0 <= p < r@.len() ==> #[trigger] r@[p] == self.spec_tally().rank_dist[p],
    {
        &self.rank_dist
    }

    /// The two histograms.
    pub fn histograms(&self) -> (r: &ResultHistograms)
        ensures
            *r == self.spec_histograms(),
    {
        &self.histograms
    }
}

/// What a run reports for one competitor.
#[derive(Debug)]
pub struct SimulationWASMOutput {
    pub name: String,
    pub sample_size: u32,
    pub win_count: u32,
    pub pod_count: u32,
    pub total_rank: u64,
    pub mean_no_dnf: u32,
    pub rank_dist: Vec<u32>,
    pub hist_values_single: HashMap<i32, i32>,
    pub hist_values_average: HashMap<i32, i32>,
}

/// A tally as the accumulators hold it: the rank sum stays at `u64::MAX`
/// where it would exceed it.
pub open spec fn spec_held(tally: Tally) -> Tally {
    Tally {
        total_rank: if tally.total_rank <= u64::MAX {
            tally.total_rank
        } else {
            u64::MAX as int
        },
        ..tally
    }
}

/// Whether `output` reports competitor `c` of a simulator in state `m`.
pub open spec fn is_output_of(m: SimulatorModel, c: int, output: SimulationWASMOutput) -> bool {
    let n = m.competitors.len();
    let tally = spec_held(tally_rounds(n, m.rounds, c));
    &&& output.name@ == m.competitors[c].name@
    &&& output.sample_size == match m.competitors[c].stats {
        Some(s) => s.num_non_dnf_results,
        None => 0,
    }
    &&& output.mean_no_dnf == match m.competitors[c].stats {
        Some(s) => s.mean,
        None => DNF_VALUE as u32,
    }
    &&& output.win_count == tally.win_count
    &&& output.pod_count == tally.pod_count
    &&& output.total_rank == tally.total_rank
    &&& output.rank_dist@.len() == n
    &&& forall|p: int| 0 <= p < n ==> #[trigger] output.rank_dist@[p] == tally.rank_dist[p]
    &&& m.histograms.is_some() ==> output.hist_values_single@ == m.histograms.unwrap()[c].single
        && output.hist_values_average@ == m.histograms.unwrap()[c].average
}

/// Why a list of entered results was refused.
#[derive(Debug, Clone, Copy, PartialEq, Eq, Structural)]
pub struct AttemptCountMismatch {
    /// The first competitor whose entry has the wrong length.
    pub competitor: usize,
    /// Attempts per round of the event.
    pub expected: usize,
    /// Length of the entry.
    pub found: usize,
}

/// Wins reported for the first `k` competitors together.
pub open spec fn reported_wins(out: Seq<SimulationWASMOutput>, k: nat) -> int
    decreases k,
{
    if k == 0 {
        0
    } else {
        reported_wins(out, (k - 1) as nat) + out[k - 1].win_count
    }
}

/// Podiums reported for the first `k` competitors together.
pub open spec fn reported_podiums(out: Seq<SimulationWASMOutput>, k: nat) -> int
    decreases k,
{
    if k == 0 {
        0
    } else {
        reported_podiums(out, (k - 1) as nat) + out[k - 1].pod_count
    }
}

/// The rank distribution reported for a competitor.
pub open spec fn reported_ranks(output: SimulationWASMOutput) -> Seq<int> {
    Seq::new(output.rank_dist@.len(), |p: int| output.rank_dist@[p] as int)
}

/// What is reported of a run adds up.  The wins of all competitors are as
/// many as the rounds that were simulated, the podiums of a field of three
/// or more three times as many, and the rank distribution of every
/// competitor sums to the number of rounds.
pub proof fn lemma_output_adds_up(m: SimulatorModel, out: Seq<SimulationWASMOutput>)
    requires
        out.len() == m.competitors.len(),
        rounds_of_field(m.competitors.len(), m.rounds),
        forall|c: int| 0 <= c < out.len() ==> is_output_of(m, c, #[trigger] out[c]),
    ensures
        out.len() >= 1 ==> reported_wins(out, out.len()) == m.rounds.len(),
        out.len() >= 3 ==> reported_podiums(out, out.len()) == 3 * m.rounds.len(),
        forall|c: int|
            0 <= c < out.len() ==> sum_of(reported_ranks(#[trigger] out[c])) == m.rounds.len(),
{
    let n = m.competitors.len();
    lemma_reported_totals(m, out, n);
    if n >= 1 {
        lemma_total_wins(n, m.rounds);
    }
    if n >= 3 {
        lemma_total_podiums(n, m.rounds);
    }
    assert forall|c: int| 0 <= c < out.len() implies sum_of(reported_ranks(#[trigger] out[c]))
        == m.rounds.len() by {
        assert(is_output_of(m, c, out[c]));
        lemma_tally_shape(n, m.rounds, c);
        assert(reported_ranks(out[c]) =~= tally_rounds(n, m.rounds, c).rank_dist);
    }
}

/// The wins and podiums reported for the first competitors are those of
/// their tallies.
proof fn lemma_reported_totals(m: SimulatorModel, out: Seq<SimulationWASMOutput>, k: nat)
    requires
        out.len() == m.competitors.len(),
        k <= out.len(),
        forall|c: int| 0 <= c < out.len() ==> is_output_of(m, c, #[trigger] out[c]),
    ensures
        reported_wins(out, k) == total_wins(m.competitors.len(), m.rounds, k),
        reported_podiums(out, k) == total_podiums(m.competitors.len(), m.rounds, k),
    decreases k,
{
    if k > 0 {
        lemma_reported_totals(m, out, (k - 1) as nat);
        assert(is_output_of(m, k - 1, out[k - 1]));
    }
}

/// Simulator of one event for one field of competitors.
pub struct CompetitionSimulator {
    event: EventType,
    competitors_data: Vec<Competitor>,
    simulation_results: Option<Vec<SimulationResult>>,
    config: RuntimeConfig,
    batches_run: u32,
    rounds: Ghost<Seq<Seq<i32>>>,
}

impl View for CompetitionSimulator {
    type V = SimulatorModel;

    closed spec fn view(&self) -> SimulatorModel {
        SimulatorModel {
            event: self.event,
            competitors: self.competitors_data@,
            config: self.config,
            batches_run: self.batches_run as nat,
            rounds: self.rounds@,
            histograms: match self.simulation_results {
                Some(results) => Some(
                    Seq::new(self.competitors_data@.len(), |c: int| results@[c].spec_counts()),
                ),
                None => None,
            },
        }
    }
}

/// Whether `results` holds, for each of `n` competitors, the tally of the
/// given rounds.
spec fn results_hold(results: Seq<SimulationResult>, n: nat, rounds: Seq<Seq<i32>>) -> bool {
    &&& results.len() == n
    &&& forall|c: int|
        0 <= c < n ==> (#[trigger] results[c]).spec_tally() == spec_held(
            tally_rounds(n, rounds, c),
        )
}

impl CompetitionSimulator {
    /// What holds of every simulator: while the accumulators of a run are
    /// there, they hold the tallies of the rounds simulated so far, four
    /// rounds for every batch and no more batches than the run has, and
    /// every histogram ranges over the bounds shared by the field.
    #[verifier::type_invariant]
    spec fn wf(self) -> bool {
        let n = self.competitors_data@.len();
        match self.simulation_results {
            Some(results) => {
                &&& self.batches_run <= spec_num_batches(self.config)
                &&& self.rounds@.len() == 4 * self.batches_run
                &&& rounds_of_field(n, self.rounds@)
                &&& results_hold(results@, n, self.rounds@)
                &&& forall|c: int|
                    0 <= c < n ==> (#[trigger] results@[c]).spec_ranges_over(
                        spec_hist_bounds(self.competitors_data@),
                    )
            },
            None => true,
        }
    }

    /// A simulator of `event` for the given field, with no run started.
    pub fn new(event: EventType, competitors: Vec<Competitor>) -> (r: Self)
        ensures
            r@ == (SimulatorModel {
                event,
                competitors: competitors@,
                config: RuntimeConfig { num_simulations: 0, include_dnf: false },
                batches_run: 0,
                rounds: Seq::empty(),
                histograms: None,
            }),
    {
        Self {
            event,
            competitors_data: competitors,
            simulation_results: None,
            config: RuntimeConfig { num_simulations: 0, include_dnf: false },
            batches_run: 0,
            rounds: Ghost(Seq::empty()),
        }
    }

    /// The event that is simulated.
    pub fn event(&self) -> (r: EventType)
        ensures
            r == self@.event,
    {
        self.event
    }

    /// The field.
    pub fn competitors(&self) -> (r: &Vec<Competitor>)
        ensures
            r@ == self@.competitors,
    {
        &self.competitors_data
    }

    /// Whether the accumulators of a run are there to be read.
    pub fn has_results(&self) -> (r: bool)
        ensures
            r == self@.histograms.is_some(),
    {
        self.simulation_results.is_some()
    }

    /// Number of batches that can still be simulated: those that the
    /// current run lacks, and none where no run is under way.
    pub fn batches_remaining(&self) -> (r: u32)
        ensures
            r == spec_batches_left(self@),
            r > 0 <==> spec_can_step(self@),
    {
        proof {
            use_type_invariant(self);
        }
        if self.simulation_results.is_some() {
            self.config.num_simulations / 4 - self.batches_run
        } else {
            0
        }
    }

    /// The histogram range of the field.
    fn hist_bounds(&self) -> (r: (i32, i32))
        ensures
            r == spec_hist_bounds(self.competitors_data@),
    {
        let mut hist_min: i32 = i32::MAX;
        let mut hist_max: i32 = 0;
        let mut i: usize = 0;
        while i < self.competitors_data.len()
            invariant
                i <= self.competitors_data.len(),
                (hist_min as int, hist_max as int) == spec_bounds_of(
                    self.competitors_data@,
                    i as nat,
                ),
            decreases self.competitors_data.len() - i,
        {
            let (min, max) = self.competitors_data[i].get_person_hist_bounds();
            if min < hist_min {
                hist_min = min;
            }
            if max > hist_max {
                hist_max = max;
            }
            i += 1;
        }
        if hist_min < 0 {
            hist_min = 0;
        }
        (hist_min, hist_max)
    }

    /// Fresh accumulators for the field: one per competitor, all over the
    /// histogram range of the field.
    fn get_default_results(&self) -> (r: Vec<SimulationResult>)
        ensures
            results_hold(r@, self.competitors_data@.len(), Seq::empty()),
            forall|c: int|
                0 <= c < self.competitors_data@.len() ==> (#[trigger] r@[c]).spec_ranges_over(
                    spec_hist_bounds(self.competitors_data@),
                ),
            forall|c: int|
                0 <= c < self.competitors_data@.len() ==> (#[trigger] r@[c]).spec_counts() == (
                HistogramCounts { single: Map::empty(), average: Map::empty() }),
    {
        let (hist_min, hist_max) = self.hist_bounds();
        let num_competitors: usize = self.competitors_data.len();
        let mut results: Vec<SimulationResult> = Vec::new();
        let mut i: usize = 0;
        while i < num_competitors
            invariant
                i <= num_competitors,
                num_competitors == self.competitors_data@.len(),
                results.len() == i,
                (hist_min, hist_max) == spec_hist_bounds(self.competitors_data@),
                forall|c: int|
                    0 <= c < i ==> (#[trigger] results@[c]).spec_tally() == zero_tally(
                        num_competitors as nat,
                    ),
                forall|c: int|
                    0 <= c < i ==> (#[trigger] results@[c]).spec_ranges_over(
                        spec_hist_bounds(self.competitors_data@),
                    ),
                forall|c: int|
                    0 <= c < i ==> (#[trigger] results@[c]).spec_counts() == (HistogramCounts {
                        single: Map::empty(),
                        average: Map::empty(),
                    }),
            decreases num_competitors - i,
        {
            results.push(SimulationResult::new(num_competitors, hist_min, hist_max));
            i += 1;
        }
        results
    }

    /// Starts a run: takes over `config` and sets every accumulator to
    /// zero, whatever an earlier run left.
    pub fn start_run(&mut self, config: &RuntimeConfig)
        ensures
            final(self)@ == spec_start(old(self)@, *config),
    {
        let results = self.get_default_results();
        self.simulation_results = None;
        self.config = *config;
        self.batches_run = 0;
        self.rounds = Ghost(Seq::empty());
        self.simulation_results = Some(results);
        assert(self@.histograms.unwrap() =~= spec_start(old(self)@, *config).histograms.unwrap());
    }

    /// Simulates one batch of four rounds with the given draws, one entry
    /// per competitor and in it one draw per attempt slot.  Returns whether
    /// it did: nothing happens where no run is under way or the run is
    /// complete.
    pub fn run_batch(&mut self, draws: &Vec<Vec<LaneDraw>>) -> (ran: bool)
        ensures
            ran == spec_can_step(old(self)@),
            final(self)@ == spec_step(old(self)@, draws@),
    {
        proof {
            use_type_invariant(&*self);
        }
        if self.simulation_results.is_none() || self.batches_run >= self.config.num_simulations
            / 4 {
            return false;
        }
        let ghost before = self@;
        let ghost bounds = spec_hist_bounds(self.competitors_data@);
        let mut taken: Option<Vec<SimulationResult>> = None;
        std::mem::swap(&mut taken, &mut self.simulation_results);
        let mut results: Vec<SimulationResult> = taken.unwrap();
        let ghost start = results@;
        let sim_results = run_simulation_batch(
            self.event,
            &self.competitors_data,
            &self.config,
            draws,
            &mut results,
            Ghost(bounds),
        );
        let ghost batch = sim_results@;
        proof {
            assert(results_hold(results@, self.competitors_data@.len(), self.rounds@));
        }
        update_rankings(&mut results, sim_results, Ghost(self.rounds@));
        proof {
            let n = self.competitors_data@.len();
            assert forall|l: int| 0 <= l < 4 implies spec_lane(batch, l) == spec_batch_round(
                before,
                draws@,
                l,
            ) by {
                assert(spec_lane(batch, l) =~= spec_batch_round(before, draws@, l));
            }
            reveal_with_fuel(spec_with_lanes, 5);
            assert(spec_with_batch(self.rounds@, batch) == spec_step(before, draws@).rounds);
            assert forall|c: int| 0 <= c < n implies (#[trigger] results@[c]).spec_counts()
                == spec_step(before, draws@).histograms.unwrap()[c] by {
                assert(start[c].spec_counts() == before.histograms.unwrap()[c]);
            }
        }
        self.rounds = Ghost(spec_with_batch(self.rounds@, batch));
        self.batches_run += 1;
        self.simulation_results = Some(results);
        assert(self@.histograms.unwrap() =~= spec_step(before, draws@).histograms.unwrap());
        true
    }

    /// Enters results for the simulated round: competitor `i` gets
    /// `entered_times[i]`, which must hold one result per attempt slot of
    /// the event.  Competitors beyond the end of the list keep what they
    /// have, entries beyond the end of the field are ignored.  If an entry
    /// has the wrong length nothing is entered and the first such entry is
    /// reported.
    pub fn set_entered_results(&mut self, entered_times: Vec<Vec<i32>>) -> (r: Result<
        (),
        AttemptCountMismatch,
    >)
        ensures
            r.is_ok() <==> spec_entries_fit(
                old(self)@.competitors.len(),
                entered_times@,
                spec_num_attempts(old(self)@.event),
                entered_times@.len() as int,
            ),
            match r {
                Ok(_) => final(self)@ == (SimulatorModel {
                    competitors: spec_with_entered(old(self)@.competitors, entered_times@),
                    ..old(self)@
                }),
                Err(e) => {
                    &&& final(self)@ == old(self)@
                    &&& e.competitor < old(self)@.competitors.len()
                    &&& e.competitor < entered_times@.len()
                    &&& e.expected == spec_num_attempts(old(self)@.event)
                    &&& e.found == entered_times@[e.competitor as int]@.len()
                    &&& e.found != e.expected
                    &&& spec_entries_fit(
                        old(self)@.competitors.len(),
                        entered_times@,
                        spec_num_attempts(old(self)@.event),
                        e.competitor as int,
                    )
                },
            },
    {
        proof {
            use_type_invariant(&*self);
        }
        let expected: usize = self.event.num_attempts();
        let n: usize = self.competitors_data.len();
        let mut i: usize = 0;
        while i < n && i < entered_times.len()
            invariant
                self@ == old(self)@,
                *self == *old(self),
                n == self.competitors_data@.len(),
                expected == spec_num_attempts(self.event),
                spec_entries_fit(n as nat, entered_times@, expected as nat, i as int),
            decreases n - i,
        {
            let found: usize = entered_times[i].len();
            if found != expected {
                return Err(AttemptCountMismatch { competitor: i, expected, found });
            }
            i += 1;
        }
        let ghost before = self@;
        let ghost field = self.competitors_data@;
        let ghost given = entered_times@;
        let mut entered = entered_times;
        while entered.len() > n
            invariant
                entered@.len() <= given.len(),
                given.len() <= n ==> entered@.len() == given.len(),
                given.len() > n ==> entered@.len() >= n,
                entered@ == given.take(entered@.len() as int),
            decreases entered.len(),
        {
            let _ = entered.pop();
        }
        let mut kept: Option<Vec<SimulationResult>> = None;
        std::mem::swap(&mut kept, &mut self.simulation_results);
        let mut competitors: Vec<Competitor> = Vec::new();
        std::mem::swap(&mut competitors, &mut self.competitors_data);
        let mut k: usize = entered.len();
        while k > 0
            invariant
                k <= n,
                k == entered@.len(),
                k <= given.len(),
                n == field.len(),
                entered@ == given.take(k as int),
                competitors@.len() == n,
                forall|c: int| 0 <= c < k ==> #[trigger] competitors@[c] == field[c],
                forall|c: int|
                    k <= c < n ==> #[trigger] competitors@[c] == spec_with_entered(field, given)[c],
            decreases k,
        {
            k -= 1;
            let results: Vec<i32> = entered.pop().unwrap();
            assert(results == given[k as int]);
            competitors[k].add_entered_results(results);
        }
        proof {
            assert(competitors@ =~= spec_with_entered(field, given));
            lemma_bounds_rest_on_stats(field, competitors@, n as nat);
        }
        self.competitors_data = competitors;
        self.simulation_results = kept;
        proof {
            assert(self@.histograms =~= before.histograms) by {
                if self.simulation_results.is_some() {
                    assert(self@.histograms.unwrap() =~= before.histograms.unwrap());
                }
            }
        }
        Ok(())
    }

    /// A whole run: starts it and simulates its `num_simulations / 4`
    /// batches, batch `b` with `draws[b]`; a batch for which `draws` holds
    /// nothing is simulated without draws.  Whatever an earlier run left is
    /// replaced.
    pub fn run_simulations(&mut self, config: &RuntimeConfig, draws: &Vec<Vec<Vec<LaneDraw>>>)
        ensures
            final(self)@ == spec_run(old(self)@, *config, draws@),
            final(self)@.histograms.is_some(),
            final(self)@.competitors == old(self)@.competitors,
            final(self)@.batches_run == spec_num_batches(*config),
            final(self)@.rounds.len() == 4 * spec_num_batches(*config),
            rounds_of_field(final(self)@.competitors.len(), final(self)@.rounds),
            no_stats_fail(final(self)@.competitors, final(self)@.rounds),
            final(self)@.competitors.len() >= 1 ==> total_wins(
                final(self)@.competitors.len(),
                final(self)@.rounds,
                final(self)@.competitors.len(),
            ) == 4 * spec_num_batches(*config),
            final(self)@.competitors.len() >= 3 ==> total_podiums(
                final(self)@.competitors.len(),
                final(self)@.rounds,
                final(self)@.competitors.len(),
            ) == 12 * spec_num_batches(*config),
            forall|c: int|
                0 <= c < final(self)@.competitors.len() ==> sum_of(
                    #[trigger] tally_rounds(
                        final(self)@.competitors.len(),
                        final(self)@.rounds,
                        c,
                    ).rank_dist,
                ) == 4 * spec_num_batches(*config),
    {
        self.start_run(config);
        let ghost started = self@;
        let no_draws: Vec<Vec<LaneDraw>> = Vec::new();
        let num_batches: u32 = config.num_simulations / 4;
        let mut b: u32 = 0;
        while b < num_batches
            invariant
                b <= num_batches,
                num_batches == spec_num_batches(*config),
                no_draws@ == Seq::<Vec<LaneDraw>>::empty(),
                started == spec_start(old(self)@, *config),
                self@ == spec_steps(started, draws@, b as nat),
                self@.batches_run == b,
                self@.config == *config,
                self@.histograms.is_some(),
                self@.competitors == old(self)@.competitors,
            decreases num_batches - b,
        {
            let batch: &Vec<Vec<LaneDraw>> = if (b as usize) < draws.len() {
                &draws[b as usize]
            } else {
                &no_draws
            };
            assert(batch@ == batch_at(draws@, b as int));
            let _ = self.run_batch(batch);
            b += 1;
        }
        proof {
            use_type_invariant(&*self);
            let n = self@.competitors.len();
            lemma_rounds_of_run(started, draws@, num_batches as nat);
            if n >= 1 {
                lemma_total_wins(n, self@.rounds);
            }
            if n >= 3 {
                lemma_total_podiums(n, self@.rounds);
            }
            assert forall|c: int| 0 <= c < n implies sum_of(
                #[trigger] tally_rounds(n, self@.rounds, c).rank_dist,
            ) == 4 * spec_num_batches(*config) by {
                lemma_rank_distribution_total(n, self@.rounds, c);
            }
        }
    }

    /// Takes the output of a run: for every competitor, in the order of the
    /// field, its name, the size and mean of its sample, its place counts
    /// and its two histograms.  The accumulators are gone afterwards, until
    /// the next run is started.
    pub fn generate_wasm_output(&mut self) -> (out: Vec<SimulationWASMOutput>)
        requires
            old(self)@.histograms.is_some(),
        ensures
            final(self)@ == (SimulatorModel { histograms: None, ..old(self)@ }),
            out.len() == old(self)@.competitors.len(),
            forall|c: int|
                0 <= c < out.len() ==> is_output_of(old(self)@, c, #[trigger] out@[c]),
    {
        proof {
            use_type_invariant(&*self);
        }
        let ghost before = self@;
        let n: usize = self.competitors_data.len();
        let mut taken: Option<Vec<SimulationResult>> = None;
        std::mem::swap(&mut taken, &mut self.simulation_results);
        let mut results: Vec<SimulationResult> = taken.unwrap();
        let ghost start = results@;
        let mut reversed: Vec<SimulationWASMOutput> = Vec::new();
        let mut k: usize = n;
        while k > 0
            invariant
                k <= n,
                n == self.competitors_data@.len(),
                n == before.competitors.len(),
                before.competitors == self.competitors_data@,
                before.rounds == self.rounds@,
                before.histograms.is_some(),
                rounds_of_field(n as nat, self.rounds@),
                results_hold(start, n as nat, self.rounds@),
                forall|c: int|
                    0 <= c < n ==> before.histograms.unwrap()[c] == (
                    #[trigger] start[c]).spec_counts(),
                results@ == start.take(k as int),
                reversed.len() == n - k,
                forall|j: int|
                    0 <= j < reversed.len() ==> is_output_of(
                        before,
                        n - 1 - j,
                        #[trigger] reversed@[j],
                    ),
            decreases k,
        {
            k -= 1;
            let result: SimulationResult = results.pop().unwrap();
            assert(result == start[k as int]);
            proof {
                lemma_tally_shape(n as nat, self.rounds@, k as int);
            }
            let competitor = &self.competitors_data[k];
            let SimulationResult { win_count, pod_count, total_rank, rank_dist, histograms } =
                result;
            let ResultHistograms { hist_single, hist_average } = histograms;
            let output = SimulationWASMOutput {
                name: competitor.name.clone(),
                sample_size: competitor.get_sample_size(),
                win_count,
                pod_count,
                total_rank,
                mean_no_dnf: competitor.get_mean(),
                rank_dist,
                hist_values_single: hist_single.data(),
                hist_values_average: hist_average.data(),
            };
            assert(is_output_of(before, k as int, output));
            reversed.push(output);
        }
        let ghost turned = reversed@;
        let mut out: Vec<SimulationWASMOutput> = Vec::new();
        while reversed.len() > 0
            invariant
                turned.len() == n,
                reversed@.len() <= n,
                out.len() == n - reversed@.len(),
                reversed@ == turned.take(reversed@.len() as int),
                forall|j: int|
                    0 <= j < n ==> is_output_of(before, n - 1 - j, #[trigger] turned[j]),
                forall|c: int| 0 <= c < out.len() ==> is_output_of(before, c, #[trigger] out@[c]),
            decreases reversed.len(),
        {
            let output = reversed.pop().unwrap();
            assert(output == turned[reversed@.len() as int]);
            out.push(output);
        }
        out
    }
}

/// Counts one more round in the tallies: ranks the competitors by their
/// results and gives each the place it finished in.
fn tally_lane(
    sim_results: &mut Vec<SimulationResult>,
    values: &Vec<i32>,
    Ghost(rounds): Ghost<Seq<Seq<i32>>>,
)
    requires
        results_hold(old(sim_results)@, values.len() as nat, rounds),
        rounds_of_field(values.len() as nat, rounds),
        rounds.len() < u32::MAX,
    ensures
        results_hold(final(sim_results)@, values.len() as nat, rounds.push(values@)),
        forall|c: int|
            0 <= c < values.len() ==> (#[trigger] final(sim_results)[c]).spec_histograms() == old(
                sim_results,
            )[c].spec_histograms(),
{
    let ghost n = values.len() as nat;
    let indices = find_lowest_indices(values.as_slice());
    let ghost order = ranking(values@);
    proof {
        lemma_places(values@);
        assert forall|c: int| 0 <= c < n implies (#[trigger] sim_results[c]).rank_dist@.len()
            == n by {
            lemma_tally_shape(n, rounds, c);
            assert(sim_results[c].spec_tally().rank_dist.len() == n);
        }
    }
    let mut position: usize = 0;
    while position < indices.len()
        invariant
            position <= indices.len(),
            indices.len() == n,
            n == values.len(),
            rounds.len() < u32::MAX,
            rounds_of_field(n, rounds),
            sim_results.len() == n,
            as_ints(indices@) == order,
            order == ranking(values@),
            is_ranking(values@, order),
            forall|c: int|
                0 <= c < n ==> 0 <= #[trigger] place_of(values@, c) < n && order[place_of(
                    values@,
                    c,
                )] == c,
            forall|p: int| 0 <= p < n ==> place_of(values@, #[trigger] order[p]) == p,
            forall|c: int| 0 <= c < n ==> (#[trigger] sim_results[c]).rank_dist@.len() == n,
            forall|c: int|
                0 <= c < n ==> (#[trigger] sim_results[c]).spec_histograms() == old(
                    sim_results,
                )[c].spec_histograms(),
            forall|c: int|
                0 <= c < n && place_of(values@, c) < position ==> (
                #[trigger] sim_results[c]).spec_tally() == spec_held(
                    tally_round(tally_rounds(n, rounds, c), place_of(values@, c)),
                ),
            forall|c: int|
                0 <= c < n && place_of(values@, c) >= position ==> (
                #[trigger] sim_results[c]).spec_tally() == spec_held(tally_rounds(n, rounds, c)),
        decreases indices.len() - position,
    {
        let competitor_index: usize = indices[position];
        let ghost c = competitor_index as int;
        let ghost before = tally_rounds(n, rounds, c);
        proof {
            assert(order[position as int] == c);
            assert(place_of(values@, c) == position);
            lemma_tally_shape(n, rounds, c);
            assert(sim_results[c].spec_tally() == spec_held(before));
            assert(before.rank_dist[position as int] <= rounds.len());
        }
        let ghost prior = sim_results@;
        let rank: u64 = position as u64 + 1;
        let total: u64 = sim_results[competitor_index].total_rank;
        sim_results[competitor_index].rank_dist[position] += 1;
        sim_results[competitor_index].total_rank = if total > u64::MAX - rank {
            u64::MAX
        } else {
            total + rank
        };
        if position == 0 {
            sim_results[competitor_index].win_count += 1;
        }
        if position < 3 {
            sim_results[competitor_index].pod_count += 1;
        }
        proof {
            assert(sim_results[c].spec_tally().rank_dist =~= tally_round(
                before,
                position as int,
            ).rank_dist);
            assert(sim_results[c].spec_tally() == spec_held(tally_round(before, position as int)));
            assert forall|k: int| 0 <= k < n && k != c implies (#[trigger] sim_results[k])
                == prior[k] by {}
        }
        position += 1;
    }
    proof {
        let next = rounds.push(values@);
        assert(next.drop_last() =~= rounds);
        assert(next.last() == values@);
        assert forall|c: int| 0 <= c < n implies (#[trigger] sim_results[c]).spec_tally()
            == spec_held(tally_rounds(n, next, c)) by {
            assert(place_of(values@, c) < position);
        }
    }
}

/// Counts the four rounds of a batch in the tallies, lane by lane.
fn update_rankings(
    sim_results: &mut Vec<SimulationResult>,
    solve_results: Vec<[i32; 4]>,
    Ghost(rounds): Ghost<Seq<Seq<i32>>>,
)
    requires
        results_hold(old(sim_results)@, solve_results.len() as nat, rounds),
        rounds_of_field(solve_results.len() as nat, rounds),
        rounds.len() + 4 <= u32::MAX,
    ensures
        results_hold(
            final(sim_results)@,
            solve_results.len() as nat,
            spec_with_batch(rounds, solve_results@),
        ),
        rounds_of_field(solve_results.len() as nat, spec_with_batch(rounds, solve_results@)),
        forall|c: int|
            0 <= c < solve_results.len() ==> (#[trigger] final(sim_results)[c]).spec_histograms()
                == old(sim_results)[c].spec_histograms(),
{
    let ghost n = solve_results.len() as nat;
    let ghost batch = solve_results@;
    let solves_by_sim = transpose_solves(solve_results);
    let ghost mut seen = rounds;
    let mut lane: usize = 0;
    while lane < 4
        invariant
            lane <= 4,
            batch.len() == n,
            rounds.len() + 4 <= u32::MAX,
            seen.len() == rounds.len() + lane,
            seen == spec_with_lanes(rounds, batch, lane as nat),
            rounds_of_field(n, seen),
            results_hold(sim_results@, n, seen),
            forall|l: int| 0 <= l < 4 ==> (#[trigger] solves_by_sim@[l])@ == spec_lane(batch, l),
            forall|c: int|
                0 <= c < n ==> (#[trigger] sim_results[c]).spec_histograms() == old(
                    sim_results,
                )[c].spec_histograms(),
        decreases 4 - lane,
    {
        let avg_by_competitor: &Vec<i32> = &solves_by_sim[lane];
        assert(avg_by_competitor@ == spec_lane(batch, lane as int));
        tally_lane(sim_results, avg_by_competitor, Ghost(seen));
        proof {
            seen = seen.push(avg_by_competitor@);
        }
        lane += 1;
    }
}

/// Simulates one batch for one competitor under the format of `event`.
fn simulate_event(
    event: EventType,
    competitor: &Competitor,
    config: &RuntimeConfig,
    draws: &[LaneDraw],
    histograms: &mut ResultHistograms,
    Ghost(bounds): Ghost<(i32, i32)>,
) -> (r: [i32; 4])
    requires
        competitor.stats.is_some(),
        old(histograms).hist_single.spec_min() == bounds.0,
        old(histograms).hist_single.spec_max() == bounds.1,
        old(histograms).hist_average.spec_min() == bounds.0,
        old(histograms).hist_average.spec_max() == bounds.1,
    ensures
        r@ == spec_round_result(event, *competitor, config.include_dnf, draws@),
        final(histograms).hist_single.spec_min() == bounds.0,
        final(histograms).hist_single.spec_max() == bounds.1,
        final(histograms).hist_average.spec_min() == bounds.0,
        final(histograms).hist_average.spec_max() == bounds.1,
        (HistogramCounts {
            single: final(histograms).hist_single@,
            average: final(histograms).hist_average@,
        }) == spec_round_counts(
            event,
            *competitor,
            config.include_dnf,
            draws@,
            bounds,
            (HistogramCounts {
                single: old(histograms).hist_single@,
                average: old(histograms).hist_average@,
            }),
        ),
{
    match event {
        EventType::Ao5(_) => {
            let sim = Ao5Simulation;
            sim.run_simulation(competitor, config, draws, histograms)
        },
        EventType::Mo3(mo3_event) => {
            let sim = Mo3Simulation { event: mo3_event };
            sim.run_simulation(competitor, config, draws, histograms)
        },
        EventType::Bo3(_) => {
            let sim = Bo3Simulation;
            sim.run_simulation(competitor, config, draws, histograms)
        },
    }
}

/// Simulates one batch for every competitor: returns the result of each
/// competitor in each lane and records the attempts and results of the
/// competitors with stats in their histograms.
fn run_simulation_batch(
    event: EventType,
    competitors: &Vec<Competitor>,
    config: &RuntimeConfig,
    draws: &Vec<Vec<LaneDraw>>,
    sim_results: &mut Vec<SimulationResult>,
    Ghost(bounds): Ghost<(i32, i32)>,
) -> (out: Vec<[i32; 4]>)
    requires
        old(sim_results).len() == competitors.len(),
        forall|c: int|
            0 <= c < competitors.len() ==> (#[trigger] old(sim_results)[c]).spec_ranges_over(
                bounds,
            ),
    ensures
        out.len() == competitors.len(),
        final(sim_results).len() == competitors.len(),
        forall|c: int|
            0 <= c < competitors.len() ==> (#[trigger] out[c])@ == spec_round_result(
                event,
                competitors[c],
                config.include_dnf,
                draws_for(draws@, c),
            ),
        forall|c: int|
            0 <= c < competitors.len() ==> (#[trigger] final(sim_results)[c]).spec_tally() == old(
                sim_results,
            )[c].spec_tally(),
        forall|c: int|
            0 <= c < competitors.len() ==> (#[trigger] final(sim_results)[c]).spec_ranges_over(
                bounds,
            ),
        forall|c: int|
            0 <= c < competitors.len() ==> (#[trigger] final(sim_results)[c]).spec_counts()
                == spec_round_counts(
                event,
                competitors[c],
                config.include_dnf,
                draws_for(draws@, c),
                bounds,
                old(sim_results)[c].spec_counts(),
            ),
{
    let no_draws: Vec<LaneDraw> = Vec::new();
    let mut out: Vec<[i32; 4]> = Vec::new();
    let mut i: usize = 0;
    while i < competitors.len()
        invariant
            i <= competitors.len(),
            out.len() == i,
            no_draws@ == Seq::<LaneDraw>::empty(),
            sim_results.len() == competitors.len(),
            forall|c: int|
                0 <= c < i ==> (#[trigger] out[c])@ == spec_round_result(
                    event,
                    competitors[c],
                    config.include_dnf,
                    draws_for(draws@, c),
                ),
            forall|c: int|
                0 <= c < competitors.len() ==> (#[trigger] sim_results[c]).spec_tally() == old(
                    sim_results,
                )[c].spec_tally(),
            forall|c: int|
                0 <= c < competitors.len() ==> (#[trigger] sim_results[c]).spec_ranges_over(bounds),
            forall|c: int|
                0 <= c < i ==> (#[trigger] sim_results[c]).spec_counts() == spec_round_counts(
                    event,
                    competitors[c],
                    config.include_dnf,
                    draws_for(draws@, c),
                    bounds,
                    old(sim_results)[c].spec_counts(),
                ),
            forall|c: int|
                i <= c < competitors.len() ==> (#[trigger] sim_results[c]).spec_counts() == old(
                    sim_results,
                )[c].spec_counts(),
        decreases competitors.len() - i,
    {
        let competitor = &competitors[i];
        let ghost prior = sim_results@;
        let lanes: [i32; 4] = if competitor.stats.is_none() {
            let failed = [DNF_VALUE, DNF_VALUE, DNF_VALUE, DNF_VALUE];
            assert(failed@ =~= spec_splat(DNF_VALUE));
            failed
        } else {
            let own: &[LaneDraw] = if i < draws.len() {
                draws[i].as_slice()
            } else {
                no_draws.as_slice()
            };
            assert(own@ == draws_for(draws@, i as int));
            simulate_event(
                event,
                competitor,
                config,
                own,
                &mut sim_results[i].histograms,
                Ghost(bounds),
            )
        };
        proof {
            assert forall|k: int| 0 <= k < competitors.len() && k != i implies (
            #[trigger] sim_results[k]) == prior[k] by {}
        }
        out.push(lanes);
        i += 1;
    }
    out
}

} // verus!

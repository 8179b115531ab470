//! The three result formats: how a competitor's attempts in a round are
//! produced, recorded and turned into the round's result.

use crate::competitor::{entered_at, spec_can_sample, Competitor};
use crate::event::Mo3Event;
use crate::histogram::{counts_with_times, Histogram};
use crate::simd::{
    calc_wca_average_5, calc_wca_best_3, calc_wca_mean_3, generate_skewnorm_vec, i32x4_to_slice,
    i32x4_truncate_down_100, spec_attempt, spec_average_5, spec_best_3, spec_mean_3,
    spec_truncate_down_100, I32x4, LaneDraw,
};
use crate::simulation::{ResultHistograms, RuntimeConfig};
use vstd::prelude::*;

verus! {

/// Attempts per round of an average of five.
pub const AO5_SOLVE_COUNT: usize = 5;

/// Attempts per round of a mean of three.
pub const MO3_SOLVE_COUNT: usize = 3;

/// Attempts per round of a best of three.
pub const BO3_SOLVE_COUNT: usize = 3;

/// The lanes of each of a sequence of lane batches.
pub open spec fn lanes_of(solves: Seq<I32x4>) -> Seq<Seq<i32>> {
    Seq::new(solves.len(), |i: int| solves[i]@)
}

/// `counts` after the first `n` attempt slots are recorded in a histogram
/// over `[min, max)`: the four lanes of every slot for which no result is
/// entered, slot by slot.
pub open spec fn counts_with_attempts(
    counts: Map<i32, i32>,
    min: i32,
    max: i32,
    solves: Seq<Seq<i32>>,
    entered: Seq<i32>,
    n: nat,
) -> Map<i32, i32>
    decreases n,
{
    if n == 0 {
        counts
    } else {
        let before = counts_with_attempts(counts, min, max, solves, entered, (n - 1) as nat);
        if entered_at(entered, n - 1) != 0 {
            before
        } else {
            counts_with_times(before, min, max, solves[n - 1], 4)
        }
    }
}

/// A result format.
pub trait EventSimulation {
    /// Number of attempts a competitor makes in a round.
    spec fn spec_solve_count(&self) -> nat;

    /// The lanes of attempt slot `slot` of `competitor`, given what was
    /// drawn for the competitor's slots.
    spec fn spec_solve(
        &self,
        competitor: Competitor,
        include_dnf: bool,
        draws: Seq<LaneDraw>,
        slot: int,
    ) -> Seq<i32>;

    /// The result of the round in each lane, given the lanes of every
    /// attempt.
    spec fn spec_result(&self, solves: Seq<Seq<i32>>) -> Seq<i32>;

    /// Number of attempts a competitor makes in a round.
    fn solve_count(&self) -> (n: usize)
        ensures
            n == self.spec_solve_count(),
    ;

    /// The attempts of `competitor` in one batch.
    fn generate_solves(
        &self,
        competitor: &Competitor,
        config: &RuntimeConfig,
        draws: &[LaneDraw],
    ) -> (solves: Vec<I32x4>)
        ensures
            solves.len() == self.spec_solve_count(),
            forall|i: int|
                0 <= i < solves.len() ==> (#[trigger] solves[i])@ == self.spec_solve(
                    *competitor,
                    config.include_dnf,
                    draws@,
                    i,
                ),
    ;

    /// The result of the round in each lane.
    fn calculate_result(&self, solves: &[I32x4]) -> (r: [i32; 4])
        requires
            solves.len() == self.spec_solve_count(),
        ensures
            r@ == self.spec_result(lanes_of(solves@)),
    ;

    /// Simulates one batch of rounds for `competitor`: produces the
    /// attempts, records those that were not entered in the single-attempt
    /// histogram, computes the result of every lane and records it in the
    /// result histogram.
    fn run_simulation(
        &self,
        competitor: &Competitor,
        config: &RuntimeConfig,
        draws: &[LaneDraw],
        histograms: &mut ResultHistograms,
    ) -> (r: [i32; 4])
        ensures
            r@ == self.spec_result(
                Seq::new(
                    self.spec_solve_count(),
                    |i: int| self.spec_solve(*competitor, config.include_dnf, draws@, i),
                ),
            ),
            final(histograms).hist_single.spec_min() == old(histograms).hist_single.spec_min(),
            final(histograms).hist_single.spec_max() == old(histograms).hist_single.spec_max(),
            final(histograms).hist_average.spec_min() == old(histograms).hist_average.spec_min(),
            final(histograms).hist_average.spec_max() == old(histograms).hist_average.spec_max(),
            final(histograms).hist_single@ == counts_with_attempts(
                old(histograms).hist_single@,
                old(histograms).hist_single.spec_min(),
                old(histograms).hist_single.spec_max(),
                Seq::new(
                    self.spec_solve_count(),
                    |i: int| self.spec_solve(*competitor, config.include_dnf, draws@, i),
                ),
                competitor.entered_results@,
                self.spec_solve_count(),
            ),
            final(histograms).hist_average@ == counts_with_times(
                old(histograms).hist_average@,
                old(histograms).hist_average.spec_min(),
                old(histograms).hist_average.spec_max(),
                r@,
                4,
            ),
    {
        let solves: Vec<I32x4> = self.generate_solves(competitor, config, draws);
        let ghost all = Seq::new(
            self.spec_solve_count(),
            |i: int| self.spec_solve(*competitor, config.include_dnf, draws@, i),
        );
        assert(lanes_of(solves@) =~= all);
        let ghost start = histograms.hist_single@;
        let ghost min = histograms.hist_single.spec_min();
        let ghost max = histograms.hist_single.spec_max();
        let mut i: usize = 0;
        while i < solves.len()
            invariant
                i <= solves.len(),
                solves.len() == self.spec_solve_count(),
                lanes_of(solves@) == all,
                histograms.hist_single.spec_min() == min,
                histograms.hist_single.spec_max() == max,
                histograms.hist_average == old(histograms).hist_average,
                histograms.hist_single@ == counts_with_attempts(
                    start,
                    min,
                    max,
                    all,
                    competitor.entered_results@,
                    i as nat,
                ),
            decreases solves.len() - i,
        {
            let entered: i32 = if i < competitor.entered_results.len() {
                competitor.entered_results[i]
            } else {
                0
            };
            if entered == 0 {
                let solve_values: [i32; 4] = i32x4_to_slice(solves[i]);
                assert(solve_values@ == all[i as int]);
                self.add_to_histogram(&solve_values, &mut histograms.hist_single);
            }
            i += 1;
        }
        let averages: [i32; 4] = self.calculate_result(solves.as_slice());
        self.add_to_histogram(&averages, &mut histograms.hist_average);
        averages
    }

    /// Records every one of `values` in `histogram`.
    fn add_to_histogram(&self, values: &[i32], histogram: &mut Histogram)
        ensures
            final(histogram).spec_min() == old(histogram).spec_min(),
            final(histogram).spec_max() == old(histogram).spec_max(),
            final(histogram)@ == counts_with_times(
                old(histogram)@,
                old(histogram).spec_min(),
                old(histogram).spec_max(),
                values@,
                values@.len(),
            ),
    {
        let mut i: usize = 0;
        while i < values.len()
            invariant
                i <= values.len(),
                histogram.spec_min() == old(histogram).spec_min(),
                histogram.spec_max() == old(histogram).spec_max(),
                histogram@ == counts_with_times(
                    old(histogram)@,
                    old(histogram).spec_min(),
                    old(histogram).spec_max(),
                    values@,
                    i as nat,
                ),
            decreases values.len() - i,
        {
            histogram.add(values[i]);
            i += 1;
        }
    }
}

/// The lanes of every attempt slot of `competitor` under format `sim`.
pub open spec fn spec_solves<E: EventSimulation + ?Sized>(
    sim: &E,
    competitor: Competitor,
    include_dnf: bool,
    draws: Seq<LaneDraw>,
) -> Seq<Seq<i32>> {
    Seq::new(
        sim.spec_solve_count(),
        |i: int| sim.spec_solve(competitor, include_dnf, draws, i),
    )
}

/// Average of five: the best and the worst attempt are dropped.
pub struct Ao5Simulation;

impl EventSimulation for Ao5Simulation {
    open spec fn spec_solve_count(&self) -> nat {
        5
    }

    open spec fn spec_solve(
        &self,
        competitor: Competitor,
        include_dnf: bool,
        draws: Seq<LaneDraw>,
        slot: int,
    ) -> Seq<i32> {
        spec_attempt(
            slot,
            spec_can_sample(competitor.stats),
            include_dnf,
            competitor.entered_results@,
            draws,
        )
    }

    open spec fn spec_result(&self, solves: Seq<Seq<i32>>) -> Seq<i32> {
        Seq::new(
            4,
            |l: int|
                spec_average_5(
                    solves[0][l] as int,
                    solves[1][l] as int,
                    solves[2][l] as int,
                    solves[3][l] as int,
                    solves[4][l] as int,
                ) as i32,
        )
    }

    fn solve_count(&self) -> (n: usize) {
        AO5_SOLVE_COUNT
    }

    fn generate_solves(
        &self,
        competitor: &Competitor,
        config: &RuntimeConfig,
        draws: &[LaneDraw],
    ) -> (solves: Vec<I32x4>) {
        generate_skewnorm_vec(
            AO5_SOLVE_COUNT,
            competitor.stats.as_ref(),
            config,
            competitor.entered_results.as_slice(),
            draws,
        )
    }

    fn calculate_result(&self, solves: &[I32x4]) -> (r: [i32; 4]) {
        let r = calc_wca_average_5(solves[0], solves[1], solves[2], solves[3], solves[4]);
        assert(r@ =~= self.spec_result(lanes_of(solves@)));
        r
    }
}

/// Mean of three.  For the fewest-moves event every attempt is first
/// rounded towards zero to a multiple of 100.
pub struct Mo3Simulation {
    pub event: Mo3Event,
}

impl EventSimulation for Mo3Simulation {
    open spec fn spec_solve_count(&self) -> nat {
        3
    }

    open spec fn spec_solve(
        &self,
        competitor: Competitor,
        include_dnf: bool,
        draws: Seq<LaneDraw>,
        slot: int,
    ) -> Seq<i32> {
        let raw = spec_attempt(
            slot,
            spec_can_sample(competitor.stats),
            include_dnf,
            competitor.entered_results@,
            draws,
        );
        if self.event == Mo3Event::F333 {
            Seq::new(4, |l: int| spec_truncate_down_100(raw[l] as int) as i32)
        } else {
            raw
        }
    }

    open spec fn spec_result(&self, solves: Seq<Seq<i32>>) -> Seq<i32> {
        Seq::new(
            4,
            |l: int|
                spec_mean_3(solves[0][l] as int, solves[1][l] as int, solves[2][l] as int) as i32,
        )
    }

    fn solve_count(&self) -> (n: usize) {
        MO3_SOLVE_COUNT
    }

    fn generate_solves(
        &self,
        competitor: &Competitor,
        config: &RuntimeConfig,
        draws: &[LaneDraw],
    ) -> (solves: Vec<I32x4>) {
        let results = generate_skewnorm_vec(
            MO3_SOLVE_COUNT,
            competitor.stats.as_ref(),
            config,
            competitor.entered_results.as_slice(),
            draws,
        );
        if self.event == Mo3Event::F333 {
            let mut truncated: Vec<I32x4> = Vec::new();
            let mut i: usize = 0;
            while i < results.len()
                invariant
                    i <= results.len(),
                    results.len() == 3,
                    truncated.len() == i,
                    self.event == Mo3Event::F333,
                    forall|k: int|
                        0 <= k < results.len() ==> (#[trigger] results[k])@ == spec_attempt(
                            k,
                            spec_can_sample(competitor.stats),
                            config.include_dnf,
                            competitor.entered_results@,
                            draws@,
                        ),
                    forall|k: int|
                        0 <= k < i ==> (#[trigger] truncated[k])@ == self.spec_solve(
                            *competitor,
                            config.include_dnf,
                            draws@,
                            k,
                        ),
                decreases results.len() - i,
            {
                let t = i32x4_truncate_down_100(results[i]);
                assert(t@ =~= self.spec_solve(*competitor, config.include_dnf, draws@, i as int));
                truncated.push(t);
                i += 1;
            }
            truncated
        } else {
            results
        }
    }

    fn calculate_result(&self, solves: &[I32x4]) -> (r: [i32; 4]) {
        let r = calc_wca_mean_3(solves[0], solves[1], solves[2]);
        assert(r@ =~= self.spec_result(lanes_of(solves@)));
        r
    }
}

/// Best of three: the lowest time wins.
pub struct Bo3Simulation;

impl EventSimulation for Bo3Simulation {
    open spec fn spec_solve_count(&self) -> nat {
        3
    }

    open spec fn spec_solve(
        &self,
        competitor: Competitor,
        include_dnf: bool,
        draws: Seq<LaneDraw>,
        slot: int,
    ) -> Seq<i32> {
        spec_attempt(
            slot,
            spec_can_sample(competitor.stats),
            include_dnf,
            competitor.entered_results@,
            draws,
        )
    }

    open spec fn spec_result(&self, solves: Seq<Seq<i32>>) -> Seq<i32> {
        Seq::new(
            4,
            |l: int|
                spec_best_3(solves[0][l] as int, solves[1][l] as int, solves[2][l] as int) as i32,
        )
    }

    fn solve_count(&self) -> (n: usize) {
        BO3_SOLVE_COUNT
    }

    fn generate_solves(
        &self,
        competitor: &Competitor,
        config: &RuntimeConfig,
        draws: &[LaneDraw],
    ) -> (solves: Vec<I32x4>) {
        generate_skewnorm_vec(
            BO3_SOLVE_COUNT,
            competitor.stats.as_ref(),
            config,
            competitor.entered_results.as_slice(),
            draws,
        )
    }

    fn calculate_result(&self, solves: &[I32x4]) -> (r: [i32; 4]) {
        let r = calc_wca_best_3(solves[0], solves[1], solves[2]);
        assert(r@ =~= self.spec_result(lanes_of(solves@)));
        r
    }
}

} // verus!

use competition_simulator::competitor::{Competitor, DatedCompetitionResult, FittedParameters};
use competition_simulator::event::{Ao5Event, Bo3Event, EventType, Mo3Event};
use competition_simulator::simd::{LaneDraw, DNF_VALUE};
use competition_simulator::simulation::{
    AttemptCountMismatch, CompetitionSimulator, RuntimeConfig, SimulationResult,
    SimulationWASMOutput,
};

const AO5: EventType = EventType::Ao5(Ao5Event::S333);
const MO3: EventType = EventType::Mo3(Mo3Event::S666);
const FMC: EventType = EventType::Mo3(Mo3Event::F333);
const BO3: EventType = EventType::Bo3(Bo3Event::B333);

fn fit(mean: u32, stdev: u32) -> FittedParameters {
    FittedParameters {
        location: (mean as f32).to_bits(),
        shape: (stdev as f32).to_bits(),
        skew: 0.0f32.to_bits(),
        dnf_rate: 0.0f32.to_bits(),
        mean,
        stdev,
    }
}

fn with_stats(name: &str, mean: u32, stdev: u32) -> Competitor {
    let history = vec![DatedCompetitionResult { days_since: 1, results: vec![mean as i32] }];
    Competitor::new(name.to_string(), history, fit(mean, stdev))
}

fn without_stats(name: &str) -> Competitor {
    let history = vec![DatedCompetitionResult { days_since: 1, results: vec![-1, -1, -1] }];
    Competitor::new(name.to_string(), history, fit(0, 0))
}

fn config(num_simulations: u32, include_dnf: bool) -> RuntimeConfig {
    RuntimeConfig { num_simulations, include_dnf }
}

fn fixed(time: i32) -> LaneDraw {
    LaneDraw { times: [time; 4], failed: [false; 4] }
}

/// A small generator of numbers that look random and are the same in every
/// test run.
struct Churn(u64);

impl Churn {
    fn next(&mut self) -> u64 {
        self.0 = self.0.wrapping_mul(6364136223846793005).wrapping_add(1442695040888963407);
        self.0 >> 33
    }

    fn time(&mut self, centre: i32, spread: i32) -> i32 {
        centre - spread + (self.next() % (2 * spread as u64 + 1)) as i32
    }

    fn draw(&mut self, centre: i32, spread: i32, failure_percent: u64) -> LaneDraw {
        let mut times = [0; 4];
        let mut failed = [false; 4];
        for l in 0..4 {
            times[l] = self.time(centre, spread);
            failed[l] = self.next() % 100 < failure_percent;
        }
        LaneDraw { times, failed }
    }
}

fn churned_run(
    churn: &mut Churn,
    batches: usize,
    centres: &[i32],
    attempts: usize,
    failure_percent: u64,
) -> Vec<Vec<Vec<LaneDraw>>> {
    (0..batches)
        .map(|_| {
            centres
                .iter()
                .map(|&c| (0..attempts).map(|_| churn.draw(c, 40, failure_percent)).collect())
                .collect()
        })
        .collect()
}

fn run(
    event: EventType,
    competitors: Vec<Competitor>,
    entered: Option<Vec<Vec<i32>>>,
    cfg: RuntimeConfig,
    draws: &Vec<Vec<Vec<LaneDraw>>>,
) -> Vec<SimulationWASMOutput> {
    let mut sim = CompetitionSimulator::new(event, competitors);
    if let Some(e) = entered {
        sim.set_entered_results(e).expect("entered results fit");
    }
    sim.run_simulations(&cfg, draws);
    sim.generate_wasm_output()
}

fn field_of(n: usize) -> (Vec<Competitor>, Vec<i32>) {
    let centres: Vec<i32> = (0..n).map(|i| 1000 + 13 * i as i32).collect();
    let field = centres
        .iter()
        .enumerate()
        .map(|(i, &c)| with_stats(&format!("c{i}"), c as u32, 20))
        .collect();
    (field, centres)
}

#[test]
fn wins_add_up_to_the_rounds_simulated() {
    for (n, sims) in [(1usize, 4u32), (2, 40), (3, 43), (7, 400), (12, 1001)] {
        let (field, centres) = field_of(n);
        let rounds = 4 * (sims / 4);
        let draws = churned_run(&mut Churn(n as u64), (sims / 4) as usize, &centres, 5, 10);
        let out = run(AO5, field, None, config(sims, true), &draws);
        let wins: u64 = out.iter().map(|o| o.win_count as u64).sum();
        assert_eq!(wins, rounds as u64);
    }
}

#[test]
fn podiums_add_up_to_three_per_round() {
    for (n, sims) in [(3usize, 40u32), (4, 41), (9, 402)] {
        let (field, centres) = field_of(n);
        let rounds = 4 * (sims / 4);
        let draws = churned_run(&mut Churn(99), (sims / 4) as usize, &centres, 3, 5);
        let out = run(BO3, field, None, config(sims, true), &draws);
        let podiums: u64 = out.iter().map(|o| o.pod_count as u64).sum();
        assert_eq!(podiums, 3 * rounds as u64);
    }
}

#[test]
fn podiums_of_a_small_field_are_all_its_finishes() {
    let (field, centres) = field_of(2);
    let draws = churned_run(&mut Churn(5), 10, &centres, 3, 0);
    let out = run(MO3, field, None, config(40, false), &draws);
    assert_eq!(out[0].pod_count, 40);
    assert_eq!(out[1].pod_count, 40);
}

#[test]
fn rank_distribution_adds_up_to_the_rounds_simulated() {
    let (field, centres) = field_of(6);
    let draws = churned_run(&mut Churn(17), 25, &centres, 5, 20);
    let out = run(AO5, field, None, config(103, true), &draws);
    for o in &out {
        assert_eq!(o.rank_dist.len(), 6);
        assert_eq!(o.rank_dist.iter().map(|&r| r as u64).sum::<u64>(), 100);
    }
}

#[test]
fn every_place_is_taken_once_per_round() {
    let (field, centres) = field_of(5);
    let draws = churned_run(&mut Churn(23), 10, &centres, 3, 30);
    let out = run(MO3, field, None, config(40, true), &draws);
    for place in 0..5 {
        let taken: u64 = out.iter().map(|o| o.rank_dist[place] as u64).sum();
        assert_eq!(taken, 40);
    }
}

#[test]
fn wins_podiums_and_rank_sum_follow_from_the_rank_distribution() {
    let (field, centres) = field_of(5);
    let draws = churned_run(&mut Churn(29), 20, &centres, 5, 15);
    let out = run(AO5, field, None, config(80, true), &draws);
    for o in &out {
        assert_eq!(o.win_count, o.rank_dist[0]);
        assert_eq!(o.pod_count, o.rank_dist[0] + o.rank_dist[1] + o.rank_dist[2]);
        let sum: u64 = o.rank_dist.iter().enumerate().map(|(p, &r)| (p as u64 + 1) * r as u64).sum();
        assert_eq!(o.total_rank, sum);
    }
}

#[test]
fn competitor_without_history_finishes_last() {
    let (mut field, mut centres) = field_of(4);
    field.insert(2, without_stats("newcomer"));
    centres.insert(2, 0);
    let draws = churned_run(&mut Churn(31), 50, &centres, 5, 0);
    let out = run(AO5, field, None, config(200, false), &draws);
    let newcomer = &out[2];
    assert_eq!(newcomer.name, "newcomer");
    assert_eq!(newcomer.win_count, 0);
    assert_eq!(newcomer.pod_count, 0);
    assert_eq!(newcomer.rank_dist, vec![0, 0, 0, 0, 200]);
    assert_eq!(newcomer.total_rank, 5 * 200);
    assert_eq!(newcomer.sample_size, 0);
    assert_eq!(newcomer.mean_no_dnf, DNF_VALUE as u32);
    assert!(newcomer.hist_values_single.is_empty());
    assert!(newcomer.hist_values_average.is_empty());
}

#[test]
fn competitor_without_history_ignores_what_is_entered_for_it() {
    let field = vec![with_stats("a", 1000, 10), without_stats("b")];
    let entered = vec![vec![0, 0, 0], vec![1, 1, 1]];
    let draws = vec![vec![vec![fixed(1000); 3], vec![fixed(1); 3]]];
    let out = run(BO3, field, Some(entered), config(4, false), &draws);
    assert_eq!(out[0].win_count, 4);
    assert_eq!(out[1].win_count, 0);
    assert_eq!(out[1].rank_dist, vec![0, 4]);
}

#[test]
fn a_single_competitor_always_wins() {
    let draws = churned_run(&mut Churn(37), 1000, &[1100], 5, 25);
    let out = run(AO5, vec![with_stats("solo", 1100, 30)], None, config(4000, true), &draws);
    assert_eq!(out.len(), 1);
    assert_eq!(out[0].win_count, 4000);
    assert_eq!(out[0].pod_count, 4000);
    assert_eq!(out[0].rank_dist, vec![4000]);
    assert_eq!(out[0].total_rank, 4000);
}

#[test]
fn a_single_competitor_without_history_wins_too() {
    let out = run(MO3, vec![without_stats("solo")], None, config(9, true), &vec![]);
    assert_eq!(out[0].win_count, 8);
    assert_eq!(out[0].rank_dist, vec![8]);
}

#[test]
fn entered_results_for_everyone_decide_every_round() {
    let field = vec![with_stats("a", 1000, 50), with_stats("b", 900, 50), with_stats("c", 950, 50)];
    let entered = vec![
        vec![900, 910, 905, 2000, 100],
        vec![950, 960, 955, 940, 945],
        vec![900, 905, 910, -1, 500],
    ];
    let centres = [1000, 900, 950];
    let first = churned_run(&mut Churn(41), 25, &centres, 5, 50);
    let second = churned_run(&mut Churn(43), 25, &centres, 5, 0);
    let one = run(AO5, field, Some(entered.clone()), config(100, true), &first);
    let field = vec![with_stats("a", 1000, 50), with_stats("b", 900, 50), with_stats("c", 950, 50)];
    let two = run(AO5, field, Some(entered), config(100, false), &second);
    // a: (900 + 910 + 905) / 3 = 905, b: (950 + 955 + 945) / 3 = 950, c: (900 + 905 + 910) / 3 = 905
    for out in [&one, &two] {
        assert_eq!(out[0].rank_dist, vec![100, 0, 0]);
        assert_eq!(out[2].rank_dist, vec![0, 100, 0]);
        assert_eq!(out[1].rank_dist, vec![0, 0, 100]);
        assert_eq!(out[0].win_count, 100);
        for o in out.iter() {
            assert!(o.hist_values_single.is_empty());
        }
    }
    assert_eq!(one[0].hist_values_average, two[0].hist_values_average);
}

#[test]
fn simulations_are_rounded_down_to_a_multiple_of_four() {
    for (sims, rounds) in [(0u32, 0u32), (3, 0), (4, 4), (7, 4), (8, 8), (4001, 4000)] {
        let draws = vec![vec![vec![fixed(500); 3]]; (sims / 4) as usize];
        let out = run(BO3, vec![with_stats("a", 500, 1)], None, config(sims, false), &draws);
        assert_eq!(out[0].win_count, rounds);
        assert_eq!(out[0].total_rank, rounds as u64);
    }
}

#[test]
fn the_largest_run_is_planned_without_overflow() {
    let mut sim = CompetitionSimulator::new(BO3, vec![with_stats("a", 500, 1)]);
    sim.start_run(&config(u32::MAX, false));
    assert_eq!(sim.batches_remaining(), u32::MAX / 4);
}

#[test]
fn equal_results_are_ranked_in_list_order() {
    let field = vec![with_stats("a", 700, 5), with_stats("b", 700, 5), with_stats("c", 700, 5)];
    let draws = vec![vec![vec![fixed(700); 3]; 3]; 2];
    let out = run(MO3, field, None, config(8, false), &draws);
    assert_eq!(out[0].rank_dist, vec![8, 0, 0]);
    assert_eq!(out[1].rank_dist, vec![0, 8, 0]);
    assert_eq!(out[2].rank_dist, vec![0, 0, 8]);
}

#[test]
fn lanes_are_ranked_one_by_one() {
    let field = vec![with_stats("a", 700, 5), with_stats("b", 700, 5)];
    let a = LaneDraw { times: [10, 30, 10, 30], failed: [false; 4] };
    let b = LaneDraw { times: [20, 20, 20, 5], failed: [false; 4] };
    let draws = vec![vec![vec![a; 3], vec![b; 3]]];
    let out = run(BO3, field, None, config(4, false), &draws);
    assert_eq!(out[0].rank_dist, vec![2, 2]);
    assert_eq!(out[1].rank_dist, vec![2, 2]);
    assert_eq!(out[0].total_rank, 2 * 1 + 2 * 2);
}

#[test]
fn a_batch_without_draws_fails_every_open_attempt() {
    let field = vec![with_stats("a", 700, 5), with_stats("b", 600, 5)];
    let out = run(AO5, field, None, config(8, false), &vec![]);
    // both have the failure time in every round; the order of the list decides
    assert_eq!(out[0].rank_dist, vec![8, 0]);
    assert_eq!(out[1].rank_dist, vec![0, 8]);
    assert!(out[0].hist_values_single.is_empty());
    assert!(out[0].hist_values_average.is_empty());
}

#[test]
fn drawn_failures_count_only_when_asked_for() {
    let failing = LaneDraw { times: [500; 4], failed: [true; 4] };
    let draws = vec![vec![vec![failing; 3], vec![fixed(900); 3]]];
    let field = vec![with_stats("a", 500, 5), with_stats("b", 900, 5)];
    let with = run(BO3, field, None, config(4, true), &draws);
    assert_eq!(with[0].win_count, 0);
    assert_eq!(with[1].win_count, 4);
    let field = vec![with_stats("a", 500, 5), with_stats("b", 900, 5)];
    let without = run(BO3, field, None, config(4, false), &draws);
    assert_eq!(without[0].win_count, 4);
    assert_eq!(without[1].win_count, 0);
}

#[test]
fn a_new_run_replaces_the_last() {
    let mut sim = CompetitionSimulator::new(BO3, vec![with_stats("a", 500, 5), with_stats("b", 600, 5)]);
    let a_wins = vec![vec![vec![fixed(500); 3], vec![fixed(600); 3]]; 3];
    let b_wins = vec![vec![vec![fixed(600); 3], vec![fixed(500); 3]]; 2];
    sim.run_simulations(&config(12, false), &a_wins);
    sim.run_simulations(&config(8, false), &b_wins);
    let out = sim.generate_wasm_output();
    assert_eq!(out[0].win_count, 0);
    assert_eq!(out[1].win_count, 8);
    assert_eq!(out[0].rank_dist, vec![0, 8]);
    assert_eq!(out[1].hist_values_average.get(&50), Some(&8));
    assert_eq!(out[1].hist_values_average.len(), 1);
}

#[test]
fn entered_results_of_the_wrong_length_are_refused() {
    let field = vec![with_stats("a", 500, 5), with_stats("b", 600, 5), with_stats("c", 700, 5)];
    let mut sim = CompetitionSimulator::new(AO5, field);
    sim.set_entered_results(vec![vec![1, 0, 0, 0, 0], vec![0; 5], vec![0; 5]]).expect("fits");
    let refused = sim.set_entered_results(vec![vec![0; 5], vec![0; 3], vec![0; 6]]);
    assert_eq!(refused, Err(AttemptCountMismatch { competitor: 1, expected: 5, found: 3 }));
    assert_eq!(sim.competitors()[0].entered_results, vec![1, 0, 0, 0, 0]);
    let empty = sim.set_entered_results(vec![vec![]]);
    assert_eq!(empty, Err(AttemptCountMismatch { competitor: 0, expected: 5, found: 0 }));
    let three = CompetitionSimulator::new(MO3, vec![with_stats("a", 500, 5)])
        .set_entered_results(vec![vec![0; 5]]);
    assert_eq!(three, Err(AttemptCountMismatch { competitor: 0, expected: 3, found: 5 }));
}

#[test]
fn entered_results_follow_the_order_of_the_field() {
    let field = vec![with_stats("a", 500, 5), with_stats("b", 600, 5), with_stats("c", 700, 5)];
    let mut sim = CompetitionSimulator::new(BO3, field);
    assert_eq!(sim.set_entered_results(vec![vec![1, 2, 3], vec![4, 5, 6]]), Ok(()));
    assert_eq!(sim.competitors()[0].entered_results, vec![1, 2, 3]);
    assert_eq!(sim.competitors()[1].entered_results, vec![4, 5, 6]);
    assert!(sim.competitors()[2].entered_results.is_empty());
    // entries beyond the field are ignored, whatever their length
    let long = vec![vec![7, 8, 9], vec![0, 0, 0], vec![-1, 0, 0], vec![1; 9]];
    assert_eq!(sim.set_entered_results(long), Ok(()));
    assert_eq!(sim.competitors()[0].entered_results, vec![7, 8, 9]);
    assert_eq!(sim.competitors()[2].entered_results, vec![-1, 0, 0]);
    assert_eq!(sim.set_entered_results(vec![]), Ok(()));
    assert_eq!(sim.competitors()[1].entered_results, vec![0, 0, 0]);
}

#[test]
fn histograms_share_the_range_of_the_field() {
    // a asks for [76, 84], b for [116, 123]; the field gets [76, 123)
    let field = vec![with_stats("a", 805, 11), with_stats("b", 1201, 8), without_stats("c")];
    let a = LaneDraw { times: [755, 760, 1229, 1230], failed: [false; 4] };
    let b = LaneDraw { times: [759, 769, 1225, 1239], failed: [false; 4] };
    let draws = vec![vec![vec![a; 3], vec![b; 3], vec![]]];
    let out = run(BO3, field, None, config(4, false), &draws);
    let single_a = &out[0].hist_values_single;
    assert_eq!(single_a.get(&76), Some(&3));
    assert_eq!(single_a.get(&122), Some(&3));
    assert_eq!(single_a.len(), 2);
    let single_b = &out[1].hist_values_single;
    assert_eq!(single_b.get(&76), Some(&3));
    assert_eq!(single_b.get(&122), Some(&3));
    assert_eq!(single_b.len(), 2);
    assert_eq!(out[0].hist_values_average.get(&76), Some(&1));
    assert_eq!(out[0].hist_values_average.get(&122), Some(&1));
    assert_eq!(out[0].hist_values_average.len(), 2);
}

#[test]
fn the_lower_bound_of_the_histograms_is_not_below_zero() {
    // the competitor asks for [-2, 22]
    let field = vec![with_stats("a", 100, 30)];
    let draw = LaneDraw { times: [-15, -5, 5, 219], failed: [false; 4] };
    let draws = vec![vec![vec![draw; 3]]];
    let out = run(MO3, field, None, config(4, false), &draws);
    let single = &out[0].hist_values_single;
    // -15 is in bucket -1, below the range; -5 and 5 are both in bucket 0
    assert_eq!(single.get(&-1), None);
    assert_eq!(single.get(&0), Some(&6));
    assert_eq!(single.get(&21), Some(&3));
    assert_eq!(single.len(), 2);
}

#[test]
fn entered_attempts_stay_out_of_the_single_histogram() {
    let field = vec![with_stats("a", 805, 11)];
    let draws = vec![vec![vec![fixed(800), fixed(810), fixed(820), fixed(790), fixed(830)]]; 2];
    let entered = vec![vec![0, 805, 0, -1, 0]];
    let out = run(AO5, field, Some(entered), config(8, false), &draws);
    let single = &out[0].hist_values_single;
    assert_eq!(single.get(&80), Some(&8));
    assert_eq!(single.get(&82), Some(&8));
    assert_eq!(single.get(&83), Some(&8));
    assert_eq!(single.len(), 3);
    // attempts 800, 805, 820, failed, 830: the average is (805 + 820 + 830) / 3 = 818
    assert_eq!(out[0].hist_values_average.get(&81), Some(&8));
    assert_eq!(out[0].hist_values_average.len(), 1);
}

#[test]
fn failed_attempts_stay_out_of_the_histograms() {
    let field = vec![with_stats("a", 805, 11)];
    let failing = LaneDraw { times: [800; 4], failed: [true, false, true, false] };
    let draws = vec![vec![vec![failing; 3]]];
    let out = run(BO3, field, None, config(4, true), &draws);
    assert_eq!(out[0].hist_values_single.get(&80), Some(&6));
    assert_eq!(out[0].hist_values_single.len(), 1);
    assert_eq!(out[0].hist_values_average.get(&80), Some(&2));
    assert_eq!(out[0].hist_values_average.len(), 1);
}

#[test]
fn fewest_moves_attempts_are_rounded_to_whole_moves() {
    let field = vec![with_stats("a", 2500, 100), with_stats("b", 2500, 100)];
    let a = vec![fixed(2399), fixed(2450), fixed(2501)];
    let b = vec![fixed(2400), fixed(2400), fixed(2500)];
    let draws = vec![vec![a, b]];
    let out = run(FMC, field, None, config(4, false), &draws);
    // a: (2300 + 2400 + 2500) / 3 = 2400, b: (2400 + 2400 + 2500) / 3 = 2433
    assert_eq!(out[0].win_count, 4);
    assert_eq!(out[0].hist_values_average.get(&240), Some(&4));
    assert_eq!(out[1].hist_values_average.get(&243), Some(&4));
    assert_eq!(out[0].hist_values_single.get(&230), Some(&4));
    assert_eq!(out[0].hist_values_single.get(&240), Some(&4));
    assert_eq!(out[0].hist_values_single.get(&250), Some(&4));
    assert_eq!(out[0].hist_values_single.len(), 3);
}

#[test]
fn fewest_moves_rounds_entered_results_too() {
    let field = vec![with_stats("a", 2500, 100), with_stats("b", 2500, 100)];
    let entered = vec![vec![2499, 2499, 2499], vec![2400, 2400, 2401]];
    let out = run(FMC, field, Some(entered), config(4, false), &vec![]);
    // both round to 2400 in every attempt
    assert_eq!(out[0].rank_dist, vec![4, 0]);
    assert_eq!(out[0].hist_values_average.get(&240), Some(&4));
    assert_eq!(out[1].hist_values_average.get(&240), Some(&4));
}

#[test]
fn other_means_of_three_are_not_rounded() {
    let field = vec![with_stats("a", 2500, 100)];
    let draws = vec![vec![vec![fixed(2399), fixed(2450), fixed(2501)]]];
    let out = run(MO3, field, None, config(4, false), &draws);
    // (2399 + 2450 + 2501) / 3 = 2450
    assert_eq!(out[0].hist_values_average.get(&245), Some(&4));
    assert_eq!(out[0].hist_values_single.get(&239), Some(&4));
}

#[test]
fn batches_are_simulated_one_by_one() {
    let field = vec![with_stats("a", 500, 5), with_stats("b", 600, 5)];
    let mut sim = CompetitionSimulator::new(BO3, field);
    let batch = vec![vec![fixed(500); 3], vec![fixed(600); 3]];
    assert!(!sim.has_results());
    assert!(!sim.run_batch(&batch));
    sim.start_run(&config(9, false));
    assert!(sim.has_results());
    assert_eq!(sim.batches_remaining(), 2);
    assert!(sim.run_batch(&batch));
    assert_eq!(sim.batches_remaining(), 1);
    assert!(sim.run_batch(&batch));
    assert_eq!(sim.batches_remaining(), 0);
    assert!(!sim.run_batch(&batch));
    let out = sim.generate_wasm_output();
    assert_eq!(out[0].win_count, 8);
    assert!(!sim.has_results());
    assert!(!sim.run_batch(&batch));
}

#[test]
fn output_reports_the_field_in_order() {
    let a = Competitor::new(
        "Ada".to_string(),
        vec![
            DatedCompetitionResult { days_since: 3, results: vec![800, 810, -1, 790, 805] },
            DatedCompetitionResult { days_since: 30, results: vec![820] },
        ],
        fit(805, 11),
    );
    let field = vec![a, without_stats("Bo"), with_stats("Cy", 1201, 8)];
    let mut sim = CompetitionSimulator::new(AO5, field);
    assert_eq!(sim.event(), AO5);
    assert_eq!(sim.competitors().len(), 3);
    sim.run_simulations(&config(4, false), &vec![]);
    let out = sim.generate_wasm_output();
    let names: Vec<&str> = out.iter().map(|o| o.name.as_str()).collect();
    assert_eq!(names, vec!["Ada", "Bo", "Cy"]);
    assert_eq!(out[0].sample_size, 5);
    assert_eq!(out[0].mean_no_dnf, 805);
    assert_eq!(out[1].sample_size, 0);
    assert_eq!(out[1].mean_no_dnf, DNF_VALUE as u32);
    assert_eq!(out[2].sample_size, 1);
    assert_eq!(out[2].mean_no_dnf, 1201);
}

#[test]
fn an_empty_field_has_an_empty_output() {
    let mut sim = CompetitionSimulator::new(AO5, vec![]);
    sim.run_simulations(&config(40, true), &vec![]);
    assert!(sim.generate_wasm_output().is_empty());
}

#[test]
fn fresh_accumulator_is_empty() {
    let fresh: SimulationResult = SimulationResult::new(3, 10, 20);
    assert_eq!(fresh.win_count(), 0);
    assert_eq!(fresh.pod_count(), 0);
    assert_eq!(fresh.total_rank(), 0);
    assert_eq!(fresh.rank_dist(), &vec![0, 0, 0]);
    assert_eq!(fresh.histograms().hist_single.min(), 10);
    assert_eq!(fresh.histograms().hist_single.max(), 20);
    assert_eq!(fresh.histograms().hist_average.min(), 10);
    assert_eq!(fresh.histograms().hist_average.max(), 20);
    let none = SimulationResult::new(0, 0, 0);
    assert!(none.rank_dist().is_empty());
}

#[test]
fn a_fit_that_is_not_finite_never_wins() {
    let history = vec![DatedCompetitionResult { days_since: 1, results: vec![500] }];
    let broken = FittedParameters { location: f32::NAN.to_bits(), ..fit(500, 5) };
    let field = vec![Competitor::new("broken".to_string(), history, broken), with_stats("b", 900, 5)];
    assert!(field[0].stats.is_some());
    let draws = vec![vec![vec![fixed(500); 3], vec![fixed(900); 3]]; 2];
    let out = run(BO3, field, None, config(8, false), &draws);
    assert_eq!(out[0].win_count, 0);
    assert_eq!(out[1].win_count, 8);
    assert_eq!(out[0].sample_size, 1);
    assert_eq!(out[0].mean_no_dnf, 500);
    assert!(out[0].hist_values_single.is_empty());
    assert!(out[0].hist_values_average.is_empty());
}

#[test]
fn a_fit_that_is_not_finite_still_takes_entered_results() {
    let history = vec![DatedCompetitionResult { days_since: 1, results: vec![500] }];
    let broken = FittedParameters { shape: f32::INFINITY.to_bits(), ..fit(500, 5) };
    let field = vec![Competitor::new("broken".to_string(), history, broken), with_stats("b", 900, 5)];
    let entered = vec![vec![0, 490, 0], vec![0, 0, 0]];
    let draws = vec![vec![vec![fixed(400); 3], vec![fixed(900); 3]]];
    let out = run(BO3, field, Some(entered), config(4, false), &draws);
    assert_eq!(out[0].win_count, 4);
    assert_eq!(out[0].hist_values_average.get(&49), Some(&4));
    assert!(out[0].hist_values_single.is_empty());
}

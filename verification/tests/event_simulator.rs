use competition_simulator::competitor::{Competitor, DatedCompetitionResult, FittedParameters};
use competition_simulator::event::Mo3Event;
use competition_simulator::event_simulator::{
    Ao5Simulation, Bo3Simulation, EventSimulation, Mo3Simulation, AO5_SOLVE_COUNT,
    BO3_SOLVE_COUNT, MO3_SOLVE_COUNT,
};
use competition_simulator::histogram::Histogram;
use competition_simulator::simd::{i32x4_splat, i32x4_to_slice, I32x4, LaneDraw, DNF_VALUE};
use competition_simulator::simulation::{ResultHistograms, RuntimeConfig};

fn fit(mean: u32, stdev: u32) -> FittedParameters {
    FittedParameters {
        location: (mean as f32).to_bits(),
        shape: (stdev as f32).to_bits(),
        skew: 0.0f32.to_bits(),
        dnf_rate: 0.0f32.to_bits(),
        mean,
        stdev,
    }
}

fn competitor(entered: &[i32]) -> Competitor {
    let history = vec![DatedCompetitionResult { days_since: 1, results: vec![1000] }];
    let mut c = Competitor::new("c".to_string(), history, fit(1000, 50));
    c.add_entered_results(entered.to_vec());
    c
}

fn config(include_dnf: bool) -> RuntimeConfig {
    RuntimeConfig { num_simulations: 4, include_dnf }
}

fn histograms(min: i32, max: i32) -> ResultHistograms {
    ResultHistograms {
        hist_single: Histogram::new_with_bounds(min, max),
        hist_average: Histogram::new_with_bounds(min, max),
    }
}

fn draw(a: i32, b: i32, c: i32, d: i32) -> LaneDraw {
    LaneDraw { times: [a, b, c, d], failed: [false; 4] }
}

fn lanes(solves: Vec<I32x4>) -> Vec<[i32; 4]> {
    solves.into_iter().map(i32x4_to_slice).collect()
}

#[test]
fn formats_take_five_or_three_attempts() {
    assert_eq!(AO5_SOLVE_COUNT, 5);
    assert_eq!(MO3_SOLVE_COUNT, 3);
    assert_eq!(BO3_SOLVE_COUNT, 3);
    assert_eq!(Ao5Simulation.solve_count(), 5);
    assert_eq!(Mo3Simulation { event: Mo3Event::S666 }.solve_count(), 3);
    assert_eq!(Mo3Simulation { event: Mo3Event::F333 }.solve_count(), 3);
    assert_eq!(Bo3Simulation.solve_count(), 3);
}

#[test]
fn average_of_five_generates_five_attempts() {
    let draws = vec![draw(1, 2, 3, 4); 5];
    let solves = Ao5Simulation.generate_solves(&competitor(&[0, 900, 0, -1, 0]), &config(true), &draws);
    assert_eq!(
        lanes(solves),
        vec![[1, 2, 3, 4], [900; 4], [1, 2, 3, 4], [DNF_VALUE; 4], [1, 2, 3, 4]]
    );
}

#[test]
fn best_of_three_generates_three_attempts() {
    let draws = vec![draw(1, 2, 3, 4), draw(5, 6, 7, 8)];
    let solves = Bo3Simulation.generate_solves(&competitor(&[]), &config(true), &draws);
    assert_eq!(lanes(solves), vec![[1, 2, 3, 4], [5, 6, 7, 8], [DNF_VALUE; 4]]);
}

#[test]
fn fewest_moves_rounds_what_it_generates() {
    let draws = vec![draw(2399, 2400, 2401, -150); 3];
    let c = competitor(&[0, 2555, -1]);
    let rounded = Mo3Simulation { event: Mo3Event::F333 }.generate_solves(&c, &config(false), &draws);
    assert_eq!(lanes(rounded), vec![[2300, 2400, 2400, -100], [2500; 4], [360_000; 4]]);
    let plain = Mo3Simulation { event: Mo3Event::S777 }.generate_solves(&c, &config(false), &draws);
    assert_eq!(lanes(plain), vec![[2399, 2400, 2401, -150], [2555; 4], [DNF_VALUE; 4]]);
}

#[test]
fn results_follow_the_format() {
    let solves: Vec<I32x4> = [800, 810, 820, 790, 805].iter().map(|&t| i32x4_splat(t)).collect();
    assert_eq!(Ao5Simulation.calculate_result(&solves), [805; 4]);
    assert_eq!(Mo3Simulation { event: Mo3Event::S666 }.calculate_result(&solves[..3]), [810; 4]);
    assert_eq!(Bo3Simulation.calculate_result(&solves[2..]), [790; 4]);
}

#[test]
fn a_simulated_batch_is_recorded() {
    let draws = vec![draw(800, 810, 820, 830), draw(900, 910, 920, 930), draw(700, 1000, 720, 730)];
    let mut hist = histograms(70, 100);
    let result = Bo3Simulation.run_simulation(&competitor(&[0, 0, 0]), &config(false), &draws, &mut hist);
    assert_eq!(result, [700, 810, 720, 730]);
    let single = hist.hist_single.data();
    // 1000 is in bucket 100, outside the range
    assert_eq!(single.len(), 11);
    assert_eq!(single.get(&80), Some(&1));
    assert_eq!(single.get(&93), Some(&1));
    assert_eq!(single.get(&70), Some(&1));
    assert_eq!(single.get(&100), None);
    let average = hist.hist_average.data();
    assert_eq!(average.get(&70), Some(&1));
    assert_eq!(average.get(&81), Some(&1));
    assert_eq!(average.get(&72), Some(&1));
    assert_eq!(average.get(&73), Some(&1));
    assert_eq!(average.len(), 4);
}

#[test]
fn values_are_added_to_a_histogram_one_by_one() {
    let mut hist = Histogram::new_with_bounds(0, 10);
    Ao5Simulation.add_to_histogram(&[5, 15, 15, 99, 100, DNF_VALUE, i32::MAX, -3], &mut hist);
    let data = hist.data();
    assert_eq!(data.get(&0), Some(&2));
    assert_eq!(data.get(&1), Some(&2));
    assert_eq!(data.get(&9), Some(&1));
    assert_eq!(data.len(), 3);
}

use rand::distr::Bernoulli;
use rand::rngs::StdRng;
use std::cell::Cell;
use rand::{Rng, SeedableRng};
use thermo_sampler::queens::{
    anneal_from, collect_solutions, conflict_mask, decide_move, propose_move,
    queen_conflict_count, random_queen_state, solve_single, Collector, QueenMove, QueenRun,
    QueensConfig,
};
use thermo_sampler::schedule::Schedule;

/// Metropolis acceptance with geometric cooling and a floor.
struct Metropolis {
    start: f64,
    cooling: f64,
    temperature: f64,
}

impl Metropolis {
    fn new(start: f64, cooling: f64) -> Self {
        Metropolis { start, cooling, temperature: start }
    }
}

impl Schedule for Metropolis {
    fn restart(&mut self) {
        self.temperature = self.start;
    }

    fn acceptance(&self, delta: usize) -> Bernoulli {
        let probability = (-(delta as f64) / self.temperature).exp().min(1.0);
        Bernoulli::new(probability).unwrap()
    }

    fn cool(&mut self) {
        self.temperature = (self.temperature * self.cooling).max(0.25);
    }
}

/// A schedule that answers every question the same way and counts the calls.
struct Fixed {
    answer: bool,
    restarts: usize,
    asked: Cell<usize>,
    cooled: usize,
}

impl Fixed {
    fn new(answer: bool) -> Self {
        Fixed { answer, restarts: 0, asked: Cell::new(0), cooled: 0 }
    }
}

impl Schedule for Fixed {
    fn restart(&mut self) {
        self.restarts += 1;
    }

    fn acceptance(&self, _delta: usize) -> Bernoulli {
        self.asked.set(self.asked.get() + 1);
        Bernoulli::new(if self.answer { 1.0 } else { 0.0 }).unwrap()
    }

    fn cool(&mut self) {
        self.cooled += 1;
    }
}

const SOLUTION: [u8; 8] = [0, 4, 7, 5, 2, 6, 1, 3];

fn brute_force_energy(state: &[u8; 8]) -> usize {
    let mut count = 0;
    for i in 0..8 {
        for j in (i + 1)..8 {
            let dc = (state[i] as i32 - state[j] as i32).abs();
            let dr = (i as i32 - j as i32).abs();
            if dc == 0 || dc == dr {
                count += 1;
            }
        }
    }
    count
}

#[test]
fn energy_of_a_solution_is_zero() {
    assert_eq!(queen_conflict_count(&SOLUTION), 0);
}

#[test]
fn energy_counts_every_pair_on_the_main_diagonal() {
    assert_eq!(queen_conflict_count(&[0, 1, 2, 3, 4, 5, 6, 7]), 28);
}

#[test]
fn energy_counts_every_pair_in_one_column() {
    assert_eq!(queen_conflict_count(&[3, 3, 3, 3, 3, 3, 3, 3]), 28);
}

#[test]
fn energy_counts_single_conflicts() {
    // Rows 0 and 1 share a diagonal, rows 1 and 6 a column.
    assert_eq!(queen_conflict_count(&[0, 1, 7, 5, 2, 6, 1, 3]), 2);
    // One shared column, between rows 5 and 7.
    assert_eq!(queen_conflict_count(&[0, 4, 7, 5, 2, 6, 1, 6]), 1);
    // One shared diagonal between rows 0 and 7.
    assert_eq!(queen_conflict_count(&[0, 2, 4, 6, 1, 3, 5, 7]), 1);
}

#[test]
fn energy_handles_columns_off_the_board() {
    let state = [255, 0, 255, 9, 200, 201, 202, 100];
    assert_eq!(queen_conflict_count(&state), brute_force_energy(&state));
}

#[test]
fn energy_is_zero_only_without_conflicts() {
    let mut rng = StdRng::seed_from_u64(7);
    for _ in 0..500 {
        let mut state = [0u8; 8];
        for row in 0..8 {
            state[row] = rng.random_range(0..8);
        }
        let energy = queen_conflict_count(&state);
        assert_eq!(energy, brute_force_energy(&state));
        assert_eq!(energy == 0, conflict_mask(&state).iter().all(|&hit| !hit));
    }
}

#[test]
fn mask_of_a_solution_is_clear() {
    assert_eq!(conflict_mask(&SOLUTION), [false; 8]);
}

#[test]
fn mask_marks_both_queens_of_a_conflict() {
    let state = [0, 4, 7, 5, 2, 6, 1, 6];
    assert_eq!(
        conflict_mask(&state),
        [false, false, false, false, false, true, false, true]
    );
    let diagonal = [0, 2, 4, 6, 1, 3, 5, 7];
    assert_eq!(
        conflict_mask(&diagonal),
        [true, false, false, false, false, false, false, true]
    );
}

#[test]
fn mask_marks_everything_on_the_diagonal() {
    assert_eq!(conflict_mask(&[0, 1, 2, 3, 4, 5, 6, 7]), [true; 8]);
}

#[test]
fn random_state_is_a_permutation() {
    for seed in 0..50 {
        let mut rng = StdRng::seed_from_u64(seed);
        let state = random_queen_state(&mut rng);
        let mut sorted = state.to_vec();
        sorted.sort();
        assert_eq!(sorted, vec![0, 1, 2, 3, 4, 5, 6, 7]);
    }
}

#[test]
fn random_state_is_shuffled() {
    let identity = [0u8, 1, 2, 3, 4, 5, 6, 7];
    let mut moved = 0;
    for seed in 0..20 {
        let mut rng = StdRng::seed_from_u64(seed);
        if random_queen_state(&mut rng) != identity {
            moved += 1;
        }
    }
    assert!(moved >= 19);
}

#[test]
fn proposals_always_change_the_state() {
    let mut rng = StdRng::seed_from_u64(11);
    let state = SOLUTION;
    let mut rows_seen = [false; 8];
    for _ in 0..2000 {
        let m = propose_move(&state, &mut rng);
        assert!(m.row < 8);
        assert!(m.column < 8);
        assert_ne!(m.column, state[m.row]);
        rows_seen[m.row] = true;
    }
    assert_eq!(rows_seen, [true; 8]);
}

#[test]
fn proposals_work_for_columns_off_the_board() {
    let mut rng = StdRng::seed_from_u64(3);
    let state = [200u8; 8];
    for _ in 0..100 {
        let m = propose_move(&state, &mut rng);
        assert!(m.row < 8 && m.column < 8);
    }
}

#[test]
fn downhill_moves_are_taken_without_asking() {
    let mut rng = StdRng::seed_from_u64(1);
    let mut schedule = Fixed::new(false);
    // Row 7 clashes with row 5; moving it to column 3 solves the board.
    let mut state = [0, 4, 7, 5, 2, 6, 1, 6];
    let energy = queen_conflict_count(&state);
    let next = decide_move(&mut state, energy, QueenMove { row: 7, column: 3 }, &mut schedule, &mut rng);
    assert_eq!(state, SOLUTION);
    assert_eq!(next, 0);
    assert_eq!(schedule.asked.get(), 0);
}

#[test]
fn level_moves_are_taken_without_asking() {
    let mut rng = StdRng::seed_from_u64(1);
    let mut schedule = Fixed::new(false);
    let mut state = [3u8; 8];
    let start = queen_conflict_count(&state);
    assert_eq!(start, 28);
    let mut expected = state;
    expected[0] = 4;
    let after = brute_force_energy(&expected);
    assert!(after <= start);
    let next = decide_move(&mut state, start, QueenMove { row: 0, column: 4 }, &mut schedule, &mut rng);
    assert_eq!(state, expected);
    assert_eq!(after, 22);
    assert_eq!(next, 22);
    assert_eq!(schedule.asked.get(), 0);
}

#[test]
fn declined_uphill_moves_are_undone() {
    let mut rng = StdRng::seed_from_u64(1);
    let mut schedule = Fixed::new(false);
    let mut state = SOLUTION;
    let next = decide_move(&mut state, 0, QueenMove { row: 7, column: 6 }, &mut schedule, &mut rng);
    assert_eq!(state, SOLUTION);
    assert_eq!(next, 0);
    assert_eq!(schedule.asked.get(), 1);
}

#[test]
fn accepted_uphill_moves_stand() {
    let mut rng = StdRng::seed_from_u64(1);
    let mut schedule = Fixed::new(true);
    let mut state = SOLUTION;
    let next = decide_move(&mut state, 0, QueenMove { row: 7, column: 6 }, &mut schedule, &mut rng);
    assert_eq!(state, [0, 4, 7, 5, 2, 6, 1, 6]);
    assert_eq!(next, 1);
    assert_eq!(schedule.asked.get(), 1);
}

/// A schedule that gives the same odds whatever is asked.
struct Odds(f64);

impl Schedule for Odds {
    fn restart(&mut self) {}

    fn acceptance(&self, _delta: usize) -> Bernoulli {
        Bernoulli::new(self.0).unwrap()
    }

    fn cool(&mut self) {}
}

#[test]
fn uphill_moves_are_taken_with_the_odds_given() {
    let mut rng = StdRng::seed_from_u64(12345);
    let schedule = Odds(0.25);
    let mut taken = 0;
    for _ in 0..4000 {
        let mut state = SOLUTION;
        let next = decide_move(&mut state, 0, QueenMove { row: 7, column: 6 }, &schedule, &mut rng);
        if next == 1 {
            assert_eq!(state, [0, 4, 7, 5, 2, 6, 1, 6]);
            taken += 1;
        } else {
            assert_eq!(next, 0);
            assert_eq!(state, SOLUTION);
        }
    }
    assert!(taken > 800 && taken < 1200);
}

#[test]
fn a_solved_start_returns_at_once() {
    let mut rng = StdRng::seed_from_u64(5);
    let mut schedule = Fixed::new(true);
    let config = QueensConfig { max_steps: 10 };
    let found = anneal_from(SOLUTION, &config, &mut schedule, &mut rng);
    assert_eq!(found, Some(QueenRun { state: SOLUTION, steps: 0 }));
    assert_eq!(schedule.restarts, 1);
    assert_eq!(schedule.cooled, 0);
}

#[test]
fn no_budget_means_no_result() {
    let mut rng = StdRng::seed_from_u64(5);
    let mut schedule = Fixed::new(true);
    let config = QueensConfig { max_steps: 0 };
    assert_eq!(anneal_from(SOLUTION, &config, &mut schedule, &mut rng), None);
    assert_eq!(solve_single(&config, &mut schedule, &mut rng), None);
}

#[test]
fn an_attempt_cools_once_per_iteration() {
    let mut rng = StdRng::seed_from_u64(5);
    let mut schedule = Fixed::new(true);
    let config = QueensConfig { max_steps: 25 };
    let start = [0u8, 1, 2, 3, 4, 5, 6, 7];
    match anneal_from(start, &config, &mut schedule, &mut rng) {
        Some(run) => {
            assert!(run.steps < 25);
            assert_eq!(schedule.cooled, run.steps);
            assert_eq!(queen_conflict_count(&run.state), 0);
        }
        None => assert_eq!(schedule.cooled, 25),
    }
}

#[test]
fn a_solution_found_on_the_last_step_is_not_reported() {
    // One move from a solution, and a budget of one step: the step may
    // solve the board, but nothing looks at it afterwards.
    let start = [0, 4, 7, 5, 2, 6, 1, 6];
    let config = QueensConfig { max_steps: 1 };
    for seed in 0..200 {
        let mut rng = StdRng::seed_from_u64(seed);
        let mut schedule = Fixed::new(false);
        assert_eq!(anneal_from(start, &config, &mut schedule, &mut rng), None);
    }
}

#[test]
fn attempts_find_solutions() {
    let config = QueensConfig { max_steps: 100_000 };
    let mut solved = 0;
    for seed in 0..20 {
        let mut rng = StdRng::seed_from_u64(seed);
        let mut schedule = Metropolis::new(2.4, 0.995);
        if let Some(run) = solve_single(&config, &mut schedule, &mut rng) {
            assert_eq!(queen_conflict_count(&run.state), 0);
            assert!(run.state.iter().all(|&column| column < 8));
            assert!(run.steps < 100_000);
            solved += 1;
        }
    }
    assert!(solved >= 15);
}

#[test]
fn seed_42_yields_one_solution() {
    let mut rng = StdRng::seed_from_u64(42);
    let mut schedule = Metropolis::new(2.4, 0.995);
    let config = QueensConfig { max_steps: 100_000 };
    let result = collect_solutions(1, 17, &config, &mut schedule, &mut rng);
    assert_eq!(result.runs.len(), 1);
    assert_eq!(result.runs[0].state.len(), 8);
    assert_eq!(queen_conflict_count(&result.runs[0].state), 0);
    assert!(result.restarts >= 1 && result.restarts <= 17);
    assert!(result.total_steps >= result.runs[0].steps);
}

#[test]
fn same_seed_same_collection() {
    let config = QueensConfig { max_steps: 100_000 };
    let mut first_rng = StdRng::seed_from_u64(42);
    let mut first_schedule = Metropolis::new(2.4, 0.995);
    let first = collect_solutions(5, 65, &config, &mut first_schedule, &mut first_rng);
    let mut second_rng = StdRng::seed_from_u64(42);
    let mut second_schedule = Metropolis::new(2.4, 0.995);
    let second = collect_solutions(5, 65, &config, &mut second_schedule, &mut second_rng);
    assert_eq!(first.runs, second.runs);
    assert_eq!(first.restarts, second.restarts);
    assert_eq!(first.total_steps, second.total_steps);
    assert_eq!(first_rng.random::<u64>(), second_rng.random::<u64>());
}

#[test]
fn collected_solutions_are_distinct() {
    let mut rng = StdRng::seed_from_u64(2024);
    let mut schedule = Metropolis::new(2.4, 0.995);
    let config = QueensConfig { max_steps: 100_000 };
    let target = 40;
    let result = collect_solutions(target, target * 12 + 5, &config, &mut schedule, &mut rng);
    assert!(!result.runs.is_empty());
    assert!(result.runs.len() <= target);
    assert!(result.restarts <= target * 12 + 5);
    assert!(result.runs.len() == target || result.restarts == target * 12 + 5);
    assert!(result.runs.len() <= result.restarts);
    for (i, run) in result.runs.iter().enumerate() {
        assert_eq!(queen_conflict_count(&run.state), 0);
        for other in &result.runs[i + 1..] {
            assert_ne!(run.state, other.state);
        }
    }
    let kept: usize = result.runs.iter().map(|run| run.steps).sum();
    assert!(kept <= result.total_steps);
}

#[test]
fn collection_stops_at_the_restart_budget() {
    let mut rng = StdRng::seed_from_u64(9);
    let mut schedule = Metropolis::new(2.4, 0.995);
    // No attempt can succeed in zero steps.
    let config = QueensConfig { max_steps: 0 };
    let result = collect_solutions(3, 10, &config, &mut schedule, &mut rng);
    assert!(result.runs.is_empty());
    assert_eq!(result.restarts, 10);
    assert_eq!(result.total_steps, 0);
}

#[test]
fn collection_with_no_target_does_nothing() {
    let mut rng = StdRng::seed_from_u64(9);
    let mut schedule = Metropolis::new(2.4, 0.995);
    let config = QueensConfig { max_steps: 1000 };
    let result = collect_solutions(0, 10, &config, &mut schedule, &mut rng);
    assert!(result.runs.is_empty());
    assert_eq!(result.restarts, 0);
    assert_eq!(result.total_steps, 0);
    let none = collect_solutions(4, 0, &config, &mut schedule, &mut rng);
    assert!(none.runs.is_empty());
    assert_eq!(none.restarts, 0);
}

#[test]
fn collector_keeps_the_first_run_of_a_state() {
    let other: [u8; 8] = [7, 3, 0, 2, 5, 1, 6, 4];
    assert_eq!(queen_conflict_count(&other), 0);
    let mut collector = Collector::new();
    assert_eq!(collector.len(), 0);
    assert_eq!(collector.attempts(), 0);
    collector.record(Some(QueenRun { state: SOLUTION, steps: 10 }));
    collector.record(None);
    collector.record(Some(QueenRun { state: other, steps: 4 }));
    collector.record(Some(QueenRun { state: SOLUTION, steps: 7 }));
    assert_eq!(collector.len(), 2);
    assert_eq!(collector.attempts(), 4);
    let result = collector.finish();
    assert_eq!(
        result.runs,
        vec![
            QueenRun { state: SOLUTION, steps: 10 },
            QueenRun { state: other, steps: 4 }
        ]
    );
    assert_eq!(result.restarts, 4);
    assert_eq!(result.total_steps, 21);
}

#[test]
fn collector_tells_states_apart_by_every_row() {
    let mut collector = Collector::new();
    let base = [0u8; 8];
    collector.record(Some(QueenRun { state: base, steps: 0 }));
    for row in 0..8 {
        let mut state = base;
        state[row] = 1;
        collector.record(Some(QueenRun { state, steps: 1 }));
        let mut high = base;
        high[row] = 255;
        collector.record(Some(QueenRun { state: high, steps: 1 }));
    }
    assert_eq!(collector.len(), 17);
    collector.record(Some(QueenRun { state: base, steps: 5 }));
    assert_eq!(collector.len(), 17);
    let result = collector.finish();
    assert_eq!(result.restarts, 18);
    assert_eq!(result.total_steps, 21);
}

use rand::distr::Bernoulli;
use rand::rngs::StdRng;
use std::cell::Cell;
use rand::{Rng, SeedableRng};
use thermo_sampler::generate::{generate_full_solution, pattern};
use thermo_sampler::grid::{box_conflicts, column_conflicts};
use thermo_sampler::schedule::Schedule;
use thermo_sampler::sudoku::{
    conflict_mask, count_givens, propose_swap, solve, solve_from, SamplerConfig, SudokuMove,
    SudokuPuzzle, SudokuSearch, SudokuState,
};

/// Metropolis acceptance with geometric cooling and a floor.
struct Annealing {
    start: f64,
    cooling: f64,
    temperature: f64,
    cooled: usize,
}

impl Annealing {
    fn new(start: f64, cooling: f64) -> Self {
        Annealing { start, cooling: cooling.clamp(0.8, 0.9999), temperature: start, cooled: 0 }
    }
}

impl Schedule for Annealing {
    fn restart(&mut self) {
        self.temperature = self.start;
    }

    fn acceptance(&self, delta: usize) -> Bernoulli {
        let probability = (-(delta as f64) / self.temperature).exp().min(1.0);
        Bernoulli::new(probability).unwrap()
    }

    fn cool(&mut self) {
        self.temperature = (self.temperature * self.cooling).max(0.25);
        self.cooled += 1;
    }
}

/// A schedule that answers every question the same way and counts the calls.
struct Constant {
    answer: bool,
    asked: Cell<usize>,
    cooled: usize,
}

impl Constant {
    fn new(answer: bool) -> Self {
        Constant { answer, asked: Cell::new(0), cooled: 0 }
    }
}

impl Schedule for Constant {
    fn restart(&mut self) {}

    fn acceptance(&self, _delta: usize) -> Bernoulli {
        self.asked.set(self.asked.get() + 1);
        Bernoulli::new(if self.answer { 1.0 } else { 0.0 }).unwrap()
    }

    fn cool(&mut self) {
        self.cooled += 1;
    }
}

/// The base pattern with the digits in order: a solved board.
fn base_board() -> [[u8; 9]; 9] {
    let mut board = [[0u8; 9]; 9];
    for row in 0..9 {
        for col in 0..9 {
            board[row][col] = pattern(row, col) as u8 + 1;
        }
    }
    board
}

fn all_given(board: &[[u8; 9]; 9]) -> [[Option<u8>; 9]; 9] {
    let mut givens = [[None; 9]; 9];
    for row in 0..9 {
        for col in 0..9 {
            givens[row][col] = Some(board[row][col]);
        }
    }
    givens
}

fn is_permutation(cells: &[u8]) -> bool {
    let mut sorted = cells.to_vec();
    sorted.sort();
    sorted == vec![1, 2, 3, 4, 5, 6, 7, 8, 9]
}

fn is_solved(board: &[[u8; 9]; 9]) -> bool {
    for i in 0..9 {
        let column: Vec<u8> = (0..9).map(|row| board[row][i]).collect();
        let block: Vec<u8> =
            (0..9).map(|k| board[3 * (i / 3) + k / 3][3 * (i % 3) + k % 3]).collect();
        if !is_permutation(&board[i]) || !is_permutation(&column) || !is_permutation(&block) {
            return false;
        }
    }
    true
}

fn respects(puzzle: &SudokuPuzzle, board: &[[u8; 9]; 9]) -> bool {
    for row in 0..9 {
        for col in 0..9 {
            if let Some(value) = puzzle.givens[row][col] {
                if board[row][col] != value {
                    return false;
                }
            }
        }
    }
    true
}

fn rows_are_permutations(board: &[[u8; 9]; 9]) -> bool {
    board.iter().all(|row| is_permutation(row))
}

#[test]
fn pattern_places() {
    assert_eq!(pattern(0, 0), 0);
    assert_eq!(pattern(0, 8), 8);
    assert_eq!(pattern(1, 0), 3);
    assert_eq!(pattern(2, 0), 6);
    assert_eq!(pattern(3, 0), 1);
    assert_eq!(pattern(4, 7), 2);
    assert_eq!(pattern(8, 8), 7);
}

#[test]
fn base_pattern_is_solved() {
    let board = base_board();
    assert_eq!(board[0], [1, 2, 3, 4, 5, 6, 7, 8, 9]);
    assert_eq!(board[1], [4, 5, 6, 7, 8, 9, 1, 2, 3]);
    assert_eq!(board[3], [2, 3, 4, 5, 6, 7, 8, 9, 1]);
    assert!(is_solved(&board));
    assert_eq!(column_conflicts(&board), 0);
    assert_eq!(box_conflicts(&board), 0);
    assert_eq!(SudokuState { board }.energy(), 0);
}

#[test]
fn energy_of_equal_rows() {
    // Every column holds one digit nine times, every box three digits three
    // times each.
    let board = [[1u8, 2, 3, 4, 5, 6, 7, 8, 9]; 9];
    assert_eq!(column_conflicts(&board), 72);
    assert_eq!(box_conflicts(&board), 54);
    assert_eq!(SudokuState { board }.energy(), 126);
}

#[test]
fn energy_counts_each_repeat_once() {
    let mut board = base_board();
    // Column 0 now holds 2 twice (rows 0 and 3), box 0 holds 2 twice.
    board[0][0] = 2;
    assert_eq!(column_conflicts(&board), 1);
    assert_eq!(box_conflicts(&board), 1);
    assert_eq!(SudokuState { board }.energy(), 2);
    // A third 2 in column 0 adds one for the column and one for its box.
    board[8][0] = 2;
    assert_eq!(column_conflicts(&board), 2);
    assert_eq!(box_conflicts(&board), 2);
    assert_eq!(SudokuState { board }.energy(), 4);
}

#[test]
fn energy_ignores_empty_cells() {
    let board = [[0u8; 9]; 9];
    assert_eq!(column_conflicts(&board), 0);
    assert_eq!(box_conflicts(&board), 0);
    assert_eq!(SudokuState { board }.energy(), 0);
}

#[test]
fn energy_is_zero_exactly_for_solved_boards() {
    let mut rng = StdRng::seed_from_u64(99);
    for _ in 0..50 {
        let puzzle = SudokuPuzzle::with_random_holes(rng.random_range(0..82), &mut rng);
        let state = puzzle.random_initial_state(&mut rng);
        assert!(rows_are_permutations(&state.board));
        assert_eq!(state.energy() == 0, is_solved(&state.board));
    }
}

#[test]
fn mask_of_a_solved_board_is_clear() {
    assert_eq!(conflict_mask(&base_board()), [[false; 9]; 9]);
}

#[test]
fn mask_marks_clashes_in_column_and_box() {
    let mut board = base_board();
    board[0][0] = 2;
    let mut expected = [[false; 9]; 9];
    // The new 2, the 2 beside it in the box, and the 2 below it in the column.
    expected[0][0] = true;
    expected[0][1] = true;
    expected[3][0] = true;
    assert_eq!(conflict_mask(&board), expected);
}

#[test]
fn mask_ignores_clashes_in_a_row_alone() {
    let mut board = [[0u8; 9]; 9];
    board[4][0] = 7;
    board[4][8] = 7;
    let mut expected = [[true; 9]; 9];
    // Only the two sevens have no equal in their column or box.
    expected[4][0] = false;
    expected[4][8] = false;
    assert_eq!(conflict_mask(&board), expected);
}

#[test]
fn mask_handles_any_byte() {
    let mut board = base_board();
    board[2][2] = 200;
    board[0][1] = 200;
    board[7][2] = 200;
    let mask = conflict_mask(&board);
    assert!(mask[2][2] && mask[0][1] && mask[7][2]);
    let marked = mask.iter().flatten().filter(|&&hit| hit).count();
    assert_eq!(marked, 3);
}

#[test]
fn givens_are_counted() {
    let mut givens = [[None; 9]; 9];
    assert_eq!(count_givens(&givens), 0);
    givens[0][0] = Some(5);
    givens[8][8] = Some(1);
    givens[4][3] = Some(9);
    assert_eq!(count_givens(&givens), 3);
    assert_eq!(count_givens(&all_given(&base_board())), 81);
}

#[test]
fn free_positions_are_listed_in_order() {
    let mut givens = all_given(&base_board());
    givens[0][2] = None;
    givens[0][7] = None;
    givens[0][0] = None;
    givens[5][4] = None;
    givens[8] = [None; 9];
    let puzzle = SudokuPuzzle { givens };
    let positions = puzzle.row_free_positions();
    assert_eq!(positions.len(), 9);
    assert_eq!(positions[0], vec![0, 2, 7]);
    assert_eq!(positions[1], Vec::<usize>::new());
    assert_eq!(positions[5], vec![4]);
    assert_eq!(positions[8], vec![0, 1, 2, 3, 4, 5, 6, 7, 8]);
}

#[test]
fn givens_in_order_are_told_from_others() {
    assert!(SudokuPuzzle { givens: [[None; 9]; 9] }.in_order());
    assert!(SudokuPuzzle { givens: all_given(&base_board()) }.in_order());
    let mut rng = StdRng::seed_from_u64(6);
    assert!(SudokuPuzzle::with_random_holes(48, &mut rng).in_order());

    let mut twice = [[None; 9]; 9];
    twice[3][0] = Some(4);
    twice[3][8] = Some(4);
    assert!(!SudokuPuzzle { givens: twice }.in_order());
    // The same digit in two rows is no fault of either row.
    let mut apart = [[None; 9]; 9];
    apart[3][0] = Some(4);
    apart[4][0] = Some(4);
    assert!(SudokuPuzzle { givens: apart }.in_order());

    let mut zero = [[None; 9]; 9];
    zero[0][0] = Some(0);
    assert!(!SudokuPuzzle { givens: zero }.in_order());
    let mut ten = [[None; 9]; 9];
    ten[8][8] = Some(10);
    assert!(!SudokuPuzzle { givens: ten }.in_order());
}

#[test]
fn generated_boards_are_solved() {
    for seed in 0..50 {
        let mut rng = StdRng::seed_from_u64(seed);
        let board = generate_full_solution(&mut rng);
        assert!(is_solved(&board));
        assert_eq!(SudokuState { board }.energy(), 0);
    }
}

#[test]
fn generated_boards_differ() {
    let mut first_rng = StdRng::seed_from_u64(1);
    let mut second_rng = StdRng::seed_from_u64(2);
    let first = generate_full_solution(&mut first_rng);
    let second = generate_full_solution(&mut second_rng);
    assert_ne!(first, second);
    assert_ne!(first, base_board());
}

#[test]
fn a_puzzle_without_holes_is_solved_at_once() {
    let mut rng = StdRng::seed_from_u64(42);
    let puzzle = SudokuPuzzle::with_random_holes(0, &mut rng);
    assert_eq!(count_givens(&puzzle.givens), 81);
    let mut schedule = Annealing::new(2.4, 0.9995);
    let config = SamplerConfig { max_steps: 250_000 };
    let (state, stats) = solve(&puzzle, &config, &mut schedule, &mut rng);
    assert_eq!(stats.steps, 0);
    assert_eq!(stats.best_energy, 0);
    assert_eq!(schedule.cooled, 0);
    assert!(is_solved(&state.board));
    assert!(respects(&puzzle, &state.board));
}

#[test]
fn holes_are_counted_and_capped() {
    for (holes, givens) in [(0usize, 81usize), (1, 80), (16, 65), (48, 33), (64, 17), (81, 0), (82, 0), (1000, 0)] {
        let mut rng = StdRng::seed_from_u64(holes as u64);
        let puzzle = SudokuPuzzle::with_random_holes(holes, &mut rng);
        assert_eq!(count_givens(&puzzle.givens), givens);
    }
}

#[test]
fn holes_fall_on_different_cells_for_different_seeds() {
    let mut first_rng = StdRng::seed_from_u64(10);
    let mut second_rng = StdRng::seed_from_u64(11);
    let first = SudokuPuzzle::with_random_holes(40, &mut first_rng);
    let second = SudokuPuzzle::with_random_holes(40, &mut second_rng);
    let first_free: Vec<bool> = first.givens.iter().flatten().map(|cell| cell.is_none()).collect();
    let second_free: Vec<bool> =
        second.givens.iter().flatten().map(|cell| cell.is_none()).collect();
    assert_ne!(first_free, second_free);
    // Not simply the first forty cells of the board.
    assert!(first_free[..40].iter().any(|&free| !free));
}

#[test]
fn givens_come_from_a_solved_board() {
    let mut rng = StdRng::seed_from_u64(77);
    let mut check_rng = StdRng::seed_from_u64(77);
    let puzzle = SudokuPuzzle::with_random_holes(48, &mut rng);
    let solution = generate_full_solution(&mut check_rng);
    assert!(respects(&puzzle, &solution));
    assert_eq!(count_givens(&puzzle.givens), 33);
}

#[test]
fn initial_state_keeps_the_givens() {
    for seed in 0..30 {
        let mut rng = StdRng::seed_from_u64(seed);
        let puzzle = SudokuPuzzle::with_random_holes(48, &mut rng);
        let state = puzzle.random_initial_state(&mut rng);
        assert!(rows_are_permutations(&state.board));
        assert!(respects(&puzzle, &state.board));
    }
}

#[test]
fn initial_state_of_an_empty_puzzle_is_shuffled() {
    let puzzle = SudokuPuzzle { givens: [[None; 9]; 9] };
    let mut rng = StdRng::seed_from_u64(4);
    let state = puzzle.random_initial_state(&mut rng);
    assert!(rows_are_permutations(&state.board));
    let ordered = state.board.iter().filter(|row| **row == [1, 2, 3, 4, 5, 6, 7, 8, 9]).count();
    assert!(ordered <= 1);
}

#[test]
fn initial_state_of_a_row_with_one_free_cell() {
    let mut givens = all_given(&base_board());
    givens[2][5] = None;
    let puzzle = SudokuPuzzle { givens };
    let mut rng = StdRng::seed_from_u64(4);
    let state = puzzle.random_initial_state(&mut rng);
    assert_eq!(state.board, base_board());
}

#[test]
fn no_swap_in_rows_with_fewer_than_two_free_cells() {
    let mut givens = all_given(&base_board());
    for row in 0..9 {
        givens[row][row] = None;
    }
    let puzzle = SudokuPuzzle { givens };
    let positions = puzzle.row_free_positions();
    let mut rng = StdRng::seed_from_u64(8);
    for _ in 0..200 {
        assert!(propose_swap(&puzzle, &positions, &mut rng).is_none());
    }
}

#[test]
fn swaps_take_two_different_free_cells() {
    let mut rng = StdRng::seed_from_u64(21);
    let puzzle = SudokuPuzzle::with_random_holes(48, &mut rng);
    let positions = puzzle.row_free_positions();
    let mut proposed = 0;
    for _ in 0..2000 {
        if let Some(m) = propose_swap(&puzzle, &positions, &mut rng) {
            assert!(m.row < 9 && m.first < 9 && m.second < 9);
            assert_ne!(m.first, m.second);
            assert!(puzzle.givens[m.row][m.first].is_none());
            assert!(puzzle.givens[m.row][m.second].is_none());
            assert!(positions[m.row].len() >= 2);
            proposed += 1;
        }
    }
    assert!(proposed > 0);
}

#[test]
fn swaps_in_a_row_with_two_free_cells_use_both() {
    let mut givens = all_given(&base_board());
    for row in 0..9 {
        givens[row][1] = None;
        givens[row][6] = None;
    }
    let puzzle = SudokuPuzzle { givens };
    let positions = puzzle.row_free_positions();
    let mut rng = StdRng::seed_from_u64(8);
    let mut forward = 0;
    let mut backward = 0;
    for _ in 0..200 {
        let m = propose_swap(&puzzle, &positions, &mut rng).unwrap();
        if (m.first, m.second) == (1, 6) {
            forward += 1;
        } else {
            assert_eq!((m.first, m.second), (6, 1));
            backward += 1;
        }
    }
    assert!(forward > 0 && backward > 0);
}

fn two_free_cells() -> (SudokuPuzzle, SudokuState) {
    let board = base_board();
    let mut givens = all_given(&board);
    givens[0][0] = None;
    givens[0][1] = None;
    (SudokuPuzzle { givens }, SudokuState { board })
}

#[test]
fn search_begins_at_its_start() {
    let (puzzle, start) = two_free_cells();
    let search = SudokuSearch::begin(&puzzle, start);
    assert_eq!(search.state.board, base_board());
    assert_eq!(search.best_state.board, base_board());
    assert_eq!(search.energy, 0);
    assert_eq!(search.best_energy, 0);
}

#[test]
fn declined_uphill_swaps_are_undone() {
    let (puzzle, start) = two_free_cells();
    let mut search = SudokuSearch::begin(&puzzle, start);
    let mut schedule = Constant::new(false);
    let mut rng = StdRng::seed_from_u64(1);
    search.advance(&puzzle, SudokuMove { row: 0, first: 0, second: 1 }, &mut schedule, &mut rng);
    assert_eq!(schedule.asked.get(), 1);
    assert_eq!(search.state.board, base_board());
    assert_eq!(search.energy, 0);
    assert_eq!(search.best_energy, 0);
}

#[test]
fn accepted_uphill_swaps_stand_and_leave_the_best() {
    let (puzzle, start) = two_free_cells();
    let mut search = SudokuSearch::begin(&puzzle, start);
    let mut schedule = Constant::new(true);
    let mut rng = StdRng::seed_from_u64(1);
    search.advance(&puzzle, SudokuMove { row: 0, first: 0, second: 1 }, &mut schedule, &mut rng);
    let mut expected = base_board();
    expected[0][0] = 2;
    expected[0][1] = 1;
    assert_eq!(schedule.asked.get(), 1);
    assert_eq!(search.state.board, expected);
    // Columns 0 and 1 each hold a digit twice; box 0 is as full as before.
    assert_eq!(search.energy, 2);
    assert_eq!(search.best_energy, 0);
    assert_eq!(search.best_state.board, base_board());
}

#[test]
fn downhill_swaps_are_taken_without_asking_and_become_the_best() {
    let (puzzle, solved) = two_free_cells();
    let mut board = solved.board;
    board[0][0] = 2;
    board[0][1] = 1;
    let mut search = SudokuSearch::begin(&puzzle, SudokuState { board });
    assert_eq!(search.energy, 2);
    assert_eq!(search.best_energy, 2);
    let mut schedule = Constant::new(false);
    let mut rng = StdRng::seed_from_u64(1);
    search.advance(&puzzle, SudokuMove { row: 0, first: 1, second: 0 }, &mut schedule, &mut rng);
    assert_eq!(schedule.asked.get(), 0);
    assert_eq!(search.state.board, base_board());
    assert_eq!(search.energy, 0);
    assert_eq!(search.best_energy, 0);
    assert_eq!(search.best_state.board, base_board());
}

#[test]
fn search_from_a_solved_state_takes_no_step() {
    let (puzzle, start) = two_free_cells();
    let mut schedule = Constant::new(true);
    let mut rng = StdRng::seed_from_u64(1);
    let config = SamplerConfig { max_steps: 100 };
    let (state, stats) = solve_from(&puzzle, start, &config, &mut schedule, &mut rng);
    assert_eq!(stats.steps, 0);
    assert_eq!(stats.best_energy, 0);
    assert_eq!(state.board, base_board());
    assert_eq!(schedule.cooled, 0);
}

#[test]
fn search_without_budget_returns_its_start() {
    let (puzzle, solved) = two_free_cells();
    let mut board = solved.board;
    board[0][0] = 2;
    board[0][1] = 1;
    let mut schedule = Constant::new(true);
    let mut rng = StdRng::seed_from_u64(1);
    let config = SamplerConfig { max_steps: 0 };
    let (state, stats) =
        solve_from(&puzzle, SudokuState { board }, &config, &mut schedule, &mut rng);
    assert_eq!(stats.steps, 0);
    assert_eq!(stats.best_energy, 2);
    assert_eq!(state.board, board);
}

#[test]
fn skipped_iterations_count_as_steps_and_cool() {
    // Only row 0 has free cells; the other rows yield no move.
    let (puzzle, solved) = two_free_cells();
    let mut board = solved.board;
    board[0][0] = 2;
    board[0][1] = 1;
    let mut schedule = Constant::new(false);
    let mut rng = StdRng::seed_from_u64(3);
    let config = SamplerConfig { max_steps: 1000 };
    let (state, stats) =
        solve_from(&puzzle, SudokuState { board }, &config, &mut schedule, &mut rng);
    // The first swap in row 0 solves the board.
    assert_eq!(stats.best_energy, 0);
    assert_eq!(state.board, base_board());
    assert!(stats.steps >= 1 && stats.steps < 1000);
    assert_eq!(schedule.cooled, stats.steps);
    assert_eq!(schedule.asked.get(), 0);
}

#[test]
fn search_keeps_rows_and_givens() {
    for seed in 0..5 {
        let mut rng = StdRng::seed_from_u64(seed);
        let puzzle = SudokuPuzzle::with_random_holes(48, &mut rng);
        let mut schedule = Annealing::new(2.4, 0.9995);
        let config = SamplerConfig { max_steps: 3000 };
        let (state, stats) = solve(&puzzle, &config, &mut schedule, &mut rng);
        assert!(rows_are_permutations(&state.board));
        assert!(respects(&puzzle, &state.board));
        assert_eq!(stats.best_energy, state.energy());
        assert!(stats.steps <= 3000);
        assert!(stats.best_energy == 0 || stats.steps == 3000);
        assert_eq!(stats.best_energy == 0, is_solved(&state.board));
    }
}

#[test]
fn best_energy_is_not_above_the_start() {
    let mut rng = StdRng::seed_from_u64(314);
    let puzzle = SudokuPuzzle::with_random_holes(50, &mut rng);
    let start = puzzle.random_initial_state(&mut rng);
    let start_energy = start.energy();
    let mut schedule = Constant::new(true);
    let config = SamplerConfig { max_steps: 500 };
    let (state, stats) = solve_from(&puzzle, start, &config, &mut schedule, &mut rng);
    assert!(stats.best_energy <= start_energy);
    assert_eq!(stats.best_energy, state.energy());
}

#[test]
fn best_energy_follows_every_step() {
    let mut rng = StdRng::seed_from_u64(2718);
    let puzzle = SudokuPuzzle::with_random_holes(50, &mut rng);
    let positions = puzzle.row_free_positions();
    let start = puzzle.random_initial_state(&mut rng);
    let mut search = SudokuSearch::begin(&puzzle, start);
    let mut schedule = Annealing::new(2.4, 0.9995);
    let mut lowest = search.energy;
    for _ in 0..2000 {
        if let Some(m) = propose_swap(&puzzle, &positions, &mut rng) {
            search.advance(&puzzle, m, &mut schedule, &mut rng);
        }
        schedule.cool();
        lowest = lowest.min(search.energy);
        assert_eq!(search.best_energy, lowest);
        assert_eq!(search.energy, search.state.energy());
        assert_eq!(search.best_energy, search.best_state.energy());
        assert!(rows_are_permutations(&search.state.board));
        assert!(respects(&puzzle, &search.state.board));
    }
}

#[test]
fn an_easy_puzzle_is_solved() {
    let mut rng = StdRng::seed_from_u64(42);
    let puzzle = SudokuPuzzle::with_random_holes(16, &mut rng);
    let mut schedule = Annealing::new(2.4, 0.9995);
    let config = SamplerConfig { max_steps: 250_000 };
    let (state, stats) = solve(&puzzle, &config, &mut schedule, &mut rng);
    assert_eq!(stats.best_energy, 0);
    assert!(is_solved(&state.board));
    assert!(respects(&puzzle, &state.board));
    assert!(stats.steps < 250_000);
}

#[test]
fn same_seed_same_search() {
    let run = |seed: u64| {
        let mut rng = StdRng::seed_from_u64(seed);
        let puzzle = SudokuPuzzle::with_random_holes(48, &mut rng);
        let mut schedule = Annealing::new(2.4, 0.9995);
        let config = SamplerConfig { max_steps: 5000 };
        let (state, stats) = solve(&puzzle, &config, &mut schedule, &mut rng);
        (puzzle.givens, state.board, stats.steps, stats.best_energy, schedule.temperature.to_bits(), rng.random::<u64>())
    };
    assert_eq!(run(123), run(123));
    assert_ne!(run(123).0, run(124).0);
}

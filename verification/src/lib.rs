//! Simulated annealing for two constraint puzzles: eight queens and Sudoku.
//!
//! Every search works on a fixed-size state, measures it with an integer
//! energy (the number of broken constraints) and perturbs it with moves that
//! keep the structural invariants of the puzzle. Temperature is not part of
//! this crate: callers hand in a [`schedule::Schedule`], which says with what
//! odds a move that raises the energy is taken, and cools when it is told to.
pub mod generate;
pub mod grid;
pub mod queens;
pub mod random;
pub mod schedule;
pub mod sudoku;

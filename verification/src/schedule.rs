//! The part of annealing that depends on temperature.
use rand::distr::Bernoulli;
use vstd::prelude::*;

verus! {

/// A cooling schedule together with its acceptance rule.
///
/// The searches in this crate decide everything that integers decide: a move
/// that does not raise the energy is always taken. With what odds a move that
/// raises it is taken, and how the temperature falls, is the schedule's
/// business. The searches are verified for every schedule, so nothing is
/// assumed of these methods.
pub trait Schedule {
    /// Called once at the start of every attempt.
    fn restart(&mut self);

    /// The odds of taking a move that raises the energy by `delta`.
    fn acceptance(&self, delta: usize) -> Bernoulli
        requires
            delta > 0,
    ;

    /// Called once at the end of every iteration.
    fn cool(&mut self);
}

} // verus!

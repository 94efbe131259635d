//! What a search asks of its surroundings: arithmetic on reals, the boards that the
//! games are played on, and random draws.
//!
//! Nothing is promised of the answers. What the library does is stated in terms of
//! whatever was answered.

use crate::game::{position_wf, Position};
use crate::ieee::{Real, Real32};
use crate::tree::{Node, POLICY_SIZE};
use vstd::prelude::*;

verus! {

/// Arithmetic on reals.
pub trait Arithmetic {
    /// A value sum divided by a visit count.
    fn quotient(&self, sum: Real, visits: u32) -> Real;

    /// How promising a child is, given its parent's visit count, at least one.
    fn score(&self, parent_visits: u32, child: &Node) -> Real;

    /// Probabilities in proportion to the exponentials of the logits.
    fn softmax(&self, logits: &Vec<Real32>) -> Vec<Real>;

    /// A sum of two reals.
    fn plus(&self, x: Real, y: Real) -> Real;

    /// A prior with its share of exploration noise mixed in.
    fn mix(&self, prior: Real, noise: Real) -> Real;

    /// Sampling temperature after the given number of annealing steps.
    fn temper(&self, steps: usize) -> Real;

    /// Probabilities in proportion to visit counts sharpened by a temperature; `None`
    /// when the counts carry no weight.
    fn shares(&self, counts: &Vec<u32>, temperature: Real) -> Option<Vec<Real32>>;
}

/// The boards of the games that are being played, and their random numbers. A game is
/// named by its seat, and a moment of it by its line: all the moves that were played since
/// the game started. Every question but the first tells both.
pub trait Table {
    /// Sets up a new game and tells its position. The game has random numbers of its own, from
    /// the given seed, or shares those of the table when there is none.
    fn start(&self, seat: u64, seed: Option<u64>) -> Position;

    /// The position that the given moves lead to from the end of the line. They are not
    /// played on the board.
    fn look(&self, seat: u64, line: &Vec<u16>, handles: &Vec<u16>) -> Position;

    /// Plays the last move of the line on the board and tells the position at the end of the
    /// line.
    fn play(&self, seat: u64, line: &Vec<u16>) -> Position;

    /// A random point of the simplex with `n` coordinates.
    fn noise(&self, seat: u64, line: &Vec<u16>, n: usize) -> Vec<Real>;

    /// Cumulative weights of visit counts sharpened by a temperature, with a random
    /// threshold below the last of them.
    fn draw(
        &self,
        seat: u64,
        line: &Vec<u16>,
        counts: &Vec<u32>,
        temperature: Real,
    ) -> (Real, Vec<Real>);
}

/// The network: it evaluates batches of positions.
pub trait Evaluator {
    /// The policies of `m` encoded positions, row after row, and their values from the
    /// point of view of the side to move.
    fn eval(&self, enc: &Vec<Real32>, m: usize) -> (Vec<Real32>, Vec<Real>);
}

/// The network answers with a policy and a value for each position.
pub open spec fn answers_fit<E: Evaluator>(net: E) -> bool {
    forall|enc: &Vec<Real32>, m: usize, out: (Vec<Real32>, Vec<Real>)| #[trigger]
        call_ensures(E::eval, (&net, enc, m), out) ==> out.0@.len() >= m * POLICY_SIZE
            && out.1@.len() >= m
}

/// The softmax has a probability for each logit.
pub open spec fn softmax_fits<A: Arithmetic>(arith: A) -> bool {
    forall|row: &Vec<Real32>, priors: Vec<Real>| #[trigger]
        call_ensures(A::softmax, (&arith, row), priors) ==> priors@.len() == row@.len()
}

/// Every position on the table is well-formed, and a new game has not ended.
pub open spec fn table_wf<T: Table>(table: T) -> bool {
    &&& forall|seat: u64, seed: Option<u64>, p: Position| #[trigger]
        call_ensures(T::start, (&table, seat, seed), p) ==> position_wf(p) && p.outcome is None
    &&& forall|seat: u64, line: &Vec<u16>, handles: &Vec<u16>, p: Position| #[trigger]
        call_ensures(T::look, (&table, seat, line, handles), p) ==> position_wf(p)
    &&& forall|seat: u64, line: &Vec<u16>, p: Position| #[trigger]
        call_ensures(T::play, (&table, seat, line), p) ==> position_wf(p)
}

} // verus!

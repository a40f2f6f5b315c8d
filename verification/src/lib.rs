//! A verified model of a 4x4 sliding-tile merging puzzle and of an
//! automated player for it: the board with its symmetry-composed
//! transition engine, stochastic tile placement with its full successor
//! enumeration, a fixed-point heuristic evaluator, pluggable action
//! selection with random, greedy and bounded-expectimax strategies, and
//! a failure-tolerant game loop with batch aggregation.

pub mod board;
pub mod phase;
mod rng;
pub mod eval;
pub mod search;
pub mod game;

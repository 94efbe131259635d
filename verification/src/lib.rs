//! Self-play, search bookkeeping and evaluation logic for a chess engine trained
//! from its own games.
//!
//! Reals are carried as their bit patterns. Whatever computes with them, plays on boards or
//! runs a network comes in through the traits of [`arith`], [`choice`], [`elo`] and
//! [`match_play`], of whose answers nothing is promised: contracts speak of the answers that
//! were given.

pub mod arith;
pub mod batch;
pub mod buckets;
pub mod choice;
pub mod cli;
pub mod cohort;
pub mod consumer;
pub mod counting;
pub mod dice;
pub mod elo;
pub mod engine;
pub mod evaluation;
pub mod frame;
pub mod game;
pub mod ieee;
pub mod inflight;
pub mod match_play;
pub mod pace;
pub mod policy;
pub mod pool;
pub mod queue;
pub mod replay;
pub mod ring;
pub mod search;
pub mod seeds;
pub mod setup;
pub mod shards;
pub mod totals;
pub mod tree;
pub mod weights;

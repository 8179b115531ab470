//! Monte Carlo prediction of multi-attempt timed competitions.
//!
//! A competition round is decided by one of three formats: the average of
//! five attempts with the best and the worst dropped, the mean of three, or
//! the best of three.  From the history of every competitor the predictor
//! simulates a large number of rounds, four at a time in lanes that advance
//! together, and counts for every competitor how often it wins, stands on
//! the podium and finishes in each place, along with histograms of its
//! simulated attempts and results.
//!
//! This crate is the verified integer core of the predictor:
//!
//! - [`data`] turns what the results service delivers into dated histories,
//! - [`competitor`] and [`calc`] select the attempts that a fit rests on,
//! - [`simd`] turns sampled draws into lanes of attempt times and computes
//!   the results of the three formats,
//! - [`event_simulator`] simulates a batch of rounds for one competitor,
//! - [`histogram`] counts times in bounded buckets,
//! - [`calc`] and [`tally`] rank the competitors of a round and say what a
//!   run accumulates,
//! - [`simulation`] is the simulator itself, and [`model`] says what it
//!   does.
//!
//! Two things are left to the caller, because they work in floating point:
//! fitting a distribution to the selected attempts, and sampling from it.
//! The caller hands in what was fitted with every competitor and the sampled
//! draws with every batch.  The library carries the fitted parameters as
//! bits and samples nothing for a competitor whose parameters are not
//! finite.  Whatever the draws, the wins of a run add up to the rounds it
//! simulated, the podiums to three per round, and every rank distribution
//! to the number of rounds.

pub mod calc;

pub mod competitor;

pub mod data;

pub mod event;

pub mod event_simulator;

pub mod histogram;

pub mod model;

pub mod simd;

pub mod simulation;

pub mod tally;

pub mod text;

//! Randomized minimum-cut estimation by repeated edge contraction.
//!
//! A graph is reduced to a two-way partition of its non-isolated vertices by
//! repeatedly merging the endpoints of a randomly chosen surviving edge; the
//! number of original edges crossing the resulting partition is one trial's
//! cut size. Many independent trials are run and the best cut found is
//! reported together with a statistic describing how often it was rediscovered.

pub mod contraction;
pub mod evaluate;
pub mod graph;
pub mod parse;
pub mod stats;
pub mod trial;

//! Permutation testing of the overlap between two sets of genomic intervals:
//! randomize one set under a null model, recount its overlap with the other,
//! and judge the observed overlap against the trials.
pub mod bag;
pub mod engine;
pub mod intervals;
pub mod novl;
pub mod overlap;
pub mod randomize;
pub mod rng;
pub mod stats;

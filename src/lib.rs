//! Word alignment of sentence pairs: soft position scores, hard decision rules, merging of
//! alignment sets, and a greedy grid search over decision parameters against gold alignments.
//! Scores are exact fractions.

pub mod config;
pub mod edit;
pub mod hard;
pub mod merge;
pub mod optimizer;
pub mod score;
pub mod soft;

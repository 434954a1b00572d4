//! Scoring and scenario-injection engine of a live cyber-defense exercise.
//!
//! The crate holds the competition state and the rules that advance it: the
//! service catalogue, the per-team score ledger, the one-shot inject
//! scheduler and the snapshot/merge protocol of a round. Every function is
//! verified against a contract stated over the views of the data types.

pub mod board;
pub mod catalogue;
pub mod config;
pub mod effect;
pub mod inject;
pub mod laws;
pub mod lookup;
pub mod probe;
pub mod score;
pub mod service;
pub mod team;

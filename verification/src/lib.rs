//! Core substrate of an evolutionary-search engine: a spatially structured
//! population container with locality-biased selection ("trivial geography"),
//! a family of multi-objective fitness-score representations, and an
//! execution-profile collator that aggregates per-run traces into
//! population-level summaries.

pub mod error;
pub mod geography;
pub mod rng;
pub mod fixed;
pub mod score_map;
pub mod weighting;
pub mod fitness;
pub mod assoc;
pub mod reg_map;
pub mod paths;
pub mod register_pattern;
pub mod profiler;
pub mod observe;

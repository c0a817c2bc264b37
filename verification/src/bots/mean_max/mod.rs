//! A search that maximises over actions and averages over outcomes.
pub mod logger;
pub mod max_depth;
pub mod schedule;
pub mod searcher;

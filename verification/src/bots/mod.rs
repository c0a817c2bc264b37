//! Bots that play games, and what they are built from.
pub mod dfs;
pub mod heuristic;
pub mod mean_max;
pub mod model;

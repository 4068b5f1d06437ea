//! Matchmaking and experiment-bookkeeping logic of the matchlab simulator,
//! with contracts proved by Verus.
pub mod ids;
pub mod combinations;
pub mod queue;
pub mod text;
pub mod party;
pub mod world;
pub mod constraint;
pub mod order;
pub mod rng;
pub mod candidate;
pub mod batch;
pub mod hub;
pub mod streaks;
pub mod buckets;
pub mod cohort;
pub mod pareto;
pub mod kinds;
pub mod config;
pub mod unmatched;
pub mod search;
pub mod window;
pub mod selection;
pub mod objective;
pub mod population;
pub mod dynamics;
pub mod rank;
pub mod leaderboard;
pub mod optimizer;
pub mod queue_time;
pub mod convergence;

//! The decision-makers: evaluation, rollouts, bots, search and benchmarks.
pub mod benchmark;
pub mod bot;
pub mod eval;
pub mod ismcts;
pub mod rollout;

pub use benchmark::{
    benchmark_head_to_head, benchmark_ismcts_vs_opponents, benchmark_ismcts_vs_random, BenchmarkBot, BenchmarkConfig,
    BenchmarkResult, HeadToHeadResult, MultiOpponentConfig,
};
pub use bot::{Bot, HeuristicBot, RandomBot};
pub use eval::evaluate;
pub use ismcts::{IsmctsBot, SearchConfig};
pub use rollout::{
    choose_rollout_move, rollout, HeuristicProfile, HeuristicRolloutPolicy, RandomRolloutPolicy, RolloutPolicy,
    RolloutPolicyKind,
};

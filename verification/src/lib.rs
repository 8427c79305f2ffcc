//! A Coup game engine: the full rules for two to six players, per-player
//! observations, determinization of an information set, and bots from
//! uniform random play to information-set Monte Carlo tree search.
use vstd::prelude::*;

pub mod cards;
pub mod engine;
pub mod game;
pub mod hands;
pub mod interface;
pub mod invariants;
pub mod laws;
pub mod moves;
pub mod players;
pub mod random;
pub mod rules;
pub mod setup;
pub mod state;

pub use cards::Card;
pub use interface::CoupGame;
pub use state::{
    ActionKind, DeclaredAction, GameError, GameState, InfluenceCard, Move, Observation, ObservedPlayer, Phase,
    PlayerId, PlayerState,
};

verus! {

} // verus!

//! Bots: decision-makers that only see an observation.
use rand::rngs::StdRng;
use vstd::prelude::*;

use crate::engine::rollout::{jittered_choice, HeuristicProfile, HeuristicRolloutPolicy, RolloutPolicy};
use crate::cards::Card;
use crate::random::{choose_one, random_u64};
use crate::rules::{active_player, legal_moves};
use crate::setup::{
    always_playable, consistent_deal, determinized, enough_unseen, lemma_determinized_wf, observation_ok, plausible_move,
    unseen_cards,
};
use crate::state::{moves_model, GameState, Move, MoveModel, Observation, ObservationModel};

verus! {

/// A player that chooses moves from what it can observe.
pub trait Bot {
    /// A move for the player awaited in some state consistent with the
    /// observation, or `None` when the bot has nothing to propose.
    fn choose_move(&mut self, observation: &Observation, rng: &mut StdRng) -> (choice: Option<Move>)
        requires
            observation_ok(observation@),
        ensures
            choice matches Some(m) ==> plausible_move(observation@, m@),
    ;
}

/// Samples a full state consistent with the observation, the seed drawn
/// from `rng`; also returns how the unseen cards were ordered.
pub(crate) fn sample_state(observation: &Observation, rng: &mut StdRng) -> (r: Option<(GameState, Ghost<Seq<Card>>)>)
    requires
        observation_ok(observation@),
    ensures
        r matches Some((state, shuffled)) ==> consistent_deal(observation@, shuffled@)
            && state@ == determinized(observation@, shuffled@) && state.wf(),
        (unseen_cards(observation@) matches Some(unseen) && enough_unseen(observation@, unseen)) ==> r is Some,
{
    let seed = random_u64(rng);
    match GameState::determinize(observation, seed) {
        Ok(state) => {
            let ghost unseen = unseen_cards(observation@)->Some_0;
            let ghost sh = choose|sh: Seq<Card>|
                sh.to_multiset() == unseen.to_multiset() && state@ == #[trigger] determinized(observation@, sh);
            proof {
                lemma_determinized_wf(observation@, sh);
            }
            Some((state, Ghost(sh)))
        },
        Err(_) => None,
    }
}

/// Plays a uniformly random legal move of a sampled state.
#[derive(Debug, Clone, Copy, Default)]
pub struct RandomBot;

impl Bot for RandomBot {
    fn choose_move(&mut self, observation: &Observation, rng: &mut StdRng) -> (choice: Option<Move>)
        ensures
            always_playable(observation@) ==> choice is Some,
    {
        let (state, shuffled) = match sample_state(observation, rng) {
            Some(sample) => sample,
            None => {
                return None;
            },
        };
        let player = match state.active_player() {
            Some(player) => player,
            None => {
                return None;
            },
        };
        let legal = state.legal_moves(player);
        let choice = match choose_one(&legal, rng) {
            Some(m) => {
                let copy = m.duplicate();
                proof {
                    let k = choose|k: int| 0 <= k < legal@.len() && legal@[k] == *m;
                    assert(moves_model(legal@)[k] == copy@);
                }
                Some(copy)
            },
            None => None,
        };
        proof {
            if choice is Some {
                assert(consistent_deal(observation@, shuffled@));
            }
        }
        choice
    }
}

/// A move the heuristic may choose: in some full state consistent with the
/// observation, the last legal move of the awaited player of highest value
/// plus some jitter in `0..4` for each legal move.
pub open spec fn heuristic_choice(o: ObservationModel, m: MoveModel, profile: HeuristicProfile) -> bool {
    exists|shuffled: Seq<Card>| #[trigger] consistent_deal(o, shuffled) && {
        let d = determinized(o, shuffled);
        &&& active_player(d) matches Some(p)
        &&& legal_moves(d, p).contains(m)
        &&& jittered_choice(d, p, legal_moves(d, p), m, profile)
    }
}

/// Plays the heuristic's choice in a sampled state.
#[derive(Debug, Clone, Copy)]
pub struct HeuristicBot {
    pub profile: HeuristicProfile,
}

impl HeuristicBot {
    pub fn new(profile: HeuristicProfile) -> (bot: Self)
        ensures
            bot.profile == profile,
    {
        Self { profile }
    }
}

impl Default for HeuristicBot {
    fn default() -> (bot: Self)
        ensures
            bot.profile == HeuristicProfile::Balanced,
    {
        Self::new(HeuristicProfile::Balanced)
    }
}

impl Bot for HeuristicBot {
    fn choose_move(&mut self, observation: &Observation, rng: &mut StdRng) -> (choice: Option<Move>)
        ensures
            always_playable(observation@) ==> choice is Some,
            choice matches Some(m) ==> heuristic_choice(observation@, m@, old(self).profile),
    {
        let (state, shuffled) = match sample_state(observation, rng) {
            Some(sample) => sample,
            None => {
                return None;
            },
        };
        let player = match state.active_player() {
            Some(player) => player,
            None => {
                return None;
            },
        };
        let legal = state.legal_moves(player);
        proof {
            crate::invariants::lemma_legal_moves_scorable(state@, player);
            if legal@.len() > 0 {
                assert(moves_model(legal@).contains(moves_model(legal@)[0]));
                crate::invariants::lemma_legal_move_facts(state@, player, moves_model(legal@)[0]);
            }
        }
        if legal.len() == 0 {
            return None;
        }
        let policy = HeuristicRolloutPolicy::new(self.profile);
        let choice = policy.choose_heuristic_move(&state, player, &legal, rng);
        proof {
            if choice is Some {
                assert(consistent_deal(observation@, shuffled@));
                assert(moves_model(legal@) == legal_moves(state@, player));
                assert(moves_model(legal@).contains(choice->Some_0@));
            }
        }
        choice
    }
}

} // verus!

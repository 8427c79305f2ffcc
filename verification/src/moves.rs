//! Applying moves: the state changes of each move and its follow-ups.
use vstd::prelude::*;

use crate::cards::Card;
use crate::random::shuffle_cards;
use crate::invariants::{
    lemma_first_hidden_index, lemma_remove_all, lemma_assign_hidden_empty, lemma_legal_move_facts,
    action_move_ok,
    lemma_effects_coins, lemma_execute_wf, lemma_finish_wf, lemma_next_turn_wf, lemma_players_model_update,
    lemma_settle_wf, window_action, lemma_resolve_wf, lemma_replace_claim_wf,
};
use crate::rules::{
    replace_claim, resolve_challenge, pass_challenge, start_block_challenge, pass_block,
    reveal_influence, exchange_return, exchange_pool, remove_all, assign_hidden, shuffle_ok,
    apply, move_step, declare, legal_moves, active_player, pending_ok, spec_claim,
    first_hidden_index, shuffle_source,
    action_effects, action_ok, block_challenge_responders, block_responders, challenge_responders,
    coins_ok, draw_two, drawn_cards, execute_action, finish, first_living_or_zero, followup_phase,
    gains_coins, lemma_action_effects_len, lemma_next_turn_phase, next_turn_phase,
    only_living_player, phase_ok, set_coins, settle, settle_rank, wf, with_phase,
};
use crate::state::{
    ActionKind, DeclaredAction, GameError, GameModel, GameState, InfluenceCard, Move, MoveModel, Phase,
    PhaseModel, PlayerId, players_model,
};
use crate::game::contains_move;

verus! {

impl GameState {
    fn set_player_coins(&mut self, player: PlayerId, coins: u8)
        requires
            player < old(self).players.len(),
        ensures
            final(self)@ == (GameModel {
                players: set_coins(old(self)@.players, player as int, coins as int),
                deck: old(self)@.deck,
                phase: old(self)@.phase,
            }),
            final(self).rng == old(self).rng,
    {
        let ghost before = self.players@;
        self.players[player].coins = coins;
        proof {
            lemma_players_model_update(before, player as int, self.players@[player as int]);
            assert(self.players@ == before.update(player as int, self.players@[player as int]));
        }
    }
}

impl GameState {
    /// The phase that opens the next turn.
    fn next_turn_phase(&self) -> (phase: Phase)
        requires
            1 <= self.players.len() <= 64,
            phase_ok(self@.players.len(), self@.phase),
        ensures
            phase@ == next_turn_phase(self@.players, self@.phase),
    {
        let start = match &self.phase {
            Phase::AwaitingAction { actor } => *actor,
            Phase::AwaitingChallenge { action, .. } => action.actor,
            Phase::AwaitingBlock { action, .. } => action.actor,
            Phase::AwaitingBlockChallenge { action, .. } => action.actor,
            Phase::AwaitingExchangeReturn { player, .. } => *player,
            Phase::AwaitingInfluenceLoss { .. } => self.current_actor_fallback(),
            Phase::Terminal { winner } => {
                return Phase::Terminal { winner: *winner };
            },
        };
        match self.next_living_after(start) {
            Some(next) => Phase::AwaitingAction { actor: next },
            None => Phase::Terminal { winner: start },
        }
    }

    /// The phase that follows a resolved action.
    fn action_followup_phase(&self, action: DeclaredAction) -> (phase: Phase)
        requires
            1 <= self.players.len() <= 64,
            phase_ok(self@.players.len(), self@.phase),
        ensures
            phase@ == followup_phase(self@.players, self@.phase, action),
    {
        match action.kind {
            ActionKind::ForeignAid | ActionKind::Tax | ActionKind::Steal { .. } => self.next_turn_phase(),
            ActionKind::Assassinate { target } => {
                let next = self.next_turn_phase();
                Phase::AwaitingInfluenceLoss { player: target, next: Box::new(next) }
            },
            ActionKind::Exchange => Phase::AwaitingExchangeReturn {
                player: action.actor,
                drawn: Vec::new(),
            },
        }
    }

    /// The coins an action moves once it resolves.
    fn apply_action_effects(&mut self, action: DeclaredAction)
        requires
            coins_ok(old(self)@.players),
            action_ok(old(self)@.players.len(), action),
            gains_coins(action.kind) ==> old(self)@.players[action.actor as int].coins < 10,
        ensures
            final(self)@ == (GameModel {
                players: action_effects(old(self)@.players, action),
                deck: old(self)@.deck,
                phase: old(self)@.phase,
            }),
            final(self).rng == old(self).rng,
    {
        let actor = action.actor;
        match action.kind {
            ActionKind::ForeignAid => {
                let coins = self.players[actor].coins + 2;
                self.set_player_coins(actor, coins);
            },
            ActionKind::Tax => {
                let coins = self.players[actor].coins + 3;
                self.set_player_coins(actor, coins);
            },
            ActionKind::Steal { target } => {
                let target_coins = self.players[target].coins;
                let stolen = if target_coins < 2 { target_coins } else { 2 };
                self.set_player_coins(target, target_coins - stolen);
                assert(self@.players[actor as int].coins <= 250) by {
                    assert(coins_ok(old(self)@.players));
                    assert(old(self)@.players[actor as int].coins <= 250);
                }
                let coins = self.players[actor].coins + stolen;
                self.set_player_coins(actor, coins);
            },
            ActionKind::Exchange | ActionKind::Assassinate { .. } => {},
        }
    }

    /// Resolves the action of the current response window now.
    fn execute_action_now(&mut self, action: DeclaredAction)
        requires
            wf(old(self)@),
            window_action(old(self)@.phase) == Some(action),
        ensures
            final(self)@ == execute_action(old(self)@, action),
            wf(final(self)@),
            final(self).rng == old(self).rng,
    {
        proof {
            lemma_execute_wf(self@, action);
        }
        self.apply_action_effects(action);
        proof {
            lemma_action_effects_len(old(self)@.players, action);
        }
        let next = self.action_followup_phase(action);
        self.phase = next;
    }

    /// Draws the top two cards of the deck for the exchanger.
    fn draw_for_exchange(&mut self, player: PlayerId)
        requires
            old(self)@.deck.len() >= 2,
        ensures
            final(self)@ == draw_two(old(self)@, player),
            final(self).rng == old(self).rng,
    {
        let first = self.deck.pop().unwrap();
        let second = self.deck.pop().unwrap();
        let mut drawn: Vec<Card> = Vec::new();
        drawn.push(first);
        drawn.push(second);
        self.phase = Phase::AwaitingExchangeReturn { player, drawn };
        assert(self@.deck =~= old(self)@.deck.subrange(0, old(self)@.deck.len() - 2));
        assert(drawn@ =~= seq![old(self)@.deck[old(self)@.deck.len() - 1], old(self)@.deck[old(self)@.deck.len() - 2]]);
    }

    /// Runs the steps nobody decides (see `settle`).
    fn skip_empty_response_windows(&mut self)
        requires
            wf(old(self)@),
        ensures
            final(self)@ == settle(old(self)@),
            wf(final(self)@),
            final(self).rng == old(self).rng,
    {
        let ghost start = self@;
        loop
            invariant
                wf(self@),
                settle(self@) == settle(start),
                self.rng == old(self).rng,
            ensures
                self@ == settle(start),
                wf(self@),
                self.rng == old(self).rng,
            decreases settle_rank(self@),
        {
            proof {
                lemma_settle_wf(self@);
            }
            match &self.phase {
                Phase::AwaitingChallenge { action, responder_index } => {
                    let action = *action;
                    if *responder_index >= self.challenge_responders(action).len() {
                        if self.block_responders(action).len() == 0 {
                            proof {
                                lemma_action_effects_len(self@.players, action);
                                crate::rules::lemma_followup_rank(action_effects(self@.players, action), self@.phase, action);
                            }
                            self.execute_action_now(action);
                        } else {
                            self.phase = Phase::AwaitingBlock { action, responder_index: 0 };
                        }
                    } else {
                        break;
                    }
                },
                Phase::AwaitingBlock { action, responder_index } => {
                    let action = *action;
                    if *responder_index >= self.block_responders(action).len() {
                        proof {
                            lemma_action_effects_len(self@.players, action);
                            crate::rules::lemma_followup_rank(action_effects(self@.players, action), self@.phase, action);
                        }
                        self.execute_action_now(action);
                    } else {
                        break;
                    }
                },
                Phase::AwaitingBlockChallenge { blocker, responder_index, .. } => {
                    let blocker = *blocker;
                    if *responder_index >= self.block_challenge_responders(blocker).len() {
                        proof {
                            lemma_next_turn_wf(self@);
                            lemma_next_turn_phase(self@.players, self@.phase);
                        }
                        let next = self.next_turn_phase();
                        self.phase = next;
                    } else {
                        break;
                    }
                },
                Phase::AwaitingExchangeReturn { player, drawn } => {
                    if drawn.len() == 0 {
                        let player = *player;
                        self.draw_for_exchange(player);
                    }
                    break;
                },
                Phase::AwaitingAction { actor } => {
                    let actor = *actor;
                    if !self.players[actor].is_alive() {
                        proof {
                            lemma_next_turn_wf(self@);
                            lemma_next_turn_phase(self@.players, self@.phase);
                        }
                        let next = self.next_turn_phase();
                        self.phase = next;
                    } else {
                        break;
                    }
                },
                Phase::AwaitingInfluenceLoss { player, next } => {
                    if !self.players[*player].is_alive() {
                        let inner = (**next).duplicate();
                        self.phase = inner;
                    } else {
                        break;
                    }
                },
                _ => {
                    break;
                },
            }
        }
    }

    /// Ends the turn: the next turn opens and the empty windows run.
    fn end_turn(&mut self)
        requires
            wf(old(self)@),
            old(self)@.deck.len() >= 2,
        ensures
            final(self)@ == settle(with_phase(old(self)@, next_turn_phase(old(self)@.players, old(self)@.phase))),
            wf(final(self)@),
            final(self).rng == old(self).rng,
    {
        proof {
            lemma_next_turn_wf(self@);
        }
        let next = self.next_turn_phase();
        self.phase = next;
        self.skip_empty_response_windows();
    }

    /// The closing checks of every move.
    fn finish_if_terminal(&mut self)
        requires
            wf(old(self)@),
        ensures
            final(self)@ == finish(old(self)@),
            wf(final(self)@),
            final(self).rng == old(self).rng,
    {
        proof {
            lemma_finish_wf(self@);
            crate::game::lemma_living_others_bound(self@.players, -1, self@.players.len());
        }
        if let Some(winner) = self.only_living_player() {
            self.phase = Phase::Terminal { winner };
        }
        self.skip_empty_response_windows();
    }
}


/// The model of a refusable step: an `Ok` result carries the state after
/// it, an `Err` leaves the state as it was.
pub open spec fn outcome(
    r: Result<(), GameError>,
    before: GameModel,
    after: GameModel,
    expected: Result<GameModel, GameError>,
) -> bool {
    match r {
        Ok(_) => expected == Ok::<GameModel, GameError>(after),
        Err(e) => expected == Err::<GameModel, GameError>(e) && after == before,
    }
}

impl GameState {
    /// Opens the challenge window of a claimed action.
    fn start_claimed_action(&mut self, actor: PlayerId, kind: ActionKind)
        requires
            wf(with_phase(
                old(self)@,
                PhaseModel::AwaitingChallenge {
                    action: DeclaredAction { actor, kind },
                    responder_index: 0,
                },
            )),
        ensures
            final(self)@ == declare(old(self)@, actor, kind),
            wf(final(self)@),
            final(self).rng == old(self).rng,
    {
        self.phase = Phase::AwaitingChallenge { action: DeclaredAction { actor, kind }, responder_index: 0 };
        self.skip_empty_response_windows();
    }

    /// A proven claim: the claimed card is shuffled into the deck and the
    /// player draws the top card in its place. Returns the shuffled deck.
    /// The shuffle draws from the game's generator whenever the deck held a
    /// card before the claim went in.
    fn replace_revealed_claim(&mut self, player: PlayerId, claim: Card) -> (shuffled: Ghost<Seq<Card>>)
        requires
            player < old(self).players.len(),
            old(self)@.players[player as int].has_hidden(claim),
        ensures
            shuffled@.to_multiset() == old(self)@.deck.push(claim).to_multiset(),
            shuffled@.len() == old(self)@.deck.len() + 1,
            final(self)@ == replace_claim(old(self)@, player as int, claim, shuffled@),
            old(self)@.deck.len() >= 1 ==> final(self).rng != old(self).rng,
    {
        let ghost infl = self.players@[player as int].influence@;
        proof {
            lemma_first_hidden_index(infl, claim);
        }
        let mut index: usize = 0;
        while index < self.players[player].influence.len()
            invariant
                player < self.players.len(),
                self.players@[player as int].influence@ == infl,
                0 <= index <= infl.len(),
                forall|j: int| 0 <= j < index ==> !(!infl[j].revealed && infl[j].card == claim),
            ensures
                0 <= index <= infl.len(),
                forall|j: int| 0 <= j < index ==> !(!infl[j].revealed && infl[j].card == claim),
                index < infl.len() ==> !infl[index as int].revealed && infl[index as int].card == claim,
            decreases infl.len() - index,
        {
            let card = self.players[player].influence[index];
            if !card.revealed && card.card == claim {
                break;
            }
            index = index + 1;
        }
        proof {
            let f = first_hidden_index(infl, claim);
            if f < index {
                assert(!infl[f].revealed && infl[f].card == claim);
            }
            assert(index == f);
        }
        self.deck.push(claim);
        shuffle_cards(&mut self.deck, &mut self.rng);
        let ghost shuffled = self.deck@;
        let drawn = self.deck.pop().unwrap();
        let ghost before = self.players@;
        let ghost old_player = self.players@[player as int];
        self.players[player].influence.set(index, InfluenceCard { card: drawn, revealed: false });
        proof {
            lemma_players_model_update(before, player as int, self.players@[player as int]);
            assert(self.players@ == before.update(player as int, self.players@[player as int]));
            assert(self.deck@ =~= shuffled.drop_last());
        }
        Ghost(shuffled)
    }

    /// A challenge of the claim awaiting one, by `challenger`.
    fn resolve_challenge(&mut self, challenger: PlayerId) -> (r: Result<Ghost<Seq<Card>>, GameError>)
        requires
            wf(old(self)@),
            challenger < old(self).players.len(),
        ensures
            match r {
                Ok(shuffled) => shuffle_ok(old(self)@, challenger, MoveModel::Challenge, shuffled@)
                    && resolve_challenge(old(self)@, challenger, shuffled@) == Ok::<GameModel, GameError>(final(self)@)
                    && wf(final(self)@),
                Err(e) => final(self)@ == old(self)@ && forall|sh: Seq<Card>|
                    resolve_challenge(old(self)@, challenger, sh) == Err::<GameModel, GameError>(e),
            },
            shuffle_source(old(self)@, challenger, MoveModel::Challenge) is Some <==> final(self).rng != old(self).rng,
    {
        let ghost g = self@;
        match &self.phase {
            Phase::AwaitingChallenge { action, .. } => {
                let action = *action;
                let claim = action.kind.claim().unwrap();
                if self.players[action.actor].has_hidden_card(claim) {
                    let shuffled = self.replace_revealed_claim(action.actor, claim);
                    let ghost g1 = self@;
                    proof {
                        lemma_replace_claim_wf(g, action.actor as int, claim, shuffled@);
                    }
                    let next = if self.block_responders(action).len() == 0 {
                        proof {
                            lemma_effects_coins(g1.players, action);
                        }
                        self.apply_action_effects(action);
                        proof {
                            lemma_next_turn_phase(self@.players, self@.phase);
                        }
                        self.action_followup_phase(action)
                    } else {
                        Phase::AwaitingBlock { action, responder_index: 0 }
                    };
                    self.phase = Phase::AwaitingInfluenceLoss { player: challenger, next: Box::new(next) };
                    proof {
                        lemma_resolve_wf(g, challenger, shuffled@);
                    }
                    Ok(shuffled)
                } else {
                    proof {
                        lemma_next_turn_phase(self@.players, self@.phase);
                    }
                    let next = self.next_turn_phase();
                    self.phase = Phase::AwaitingInfluenceLoss { player: action.actor, next: Box::new(next) };
                    proof {
                        lemma_resolve_wf(g, challenger, g.deck);
                    }
                    Ok(Ghost(g.deck))
                }
            },
            Phase::AwaitingBlockChallenge { action, blocker, block_card, .. } => {
                let action = *action;
                let blocker = *blocker;
                let block_card = *block_card;
                if self.players[blocker].has_hidden_card(block_card) {
                    let shuffled = self.replace_revealed_claim(blocker, block_card);
                    proof {
                        lemma_replace_claim_wf(g, blocker as int, block_card, shuffled@);
                        lemma_next_turn_phase(self@.players, self@.phase);
                    }
                    let next = self.next_turn_phase();
                    self.phase = Phase::AwaitingInfluenceLoss { player: challenger, next: Box::new(next) };
                    proof {
                        lemma_resolve_wf(g, challenger, shuffled@);
                    }
                    Ok(shuffled)
                } else {
                    proof {
                        lemma_effects_coins(g.players, action);
                    }
                    self.apply_action_effects(action);
                    proof {
                        lemma_next_turn_phase(self@.players, self@.phase);
                    }
                    let next = self.action_followup_phase(action);
                    self.phase = Phase::AwaitingInfluenceLoss { player: blocker, next: Box::new(next) };
                    proof {
                        lemma_resolve_wf(g, challenger, g.deck);
                    }
                    Ok(Ghost(g.deck))
                }
            },
            _ => Err(GameError::InvalidMove),
        }
    }

    /// Passing on a challenge.
    fn pass_challenge(&mut self) -> (r: Result<(), GameError>)
        requires
            wf(old(self)@),
            active_player(old(self)@) is Some,
        ensures
            outcome(r, old(self)@, final(self)@, pass_challenge(old(self)@)),
            wf(final(self)@),
            final(self).rng == old(self).rng,
    {
        match &self.phase {
            Phase::AwaitingChallenge { action, responder_index } => {
                let action = *action;
                proof {
                    crate::game::lemma_living_others_bound(self@.players, action.actor as int, self@.players.len());
                }
                let next = *responder_index + 1;
                if next < self.challenge_responders(action).len() {
                    self.phase = Phase::AwaitingChallenge { action, responder_index: next };
                } else if self.block_responders(action).len() == 0 {
                    self.execute_action_now(action);
                } else {
                    self.phase = Phase::AwaitingBlock { action, responder_index: 0 };
                }
            },
            Phase::AwaitingBlockChallenge { action, blocker, block_card, responder_index } => {
                let action = *action;
                let blocker = *blocker;
                let block_card = *block_card;
                proof {
                    crate::game::lemma_living_others_bound(self@.players, blocker as int, self@.players.len());
                }
                let next = *responder_index + 1;
                if next < self.block_challenge_responders(blocker).len() {
                    self.phase = Phase::AwaitingBlockChallenge { action, blocker, block_card, responder_index: next };
                } else {
                    self.end_turn();
                }
            },
            _ => {
                return Err(GameError::InvalidMove);
            },
        }
        self.skip_empty_response_windows();
        Ok(())
    }

    /// A block by `blocker` claiming `claim`; its challenge window opens.
    fn start_block_challenge(&mut self, blocker: PlayerId, claim: Card) -> (r: Result<(), GameError>)
        requires
            wf(old(self)@),
            blocker < old(self).players.len(),
        ensures
            outcome(r, old(self)@, final(self)@, start_block_challenge(old(self)@, blocker, claim)),
            wf(final(self)@),
            final(self).rng == old(self).rng,
    {
        let action = match &self.phase {
            Phase::AwaitingBlock { action, .. } => *action,
            _ => {
                return Err(GameError::InvalidMove);
            },
        };
        self.phase = Phase::AwaitingBlockChallenge { action, blocker, block_card: claim, responder_index: 0 };
        self.skip_empty_response_windows();
        Ok(())
    }

    /// Passing on a block.
    fn pass_block(&mut self) -> (r: Result<(), GameError>)
        requires
            wf(old(self)@),
            active_player(old(self)@) is Some,
        ensures
            outcome(r, old(self)@, final(self)@, pass_block(old(self)@)),
            wf(final(self)@),
            final(self).rng == old(self).rng,
    {
        let (action, responder_index) = match &self.phase {
            Phase::AwaitingBlock { action, responder_index } => (*action, *responder_index),
            _ => {
                return Err(GameError::InvalidMove);
            },
        };
        proof {
            crate::game::lemma_living_others_bound(self@.players, action.actor as int, self@.players.len());
        }
        let next = responder_index + 1;
        if next < self.block_responders(action).len() {
            self.phase = Phase::AwaitingBlock { action, responder_index: next };
        } else {
            self.execute_action_now(action);
        }
        self.skip_empty_response_windows();
        Ok(())
    }

    /// `player` turns the card at `card_index` face up.
    fn reveal_influence(&mut self, player: PlayerId, card_index: usize) -> (r: Result<(), GameError>)
        requires
            wf(old(self)@),
            player < old(self).players.len(),
        ensures
            outcome(r, old(self)@, final(self)@, reveal_influence(old(self)@, player, card_index)),
            wf(final(self)@),
            final(self).rng == old(self).rng,
    {
        let next = match &self.phase {
            Phase::AwaitingInfluenceLoss { player: loser, next } => {
                if player != *loser {
                    return Err(GameError::NotPlayersTurn);
                }
                (**next).duplicate()
            },
            _ => {
                return Err(GameError::InvalidMove);
            },
        };
        if card_index >= self.players[player].influence.len() {
            return Err(GameError::InvalidInfluence);
        }
        let card = self.players[player].influence[card_index];
        if card.revealed {
            return Err(GameError::InvalidInfluence);
        }
        let ghost before = self.players@;
        self.players[player].influence.set(card_index, InfluenceCard { card: card.card, revealed: true });
        proof {
            lemma_players_model_update(before, player as int, self.players@[player as int]);
            assert(self.players@ == before.update(player as int, self.players@[player as int]));
        }
        self.phase = next;
        assert(wf(self@)) by {
            reveal_with_fuel(drawn_cards, 2);
            reveal_with_fuel(phase_ok, 2);
            reveal_with_fuel(pending_ok, 2);
            crate::invariants::lemma_pending_ok_same_coins(old(self)@.players, self@.players, self@.phase);
            assert(coins_ok(self@.players)) by {
                assert forall|i: int| 0 <= i < self@.players.len() implies #[trigger] self@.players[i].coins <= 250 by {
                    assert(old(self)@.players[i].coins <= 250);
                }
            }
        }
        Ok(())
    }

    /// `player` keeps `keep` after an exchange and returns the other cards.
    /// Returns the order the deck was shuffled into.
    fn exchange_return(&mut self, player: PlayerId, keep: Vec<Card>) -> (r: Result<Ghost<Seq<Card>>, GameError>)
        requires
            wf(old(self)@),
            player < old(self).players.len(),
        ensures
            match r {
                Ok(shuffled) => shuffle_ok(old(self)@, player, MoveModel::ExchangeReturn { keep: keep@ }, shuffled@)
                    && exchange_return(old(self)@, player, keep@, shuffled@) == Ok::<GameModel, GameError>(final(self)@)
                    && wf(final(self)@),
                Err(e) => final(self)@ == old(self)@ && forall|sh: Seq<Card>|
                    exchange_return(old(self)@, player, keep@, sh) == Err::<GameModel, GameError>(e),
            },
            r is Ok <==> final(self).rng != old(self).rng,
    {
        let ghost g = self@;
        let (actor, drawn) = match &self.phase {
            Phase::AwaitingExchangeReturn { player: actor, drawn } => (*actor, crate::state::copy_cards(drawn)),
            _ => {
                return Err(GameError::InvalidMove);
            },
        };
        if actor != player {
            return Err(GameError::NotPlayersTurn);
        }
        let keep_count = self.players[player].hidden_count();
        if keep.len() != keep_count {
            return Err(GameError::InvalidExchangeReturn);
        }
        let mut available = self.hidden_cards(player);
        let mut j: usize = 0;
        let ghost hidden = available@;
        while j < drawn.len()
            invariant
                0 <= j <= drawn.len(),
                available@ == hidden + drawn@.take(j as int),
            decreases drawn.len() - j,
        {
            available.push(drawn[j]);
            assert(hidden + drawn@.take(j + 1) =~= (hidden + drawn@.take(j as int)).push(drawn@[j as int]));
            j = j + 1;
        }
        assert(drawn@.take(j as int) =~= drawn@);
        let ghost pool = available@;
        assert(pool == exchange_pool(g, player, drawn@));
        let mut k: usize = 0;
        assert(keep@.skip(0) =~= keep@);
        while k < keep.len()
            invariant
                0 <= k <= keep.len(),
                self@ == g,
                g == old(self)@,
                player < self.players.len(),
                g.phase == (PhaseModel::AwaitingExchangeReturn { player: actor, drawn: drawn@ }),
                actor == player,
                keep@.len() == g.players[player as int].hidden_count(),
                pool == exchange_pool(g, player, drawn@),
                remove_all(pool, keep@) == remove_all(available@, keep@.skip(k as int)),
            decreases keep.len() - k,
        {
            let ghost before = available@;
            let removed = crate::cards::remove_one(&mut available, keep[k]);
            proof {
                assert(keep@.skip(k as int)[0] == keep@[k as int]);
                assert(keep@.skip(k as int).drop_first() =~= keep@.skip(k + 1));
            }
            if removed.is_none() {
                assert(remove_all(before, keep@.skip(k as int)) is None);
                return Err(GameError::InvalidExchangeReturn);
            }
            k = k + 1;
        }
        assert(keep@.skip(k as int) =~= Seq::<Card>::empty());
        let ghost left = available@;
        assert(remove_all(pool, keep@) == Some(left));
        proof {
            lemma_remove_all(pool, keep@);
            crate::rules::lemma_hidden_count_is_len(g.players[player as int].influence);
        }

        let ghost infl = g.players[player as int].influence;
        let mut influence: Vec<InfluenceCard> = Vec::new();
        let mut i: usize = 0;
        let mut used: usize = 0;
        assert(infl.skip(0) =~= infl);
        assert(keep@.skip(0) =~= keep@);
        assert(influence@ + assign_hidden(infl, keep@) =~= assign_hidden(infl, keep@));
        while i < self.players[player].influence.len()
            invariant
                player < self.players.len(),
                self@ == g,
                self.players@[player as int].influence@ == infl,
                0 <= i <= infl.len(),
                0 <= used <= keep@.len(),
                influence@ + assign_hidden(infl.skip(i as int), keep@.skip(used as int)) == assign_hidden(infl, keep@),
            decreases infl.len() - i,
        {
            let card = self.players[player].influence[i];
            let ghost rest = infl.skip(i as int);
            proof {
                assert(rest[0] == card);
                assert(rest.drop_first() =~= infl.skip(i + 1));
            }
            if !card.revealed && used < keep.len() {
                proof {
                    assert(keep@.skip(used as int)[0] == keep@[used as int]);
                    assert(keep@.skip(used as int).drop_first() =~= keep@.skip(used + 1));
                }
                influence.push(InfluenceCard { card: keep[used], revealed: false });
                used = used + 1;
            } else {
                proof {
                    if !card.revealed {
                        assert(keep@.skip(used as int) =~= Seq::<Card>::empty());
                        lemma_assign_hidden_empty(rest);
                        lemma_assign_hidden_empty(rest.drop_first());
                        assert(rest =~= seq![card] + rest.drop_first());
                    }
                }
                influence.push(card);
            }
            proof {
                assert(influence@ + assign_hidden(infl.skip(i + 1), keep@.skip(used as int)) =~= assign_hidden(infl, keep@));
            }
            i = i + 1;
        }
        assert(infl.skip(i as int) =~= Seq::<InfluenceCard>::empty());
        assert(influence@ =~= assign_hidden(infl, keep@));
        let ghost before = self.players@;
        self.players[player].influence = influence;
        proof {
            lemma_players_model_update(before, player as int, self.players@[player as int]);
            assert(self.players@ == before.update(player as int, self.players@[player as int]));
        }
        self.deck.append(&mut available);
        shuffle_cards(&mut self.deck, &mut self.rng);
        let ghost shuffled = self.deck@;
        assert(wf(self@)) by {
            crate::invariants::lemma_assign_hidden_len(infl, keep@);
            assert(coins_ok(self@.players)) by {
                assert forall|i: int| 0 <= i < self@.players.len() implies #[trigger] self@.players[i].coins <= 250
                    && self@.players[i].influence.len() <= 64 by {
                    assert(g.players[i].coins <= 250 && g.players[i].influence.len() <= 64);
                }
            }
        }
        self.end_turn();
        Ok(Ghost(shuffled))
    }
}

impl GameState {
    /// `player` makes `mv`. Refused with `InvalidPlayer` for an unknown
    /// seat, `GameOver` once the game has ended, and `InvalidMove` for a move
    /// that is not legal (an exchange return is checked by its own rules);
    /// a refused move leaves the game unchanged, and after an accepted one
    /// the game is won or awaits a player who has a legal move. The game's
    /// generator moves on exactly when an accepted move shuffles the deck (a
    /// proven claim, an exchange return); otherwise it is left as it was.
    #[verifier::rlimit(40)]
    pub fn apply_move(&mut self, player: PlayerId, mv: Move) -> (r: Result<(), GameError>)
        requires
            old(self).wf(),
        ensures
            r is Ok ==> exists|sh: Seq<Card>|
                shuffle_ok(old(self)@, player, mv@, sh)
                    && #[trigger] apply(old(self)@, player, mv@, sh) == Ok::<GameModel, GameError>(final(self)@),
            r matches Err(e) ==> final(self)@ == old(self)@ && forall|sh: Seq<Card>|
                #[trigger] apply(old(self)@, player, mv@, sh) == Err::<GameModel, GameError>(e),
            r is Ok ==> crate::laws::never_stalled(final(self)@),
            crate::laws::play_ok(old(self)@) ==> crate::laws::play_ok(final(self)@),
            final(self).wf(),
            r is Ok && shuffle_source(old(self)@, player, mv@) is Some <==> final(self).rng != old(self).rng,
    {
        if player >= self.players.len() {
            return Err(GameError::InvalidPlayer);
        }
        if let Phase::Terminal { .. } = &self.phase {
            return Err(GameError::GameOver);
        }
        let is_exchange = match &mv {
            Move::ExchangeReturn { .. } => true,
            _ => false,
        };
        if !is_exchange {
            let legal = self.legal_moves(player);
            if !contains_move(&legal, &mv) {
                return Err(GameError::InvalidMove);
            }
            proof {
                lemma_legal_move_facts(self@, player, mv@);
            }
        }
        let ghost g = self@;
        let ghost mv_model = mv@;
        let ghost mut shuffled: Seq<Card> = g.deck;
        match mv {
            Move::Income => {
                let coins = self.players[player].coins + 1;
                self.set_player_coins(player, coins);
                assert(coins_ok(self@.players)) by {
                    assert forall|i: int| 0 <= i < self@.players.len() implies #[trigger] self@.players[i].coins <= 250 by {
                        assert(g.players[i].coins <= 250);
                    }
                }
                self.end_turn();
            },
            Move::ForeignAid => {
                self.phase = Phase::AwaitingBlock {
                    action: DeclaredAction { actor: player, kind: ActionKind::ForeignAid },
                    responder_index: 0,
                };
                self.skip_empty_response_windows();
            },
            Move::Tax => self.start_claimed_action(player, ActionKind::Tax),
            Move::Assassinate { target } => {
                let coins = self.players[player].coins - 3;
                self.set_player_coins(player, coins);
                assert(coins_ok(self@.players)) by {
                    assert forall|i: int| 0 <= i < self@.players.len() implies #[trigger] self@.players[i].coins <= 250 by {
                        assert(g.players[i].coins <= 250);
                    }
                }
                self.start_claimed_action(player, ActionKind::Assassinate { target });
            },
            Move::Steal { target } => self.start_claimed_action(player, ActionKind::Steal { target }),
            Move::Exchange => self.start_claimed_action(player, ActionKind::Exchange),
            Move::Coup { target } => {
                let coins = self.players[player].coins - 7;
                self.set_player_coins(player, coins);
                proof {
                    lemma_next_turn_phase(self@.players, self@.phase);
                }
                let next = self.next_turn_phase();
                self.phase = Phase::AwaitingInfluenceLoss { player: target, next: Box::new(next) };
                assert(wf(self@)) by {
                    reveal_with_fuel(phase_ok, 2);
                    reveal_with_fuel(pending_ok, 2);
                    reveal_with_fuel(drawn_cards, 2);
                    assert forall|i: int| 0 <= i < self@.players.len() implies #[trigger] self@.players[i].coins <= 250 by {
                        assert(g.players[i].coins <= 250);
                    }
                }
            },
            Move::Challenge => {
                match self.resolve_challenge(player) {
                    Ok(sh) => {
                        proof {
                            shuffled = sh@;
                        }
                    },
                    Err(e) => {
                        return Err(e);
                    },
                }
            },
            Move::PassChallenge => {
                if let Err(e) = self.pass_challenge() {
                    return Err(e);
                }
            },
            Move::Block { claim } => {
                if let Err(e) = self.start_block_challenge(player, claim) {
                    return Err(e);
                }
            },
            Move::PassBlock => {
                if let Err(e) = self.pass_block() {
                    return Err(e);
                }
            },
            Move::RevealInfluence { card_index } => {
                if let Err(e) = self.reveal_influence(player, card_index) {
                    return Err(e);
                }
            },
            Move::ExchangeReturn { keep } => {
                match self.exchange_return(player, keep) {
                    Ok(sh) => {
                        proof {
                            shuffled = sh@;
                        }
                    },
                    Err(e) => {
                        return Err(e);
                    },
                }
            },
        }
        assert(move_step(g, player, mv_model, shuffled) == Ok::<GameModel, GameError>(self@));
        let ghost stepped = self@;
        self.finish_if_terminal();
        proof {
            crate::laws::law_finished_game_never_stalls(stepped);
            if crate::laws::play_ok(g) {
                crate::laws::law_move_keeps_play_ok(g, player, mv_model, shuffled);
            }
        }
        assert(shuffle_ok(g, player, mv_model, shuffled));
        assert(apply(g, player, mv_model, shuffled) == Ok::<GameModel, GameError>(self@));
        Ok(())
    }
}

} // verus!

//! The interface a driver of the game uses: the current decision-maker,
//! their legal moves, and making a move for them.
use vstd::prelude::*;

use crate::cards::Card;
use crate::rules::{active_player, apply, legal_moves, shuffle_ok, wf, winner};
use crate::setup::observe;
use crate::state::{moves_model, GameError, GameModel, GameState, Move, Observation, PlayerId};

verus! {

/// A game that a driver can play by asking whose decision is awaited.
pub trait CoupGame: Sized {
    /// The model of the game.
    spec fn model(&self) -> GameModel;

    /// The game can be played on.
    spec fn playable(&self) -> bool;

    fn current_player(&self) -> (player: Option<PlayerId>)
        requires
            self.playable(),
        ensures
            player == active_player(self.model()),
    ;

    fn legal_moves(&self) -> (moves: Vec<Move>)
        requires
            self.playable(),
        ensures
            moves_model(moves@) == match active_player(self.model()) {
                Some(p) => legal_moves(self.model(), p),
                None => Seq::empty(),
            },
    ;

    fn apply_current_move(&mut self, mv: Move) -> (r: Result<(), GameError>)
        requires
            old(self).playable(),
        ensures
            final(self).playable(),
            active_player(old(self).model()) is None ==> r == Err::<(), GameError>(GameError::GameOver)
                && final(self).model() == old(self).model(),
            active_player(old(self).model()) matches Some(p) ==> {
                &&& r is Ok ==> exists|sh: Seq<Card>|
                    shuffle_ok(old(self).model(), p, mv@, sh)
                        && #[trigger] apply(old(self).model(), p, mv@, sh) == Ok::<GameModel, GameError>(final(self).model())
                &&& r matches Err(e) ==> final(self).model() == old(self).model() && forall|sh: Seq<Card>|
                    #[trigger] apply(old(self).model(), p, mv@, sh) == Err::<GameModel, GameError>(e)
            },
    ;

    fn is_terminal(&self) -> (over: bool)
        ensures
            over == winner(self.model()) is Some,
    ;

    fn winner(&self) -> (w: Option<PlayerId>)
        ensures
            w == winner(self.model()),
    ;

    fn observation_for(&self, player: PlayerId) -> (r: Result<Observation, GameError>)
        requires
            self.playable(),
        ensures
            r is Err <==> player >= self.model().players.len(),
            r matches Err(e) ==> e == GameError::InvalidPlayer,
            r matches Ok(o) ==> o@ == observe(self.model(), player),
    ;
}

impl CoupGame for GameState {
    open spec fn model(&self) -> GameModel {
        self@
    }

    open spec fn playable(&self) -> bool {
        wf(self@)
    }

    fn current_player(&self) -> (player: Option<PlayerId>) {
        self.active_player()
    }

    fn legal_moves(&self) -> (moves: Vec<Move>) {
        match self.active_player() {
            Some(player) => self.legal_moves(player),
            None => {
                let moves: Vec<Move> = Vec::new();
                assert(moves_model(moves@) =~= Seq::empty());
                moves
            },
        }
    }

    fn apply_current_move(&mut self, mv: Move) -> (r: Result<(), GameError>) {
        let player = match self.active_player() {
            Some(player) => player,
            None => {
                return Err(GameError::GameOver);
            },
        };
        self.apply_move(player, mv)
    }

    fn is_terminal(&self) -> (over: bool) {
        GameState::is_terminal(self)
    }

    fn winner(&self) -> (w: Option<PlayerId>) {
        GameState::winner(self)
    }

    fn observation_for(&self, player: PlayerId) -> (r: Result<Observation, GameError>) {
        GameState::observation_for(self, player)
    }
}

} // verus!

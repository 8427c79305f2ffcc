//! The game's data: players and their influence, declared actions, the
//! phase of play, moves, errors, observations and the full game state,
//! each with its mathematical model.
use rand::rngs::StdRng;
use vstd::prelude::*;

use crate::cards::Card;
use crate::random::copy_rng;

verus! {

/// A seat at the table; players are numbered from 0 in turn order.
pub type PlayerId = usize;

/// One influence card in front of a player, face down until revealed.
#[derive(Debug, Clone, Copy, PartialEq, Eq, Hash, Structural)]
pub struct InfluenceCard {
    pub card: Card,
    pub revealed: bool,
}

/// A player's coins and influence cards.
#[derive(Debug, Clone, PartialEq, Eq)]
pub struct PlayerState {
    pub coins: u8,
    pub influence: Vec<InfluenceCard>,
}

/// The actions that can be answered by a challenge or a block.
#[derive(Debug, Clone, Copy, PartialEq, Eq, Hash, Structural)]
pub enum ActionKind {
    ForeignAid,
    Tax,
    Assassinate { target: PlayerId },
    Steal { target: PlayerId },
    Exchange,
}

/// An action together with the player who declared it.
#[derive(Debug, Clone, Copy, PartialEq, Eq, Hash, Structural)]
pub struct DeclaredAction {
    pub actor: PlayerId,
    pub kind: ActionKind,
}

/// Where the game stands: whose decision is awaited and about what.
#[derive(Debug, PartialEq, Eq, Hash)]
pub enum Phase {
    AwaitingAction { actor: PlayerId },
    AwaitingChallenge { action: DeclaredAction, responder_index: usize },
    AwaitingBlock { action: DeclaredAction, responder_index: usize },
    AwaitingBlockChallenge {
        action: DeclaredAction,
        blocker: PlayerId,
        block_card: Card,
        responder_index: usize,
    },
    AwaitingInfluenceLoss { player: PlayerId, next: Box<Phase> },
    AwaitingExchangeReturn { player: PlayerId, drawn: Vec<Card> },
    Terminal { winner: PlayerId },
}

impl Phase {
    /// A copy of this phase, with a fresh vector of drawn cards.
    pub fn duplicate(&self) -> (copy: Phase)
        ensures
            copy@ == self@,
        decreases self,
    {
        match self {
            Phase::AwaitingAction { actor } => Phase::AwaitingAction { actor: *actor },
            Phase::AwaitingChallenge { action, responder_index } => Phase::AwaitingChallenge {
                action: *action,
                responder_index: *responder_index,
            },
            Phase::AwaitingBlock { action, responder_index } => Phase::AwaitingBlock {
                action: *action,
                responder_index: *responder_index,
            },
            Phase::AwaitingBlockChallenge { action, blocker, block_card, responder_index } =>
                Phase::AwaitingBlockChallenge {
                action: *action,
                blocker: *blocker,
                block_card: *block_card,
                responder_index: *responder_index,
            },
            Phase::AwaitingInfluenceLoss { player, next } => {
                let inner = (**next).duplicate();
                Phase::AwaitingInfluenceLoss { player: *player, next: Box::new(inner) }
            },
            Phase::AwaitingExchangeReturn { player, drawn } => {
                let copied = copy_cards(drawn);
                Phase::AwaitingExchangeReturn { player: *player, drawn: copied }
            },
            Phase::Terminal { winner } => Phase::Terminal { winner: *winner },
        }
    }
}

impl Clone for Phase {
    fn clone(&self) -> Phase {
        self.duplicate()
    }
}

/// A fresh vector holding the same cards in the same order.
pub fn copy_cards(cards: &Vec<Card>) -> (copy: Vec<Card>)
    ensures
        copy@ == cards@,
{
    let mut copy: Vec<Card> = Vec::with_capacity(cards.len());
    let mut i: usize = 0;
    while i < cards.len()
        invariant
            0 <= i <= cards.len(),
            copy@ == cards@.take(i as int),
        decreases cards.len() - i,
    {
        copy.push(cards[i]);
        assert(copy@ =~= cards@.take(i + 1));
        i = i + 1;
    }
    assert(copy@ =~= cards@);
    copy
}

/// A fresh vector holding the same influence cards in the same order.
pub(crate) fn copy_influence(cards: &Vec<InfluenceCard>) -> (copy: Vec<InfluenceCard>)
    ensures
        copy@ == cards@,
{
    let mut copy: Vec<InfluenceCard> = Vec::with_capacity(cards.len());
    let mut i: usize = 0;
    while i < cards.len()
        invariant
            0 <= i <= cards.len(),
            copy@ == cards@.take(i as int),
        decreases cards.len() - i,
    {
        copy.push(cards[i]);
        assert(copy@ =~= cards@.take(i + 1));
        i = i + 1;
    }
    assert(copy@ =~= cards@);
    copy
}

/// A fresh copy of every player, in seat order.
fn copy_players(players: &Vec<PlayerState>) -> (copy: Vec<PlayerState>)
    ensures
        players_model(copy@) == players_model(players@),
{
    let mut copy: Vec<PlayerState> = Vec::with_capacity(players.len());
    let mut i: usize = 0;
    while i < players.len()
        invariant
            0 <= i <= players.len(),
            players_model(copy@) == players_model(players@).take(i as int),
        decreases players.len() - i,
    {
        let player = PlayerState { coins: players[i].coins, influence: copy_influence(&players[i].influence) };
        let ghost before = copy@;
        copy.push(player);
        proof {
            assert(players_model(copy@) =~= players_model(before).push(player@));
            assert(players_model(players@).take(i + 1) =~= players_model(players@).take(i as int).push(players@[i as int]@));
        }
        i = i + 1;
    }
    assert(players_model(players@).take(players@.len() as int) =~= players_model(players@));
    copy
}

/// A decision a player can make at some phase of the game.
#[derive(Debug, Clone, PartialEq, Eq, Hash)]
pub enum Move {
    Income,
    ForeignAid,
    Tax,
    Assassinate { target: PlayerId },
    Steal { target: PlayerId },
    Exchange,
    Coup { target: PlayerId },
    Challenge,
    PassChallenge,
    Block { claim: Card },
    PassBlock,
    RevealInfluence { card_index: usize },
    ExchangeReturn { keep: Vec<Card> },
}

/// Why a request was refused.
#[derive(Debug, Clone, Copy, PartialEq, Eq, Structural)]
pub enum GameError {
    InvalidPlayer,
    InvalidPlayerCount,
    InvalidMove,
    NotPlayersTurn,
    NotEnoughCoins,
    InvalidTarget,
    InvalidInfluence,
    InvalidExchangeReturn,
    GameOver,
}

/// What everybody can see of one player.
#[derive(Debug, Clone, PartialEq, Eq, Hash)]
pub struct ObservedPlayer {
    pub coins: u8,
    pub hidden_influence: usize,
    pub revealed: Vec<Card>,
    pub alive: bool,
}

/// Everything one player (the viewer) can see of the game. The phase is
/// shown as the viewer sees it: cards another player has drawn for an
/// exchange are left out, and only their number is given.
#[derive(Debug, Clone, PartialEq, Eq, Hash)]
pub struct Observation {
    pub viewer: PlayerId,
    pub players: Vec<ObservedPlayer>,
    pub own_hidden_cards: Vec<Card>,
    pub deck_size: usize,
    pub hidden_drawn: usize,
    pub current_player: Option<PlayerId>,
    pub phase: Phase,
}

/// The full state of a game, hidden cards and deck included, with the
/// generator that shuffles the deck.
#[derive(Debug)]
pub struct GameState {
    pub players: Vec<PlayerState>,
    pub deck: Vec<Card>,
    pub phase: Phase,
    pub rng: StdRng,
}

impl Clone for GameState {
    /// A copy of the game: the same players, deck and phase, and a generator
    /// in the same state.
    fn clone(&self) -> (copy: GameState)
        ensures
            copy@ == self@,
            copy.rng == self.rng,
    {
        GameState {
            players: copy_players(&self.players),
            deck: copy_cards(&self.deck),
            phase: self.phase.duplicate(),
            rng: copy_rng(&self.rng),
        }
    }
}

// ---------------------------------------------------------------------------
// Models

/// The model of a player: coins and the influence cards in seat order.
pub struct PlayerModel {
    pub coins: u8,
    pub influence: Seq<InfluenceCard>,
}

/// The model of a phase, with the drawn cards of an exchange as a sequence.
pub enum PhaseModel {
    AwaitingAction { actor: PlayerId },
    AwaitingChallenge { action: DeclaredAction, responder_index: usize },
    AwaitingBlock { action: DeclaredAction, responder_index: usize },
    AwaitingBlockChallenge {
        action: DeclaredAction,
        blocker: PlayerId,
        block_card: Card,
        responder_index: usize,
    },
    AwaitingInfluenceLoss { player: PlayerId, next: Box<PhaseModel> },
    AwaitingExchangeReturn { player: PlayerId, drawn: Seq<Card> },
    Terminal { winner: PlayerId },
}

/// The model of a move, with the kept cards of an exchange as a sequence.
pub enum MoveModel {
    Income,
    ForeignAid,
    Tax,
    Assassinate { target: PlayerId },
    Steal { target: PlayerId },
    Exchange,
    Coup { target: PlayerId },
    Challenge,
    PassChallenge,
    Block { claim: Card },
    PassBlock,
    RevealInfluence { card_index: usize },
    ExchangeReturn { keep: Seq<Card> },
}

/// The model of a game: players, deck (its top is the last card) and phase.
pub struct GameModel {
    pub players: Seq<PlayerModel>,
    pub deck: Seq<Card>,
    pub phase: PhaseModel,
}

/// The model of what is seen of one player.
pub struct ObservedPlayerModel {
    pub coins: u8,
    pub hidden_influence: usize,
    pub revealed: Seq<Card>,
    pub alive: bool,
}

/// The model of an observation.
pub struct ObservationModel {
    pub viewer: PlayerId,
    pub players: Seq<ObservedPlayerModel>,
    pub own_hidden_cards: Seq<Card>,
    pub deck_size: usize,
    pub hidden_drawn: usize,
    pub current_player: Option<PlayerId>,
    pub phase: PhaseModel,
}

pub open spec fn phase_model(phase: Phase) -> PhaseModel
    decreases phase,
{
    match phase {
        Phase::AwaitingAction { actor } => PhaseModel::AwaitingAction { actor },
        Phase::AwaitingChallenge { action, responder_index } => PhaseModel::AwaitingChallenge {
            action,
            responder_index,
        },
        Phase::AwaitingBlock { action, responder_index } => PhaseModel::AwaitingBlock {
            action,
            responder_index,
        },
        Phase::AwaitingBlockChallenge { action, blocker, block_card, responder_index } =>
            PhaseModel::AwaitingBlockChallenge { action, blocker, block_card, responder_index },
        Phase::AwaitingInfluenceLoss { player, next } => PhaseModel::AwaitingInfluenceLoss {
            player,
            next: Box::new(phase_model(*next)),
        },
        Phase::AwaitingExchangeReturn { player, drawn } => PhaseModel::AwaitingExchangeReturn {
            player,
            drawn: drawn@,
        },
        Phase::Terminal { winner } => PhaseModel::Terminal { winner },
    }
}

impl View for PlayerState {
    type V = PlayerModel;

    open spec fn view(&self) -> PlayerModel {
        PlayerModel { coins: self.coins, influence: self.influence@ }
    }
}

impl View for Phase {
    type V = PhaseModel;

    open spec fn view(&self) -> PhaseModel {
        phase_model(*self)
    }
}

impl View for Move {
    type V = MoveModel;

    open spec fn view(&self) -> MoveModel {
        match *self {
            Move::Income => MoveModel::Income,
            Move::ForeignAid => MoveModel::ForeignAid,
            Move::Tax => MoveModel::Tax,
            Move::Assassinate { target } => MoveModel::Assassinate { target },
            Move::Steal { target } => MoveModel::Steal { target },
            Move::Exchange => MoveModel::Exchange,
            Move::Coup { target } => MoveModel::Coup { target },
            Move::Challenge => MoveModel::Challenge,
            Move::PassChallenge => MoveModel::PassChallenge,
            Move::Block { claim } => MoveModel::Block { claim },
            Move::PassBlock => MoveModel::PassBlock,
            Move::RevealInfluence { card_index } => MoveModel::RevealInfluence { card_index },
            Move::ExchangeReturn { keep } => MoveModel::ExchangeReturn { keep: keep@ },
        }
    }
}

pub open spec fn players_model(players: Seq<PlayerState>) -> Seq<PlayerModel> {
    players.map_values(|p: PlayerState| p@)
}

pub open spec fn moves_model(moves: Seq<Move>) -> Seq<MoveModel> {
    moves.map_values(|m: Move| m@)
}

impl View for GameState {
    type V = GameModel;

    open spec fn view(&self) -> GameModel {
        GameModel { players: players_model(self.players@), deck: self.deck@, phase: self.phase@ }
    }
}

impl View for ObservedPlayer {
    type V = ObservedPlayerModel;

    open spec fn view(&self) -> ObservedPlayerModel {
        ObservedPlayerModel {
            coins: self.coins,
            hidden_influence: self.hidden_influence,
            revealed: self.revealed@,
            alive: self.alive,
        }
    }
}

impl View for Observation {
    type V = ObservationModel;

    open spec fn view(&self) -> ObservationModel {
        ObservationModel {
            viewer: self.viewer,
            players: self.players@.map_values(|p: ObservedPlayer| p@),
            own_hidden_cards: self.own_hidden_cards@,
            deck_size: self.deck_size,
            hidden_drawn: self.hidden_drawn,
            current_player: self.current_player,
            phase: self.phase@,
        }
    }
}

} // verus!

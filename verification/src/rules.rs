//! The rules of Coup as functions on the game model: who may act, which
//! moves are legal, and what each move does to the table.
use vstd::multiset::Multiset;
use vstd::prelude::*;

use crate::game::lemma_living_others_bound;
use crate::cards::{card_rank, spec_standard_deck, Card};
use crate::state::{
    ActionKind, DeclaredAction, GameError, GameModel, InfluenceCard, MoveModel, PhaseModel,
    PlayerModel,
};

verus! {

// ---------------------------------------------------------------------------
// Influence

/// How many of these influence cards are still face down.
pub open spec fn hidden_count_of(s: Seq<InfluenceCard>) -> nat
    decreases s.len(),
{
    if s.len() == 0 {
        0
    } else {
        hidden_count_of(s.drop_last()) + if s.last().revealed { 0nat } else { 1nat }
    }
}

/// The face-down cards, in seat order.
pub open spec fn hidden_cards_of(s: Seq<InfluenceCard>) -> Seq<Card>
    decreases s.len(),
{
    if s.len() == 0 {
        seq![]
    } else if s.last().revealed {
        hidden_cards_of(s.drop_last())
    } else {
        hidden_cards_of(s.drop_last()).push(s.last().card)
    }
}

/// The face-up cards, in seat order.
pub open spec fn revealed_cards_of(s: Seq<InfluenceCard>) -> Seq<Card>
    decreases s.len(),
{
    if s.len() == 0 {
        seq![]
    } else if s.last().revealed {
        revealed_cards_of(s.drop_last()).push(s.last().card)
    } else {
        revealed_cards_of(s.drop_last())
    }
}

/// Every card of these influence cards, face up or down.
pub open spec fn influence_cards_of(s: Seq<InfluenceCard>) -> Seq<Card> {
    s.map_values(|c: InfluenceCard| c.card)
}

impl PlayerModel {
    pub open spec fn hidden_count(self) -> nat {
        hidden_count_of(self.influence)
    }

    /// A player is alive while some influence card is face down.
    pub open spec fn alive(self) -> bool {
        self.hidden_count() > 0
    }

    pub open spec fn has_hidden(self, card: Card) -> bool {
        exists|i: int|
            0 <= i < self.influence.len() && !self.influence[i].revealed
                && self.influence[i].card == card
    }
}

pub proof fn lemma_hidden_count_is_len(s: Seq<InfluenceCard>)
    ensures
        hidden_count_of(s) == hidden_cards_of(s).len(),
        hidden_count_of(s) <= s.len(),
        hidden_cards_of(s).len() + revealed_cards_of(s).len() == s.len(),
    decreases s.len(),
{
    if s.len() > 0 {
        lemma_hidden_count_is_len(s.drop_last());
    }
}

pub proof fn lemma_hidden_count_positive(s: Seq<InfluenceCard>)
    ensures
        hidden_count_of(s) > 0 <==> exists|i: int| 0 <= i < s.len() && !s[i].revealed,
    decreases s.len(),
{
    if s.len() > 0 {
        lemma_hidden_count_positive(s.drop_last());
        if hidden_count_of(s.drop_last()) > 0 {
            let i = choose|i: int| 0 <= i < s.drop_last().len() && !s.drop_last()[i].revealed;
            assert(!s[i].revealed);
        }
        if exists|i: int| 0 <= i < s.len() && !s[i].revealed {
            let i = choose|i: int| 0 <= i < s.len() && !s[i].revealed;
            if i < s.len() - 1 {
                assert(!s.drop_last()[i].revealed);
            }
        }
    }
}

// ---------------------------------------------------------------------------
// Seats

/// The living players other than `except` among the first `n` seats, in seat order.
pub open spec fn living_others(players: Seq<PlayerModel>, except: int, n: nat) -> Seq<usize>
    decreases n,
{
    if n == 0 {
        seq![]
    } else if n - 1 != except && players[n - 1].alive() {
        living_others(players, except, (n - 1) as nat).push((n - 1) as usize)
    } else {
        living_others(players, except, (n - 1) as nat)
    }
}

/// All living players, in seat order.
pub open spec fn living(players: Seq<PlayerModel>) -> Seq<usize> {
    living_others(players, -1, players.len())
}

/// The smallest offset in `1..=k` at which, going round the table from
/// `start`, a living player sits.
pub open spec fn first_living_offset(players: Seq<PlayerModel>, start: int, k: nat) -> Option<nat>
    decreases k,
{
    if k == 0 {
        None
    } else {
        match first_living_offset(players, start, (k - 1) as nat) {
            Some(offset) => Some(offset),
            None => if players[(start + k) % (players.len() as int)].alive() {
                Some(k)
            } else {
                None
            },
        }
    }
}

/// The next living player after `start` in turn order (possibly `start` itself).
pub open spec fn next_living_after(players: Seq<PlayerModel>, start: int) -> Option<usize> {
    match first_living_offset(players, start, players.len()) {
        Some(offset) => Some(((start + offset) % (players.len() as int)) as usize),
        None => None,
    }
}

/// The winner by elimination: the one living player, if exactly one lives.
pub open spec fn only_living_player(players: Seq<PlayerModel>) -> Option<usize> {
    if living(players).len() == 1 {
        Some(living(players)[0])
    } else {
        None
    }
}

/// The first living seat, or seat 0 when nobody lives.
pub open spec fn first_living_or_zero(players: Seq<PlayerModel>) -> usize {
    if living(players).len() > 0 {
        living(players)[0]
    } else {
        0
    }
}

// ---------------------------------------------------------------------------
// Actions and responders

/// The character an action claims, if any.
pub open spec fn spec_claim(kind: ActionKind) -> Option<Card> {
    match kind {
        ActionKind::ForeignAid => None,
        ActionKind::Tax => Some(Card::Duke),
        ActionKind::Assassinate { .. } => Some(Card::Assassin),
        ActionKind::Steal { .. } => Some(Card::Captain),
        ActionKind::Exchange => Some(Card::Ambassador),
    }
}

/// The player an action is aimed at, if any.
pub open spec fn spec_target(kind: ActionKind) -> Option<usize> {
    match kind {
        ActionKind::Assassinate { target } => Some(target),
        ActionKind::Steal { target } => Some(target),
        _ => None,
    }
}

/// Who may challenge a claimed action: every other living player.
pub open spec fn challenge_responders(players: Seq<PlayerModel>, action: DeclaredAction) -> Seq<usize> {
    living_others(players, action.actor as int, players.len())
}

/// Who may block an action.
pub open spec fn block_responders(players: Seq<PlayerModel>, action: DeclaredAction) -> Seq<usize> {
    match action.kind {
        ActionKind::ForeignAid => living_others(players, action.actor as int, players.len()),
        ActionKind::Assassinate { target } => if players[target as int].alive() {
            seq![target]
        } else {
            seq![]
        },
        ActionKind::Steal { target } => if players[target as int].alive() {
            seq![target]
        } else {
            seq![]
        },
        _ => seq![],
    }
}

/// Who may challenge a block: every living player but the blocker.
pub open spec fn block_challenge_responders(players: Seq<PlayerModel>, blocker: usize) -> Seq<usize> {
    living_others(players, blocker as int, players.len())
}

pub open spec fn seq_get(s: Seq<usize>, i: usize) -> Option<usize> {
    if i < s.len() {
        Some(s[i as int])
    } else {
        None
    }
}

/// The player whose decision is awaited.
pub open spec fn active_player(g: GameModel) -> Option<usize> {
    match g.phase {
        PhaseModel::AwaitingAction { actor } => Some(actor),
        PhaseModel::AwaitingChallenge { action, responder_index } => seq_get(
            challenge_responders(g.players, action),
            responder_index,
        ),
        PhaseModel::AwaitingBlock { action, responder_index } => seq_get(
            block_responders(g.players, action),
            responder_index,
        ),
        PhaseModel::AwaitingBlockChallenge { blocker, responder_index, .. } => seq_get(
            block_challenge_responders(g.players, blocker),
            responder_index,
        ),
        PhaseModel::AwaitingInfluenceLoss { player, .. } => Some(player),
        PhaseModel::AwaitingExchangeReturn { player, .. } => Some(player),
        PhaseModel::Terminal { .. } => None,
    }
}

/// The winner: the one named by a finished game, or else the last player alive.
pub open spec fn winner(g: GameModel) -> Option<usize> {
    match g.phase {
        PhaseModel::Terminal { winner } => Some(winner),
        _ => only_living_player(g.players),
    }
}

// ---------------------------------------------------------------------------
// Legal moves

pub open spec fn coup_moves(targets: Seq<usize>) -> Seq<MoveModel> {
    targets.map_values(|t: usize| MoveModel::Coup { target: t })
}

pub open spec fn assassinate_moves(targets: Seq<usize>) -> Seq<MoveModel> {
    targets.map_values(|t: usize| MoveModel::Assassinate { target: t })
}

pub open spec fn steal_moves(targets: Seq<usize>) -> Seq<MoveModel> {
    targets.map_values(|t: usize| MoveModel::Steal { target: t })
}

/// The actions open to `player` on their turn: with ten coins or more only a
/// coup; otherwise income, foreign aid, tax, exchange, assassination (three
/// coins), coup (seven coins) and steal, each aimed at a living opponent.
pub open spec fn legal_actions(players: Seq<PlayerModel>, player: usize) -> Seq<MoveModel> {
    let targets = living_others(players, player as int, players.len());
    if !players[player as int].alive() {
        seq![]
    } else if players[player as int].coins >= 10 {
        coup_moves(targets)
    } else {
        seq![MoveModel::Income, MoveModel::ForeignAid, MoveModel::Tax, MoveModel::Exchange]
            + (if players[player as int].coins >= 3 { assassinate_moves(targets) } else { seq![] })
            + (if players[player as int].coins >= 7 { coup_moves(targets) } else { seq![] })
            + steal_moves(targets)
    }
}

/// Passing, and the blocks that answer an action.
pub open spec fn legal_blocks(action: DeclaredAction) -> Seq<MoveModel> {
    match action.kind {
        ActionKind::ForeignAid => seq![MoveModel::PassBlock, MoveModel::Block { claim: Card::Duke }],
        ActionKind::Assassinate { .. } => seq![
            MoveModel::PassBlock,
            MoveModel::Block { claim: Card::Contessa },
        ],
        ActionKind::Steal { .. } => seq![
            MoveModel::PassBlock,
            MoveModel::Block { claim: Card::Captain },
            MoveModel::Block { claim: Card::Ambassador },
        ],
        _ => seq![MoveModel::PassBlock],
    }
}

/// Revealing any one face-down card, in seat order.
pub open spec fn reveal_moves(s: Seq<InfluenceCard>) -> Seq<MoveModel>
    decreases s.len(),
{
    if s.len() == 0 {
        seq![]
    } else if s.last().revealed {
        reveal_moves(s.drop_last())
    } else {
        reveal_moves(s.drop_last()).push(MoveModel::RevealInfluence { card_index: (s.len() - 1) as usize })
    }
}

/// Places `card` in the rank-sorted `sorted`, before the first card of
/// higher rank.
pub open spec fn insert_sorted(sorted: Seq<Card>, card: Card) -> Seq<Card>
    decreases sorted.len(),
{
    if sorted.len() == 0 {
        seq![card]
    } else if card_rank(card) < card_rank(sorted[0]) {
        seq![card] + sorted
    } else {
        seq![sorted[0]] + insert_sorted(sorted.drop_first(), card)
    }
}

/// The cards sorted by rank.
pub open spec fn sort_cards(s: Seq<Card>) -> Seq<Card>
    decreases s.len(),
{
    if s.len() == 0 {
        seq![]
    } else {
        insert_sorted(sort_cards(s.drop_last()), s.last())
    }
}

/// The increasing `k`-tuples of positions in `start..n`, in lexicographic order.
pub open spec fn position_choices(n: nat, k: nat, start: nat) -> Seq<Seq<nat>>
    decreases k, n - start, 1nat,
    when start <= n
{
    if k == 0 {
        seq![seq![]]
    } else {
        choices_from(n, k, start)
    }
}

/// The increasing `k`-tuples of positions in `i..n` (`k` at least one), in
/// lexicographic order: those that start at `i`, then those that start later.
pub open spec fn choices_from(n: nat, k: nat, i: nat) -> Seq<Seq<nat>>
    decreases k, n - i, 0nat,
    when i <= n
{
    if k == 0 || i >= n {
        seq![]
    } else {
        position_choices(n, (k - 1) as nat, i + 1).map_values(|t: Seq<nat>| seq![i] + t) + choices_from(n, k, i + 1)
    }
}

/// The cards at the positions `t`, in that order.
pub open spec fn cards_at(cards: Seq<Card>, t: Seq<nat>) -> Seq<Card> {
    t.map_values(|i: nat| cards[i as int])
}

/// Each hand once, where it first occurs.
pub open spec fn first_occurrences(hands: Seq<Seq<Card>>) -> Seq<Seq<Card>>
    decreases hands.len(),
{
    if hands.len() == 0 {
        seq![]
    } else {
        let r = first_occurrences(hands.drop_last());
        if r.contains(hands.last()) {
            r
        } else {
            r.push(hands.last())
        }
    }
}

/// The distinct hands of `k` cards that can be kept from `cards`: each
/// choice of `k` positions, in lexicographic order, gives its cards sorted
/// by rank, and each hand is listed once, where it first occurs.
pub open spec fn spec_combinations(cards: Seq<Card>, k: nat) -> Seq<Seq<Card>> {
    first_occurrences(position_choices(cards.len(), k, 0).map_values(|t: Seq<nat>| sort_cards(cards_at(cards, t))))
}

pub open spec fn exchange_moves(hands: Seq<Seq<Card>>) -> Seq<MoveModel> {
    hands.map_values(|keep: Seq<Card>| MoveModel::ExchangeReturn { keep })
}

/// The legal moves of `player`: none unless it is their decision.
pub open spec fn legal_moves(g: GameModel, player: usize) -> Seq<MoveModel> {
    if player >= g.players.len() || active_player(g) != Some(player) {
        seq![]
    } else {
        match g.phase {
            PhaseModel::AwaitingAction { actor } => if actor == player {
                legal_actions(g.players, player)
            } else {
                seq![]
            },
            PhaseModel::AwaitingChallenge { .. } => seq![MoveModel::Challenge, MoveModel::PassChallenge],
            PhaseModel::AwaitingBlock { action, .. } => legal_blocks(action),
            PhaseModel::AwaitingBlockChallenge { .. } => seq![MoveModel::Challenge, MoveModel::PassChallenge],
            PhaseModel::AwaitingInfluenceLoss { player: loser, .. } => if loser == player {
                reveal_moves(g.players[player as int].influence)
            } else {
                seq![]
            },
            PhaseModel::AwaitingExchangeReturn { player: exchanger, drawn } => if exchanger == player {
                exchange_moves(
                    spec_combinations(
                        hidden_cards_of(g.players[player as int].influence) + drawn,
                        g.players[player as int].hidden_count(),
                    ),
                )
            } else {
                seq![]
            },
            PhaseModel::Terminal { .. } => seq![],
        }
    }
}

// ---------------------------------------------------------------------------
// Transitions

pub open spec fn with_phase(g: GameModel, phase: PhaseModel) -> GameModel {
    GameModel { players: g.players, deck: g.deck, phase }
}

pub open spec fn set_coins(players: Seq<PlayerModel>, player: int, coins: int) -> Seq<PlayerModel> {
    if 0 <= player < players.len() {
        players.update(player, PlayerModel { coins: coins as u8, influence: players[player].influence })
    } else {
        players
    }
}

pub proof fn lemma_action_effects_len(players: Seq<PlayerModel>, action: DeclaredAction)
    ensures
        action_effects(players, action).len() == players.len(),
        forall|i: int| 0 <= i < players.len() ==> (#[trigger] action_effects(players, action)[i]).influence == players[i].influence,
{
}

/// Whether an action pays its actor once it resolves.
pub open spec fn gains_coins(kind: ActionKind) -> bool {
    kind is ForeignAid || kind is Tax || kind is Steal
}

/// What a resolved action does to coins: foreign aid pays two, tax three,
/// and a steal moves up to two coins from the target to the actor.
pub open spec fn action_effects(players: Seq<PlayerModel>, action: DeclaredAction) -> Seq<PlayerModel> {
    let actor = action.actor as int;
    match action.kind {
        ActionKind::ForeignAid => set_coins(players, actor, players[actor].coins + 2),
        ActionKind::Tax => set_coins(players, actor, players[actor].coins + 3),
        ActionKind::Steal { target } => {
            let t = target as int;
            let stolen = if players[t].coins < 2 { players[t].coins as int } else { 2 };
            let robbed = set_coins(players, t, players[t].coins - stolen);
            set_coins(robbed, actor, robbed[actor].coins + stolen)
        },
        _ => players,
    }
}

/// The phase that opens the next turn: the next living player after the
/// one whose turn it is acts, or the game ends when nobody lives.
pub open spec fn next_turn_phase(players: Seq<PlayerModel>, phase: PhaseModel) -> PhaseModel {
    let start: int = match phase {
        PhaseModel::AwaitingAction { actor } => actor as int,
        PhaseModel::AwaitingChallenge { action, .. } => action.actor as int,
        PhaseModel::AwaitingBlock { action, .. } => action.actor as int,
        PhaseModel::AwaitingBlockChallenge { action, .. } => action.actor as int,
        PhaseModel::AwaitingExchangeReturn { player, .. } => player as int,
        _ => first_living_or_zero(players) as int,
    };
    match phase {
        PhaseModel::Terminal { winner } => PhaseModel::Terminal { winner },
        _ => match next_living_after(players, start) {
            Some(next) => PhaseModel::AwaitingAction { actor: next },
            None => PhaseModel::Terminal { winner: start as usize },
        },
    }
}

/// What follows a resolved action: the target of an assassination loses an
/// influence, an exchanger draws, anything else ends the turn.
pub open spec fn followup_phase(players: Seq<PlayerModel>, phase: PhaseModel, action: DeclaredAction) -> PhaseModel {
    match action.kind {
        ActionKind::Assassinate { target } => PhaseModel::AwaitingInfluenceLoss {
            player: target,
            next: Box::new(next_turn_phase(players, phase)),
        },
        ActionKind::Exchange => PhaseModel::AwaitingExchangeReturn { player: action.actor, drawn: seq![] },
        _ => next_turn_phase(players, phase),
    }
}

/// Resolves an action now: its effects, then its follow-up phase.
pub open spec fn execute_action(g: GameModel, action: DeclaredAction) -> GameModel {
    let players = action_effects(g.players, action);
    GameModel { players, deck: g.deck, phase: followup_phase(players, g.phase, action) }
}

/// An exchanger draws the top two cards of the deck.
pub open spec fn draw_two(g: GameModel, player: usize) -> GameModel {
    let n = g.deck.len() as int;
    GameModel {
        players: g.players,
        deck: g.deck.subrange(0, n - 2),
        phase: PhaseModel::AwaitingExchangeReturn { player, drawn: seq![g.deck[n - 1], g.deck[n - 2]] },
    }
}

/// How many closing steps a phase can still take before it awaits a
/// decision: an open window may close, a dead player's turn or loss passes
/// on, and an exchanger draws.
pub open spec fn phase_rank(players: Seq<PlayerModel>, phase: PhaseModel) -> nat
    decreases phase,
{
    match phase {
        PhaseModel::AwaitingChallenge { .. } => 5,
        PhaseModel::AwaitingBlock { .. } => 4,
        PhaseModel::AwaitingBlockChallenge { .. } => 3,
        PhaseModel::AwaitingAction { actor } => if players[actor as int].alive() { 0 } else { 2 },
        PhaseModel::AwaitingExchangeReturn { drawn, .. } => if drawn.len() == 0 { 1 } else { 0 },
        PhaseModel::AwaitingInfluenceLoss { player, next } => if players[player as int].alive() {
            0
        } else {
            1 + phase_rank(players, *next)
        },
        PhaseModel::Terminal { .. } => 0,
    }
}

pub open spec fn settle_rank(g: GameModel) -> nat {
    phase_rank(g.players, g.phase)
}

pub proof fn lemma_first_living_offset(players: Seq<PlayerModel>, start: int, k: nat)
    ensures
        first_living_offset(players, start, k) matches Some(o) ==> 1 <= o <= k
            && players[(start + o) % (players.len() as int)].alive(),
        first_living_offset(players, start, k) is None ==> forall|o: nat|
            1 <= o <= k ==> !#[trigger] players[(start + o) % (players.len() as int)].alive(),
    decreases k,
{
    if k > 0 {
        lemma_first_living_offset(players, start, (k - 1) as nat);
    }
}

/// The phase that opens a turn names a living player, or ends the game.
pub proof fn lemma_next_turn_phase(players: Seq<PlayerModel>, phase: PhaseModel)
    requires
        players.len() <= usize::MAX,
    ensures
        next_turn_phase(players, phase) matches PhaseModel::AwaitingAction { actor } ==> actor
            < players.len() && players[actor as int].alive(),
        next_turn_phase(players, phase) is AwaitingAction || next_turn_phase(players, phase) is Terminal,
        players.len() > 0 && phase_ok(players.len(), phase) ==> phase_ok(players.len(), next_turn_phase(players, phase)),
{
    lemma_living_others_bound(players, -1, players.len());
    let start: int = match phase {
        PhaseModel::AwaitingAction { actor } => actor as int,
        PhaseModel::AwaitingChallenge { action, .. } => action.actor as int,
        PhaseModel::AwaitingBlock { action, .. } => action.actor as int,
        PhaseModel::AwaitingBlockChallenge { action, .. } => action.actor as int,
        PhaseModel::AwaitingExchangeReturn { player, .. } => player as int,
        _ => first_living_or_zero(players) as int,
    };
    lemma_first_living_offset(players, start, players.len());
    if let Some(o) = first_living_offset(players, start, players.len()) {
        let n = players.len() as int;
        assert(n > 0);
        assert(start >= 0);
        let idx = (start + o) % n;
        assert(0 <= idx < n);
        assert(idx as usize as int == idx);
    }
}

/// A resolved action leaves at most one closing step: an exchanger's draw
/// or a dead target's loss of influence.
pub proof fn lemma_followup_rank(players: Seq<PlayerModel>, phase: PhaseModel, action: DeclaredAction)
    requires
        players.len() <= usize::MAX,
    ensures
        phase_rank(players, followup_phase(players, phase, action)) <= 1,
{
    lemma_next_turn_phase(players, phase);
    reveal_with_fuel(phase_rank, 2);
}

/// Runs the steps nobody decides: a response window whose responders are
/// all asked (or that has none) closes, an unblockable action resolves, a
/// block nobody can challenge stands, an exchanger draws, and the turn or
/// the loss of influence of a player out of the game passes on.
pub open spec fn settle(g: GameModel) -> GameModel
    decreases settle_rank(g),
    when g.players.len() <= usize::MAX
{
    match g.phase {
        PhaseModel::AwaitingChallenge { action, responder_index } => if responder_index >= challenge_responders(
            g.players,
            action,
        ).len() {
            if block_responders(g.players, action).len() == 0 {
                proof {
                    lemma_action_effects_len(g.players, action);
                    lemma_followup_rank(action_effects(g.players, action), g.phase, action);
                }
                settle(execute_action(g, action))
            } else {
                settle(with_phase(g, PhaseModel::AwaitingBlock { action, responder_index: 0 }))
            }
        } else {
            g
        },
        PhaseModel::AwaitingBlock { action, responder_index } => if responder_index >= block_responders(
            g.players,
            action,
        ).len() {
            proof {
                lemma_action_effects_len(g.players, action);
                lemma_followup_rank(action_effects(g.players, action), g.phase, action);
            }
            settle(execute_action(g, action))
        } else {
            g
        },
        PhaseModel::AwaitingBlockChallenge { blocker, responder_index, .. } => if responder_index
            >= block_challenge_responders(g.players, blocker).len() {
            proof {
                lemma_next_turn_phase(g.players, g.phase);
            }
            settle(with_phase(g, next_turn_phase(g.players, g.phase)))
        } else {
            g
        },
        PhaseModel::AwaitingExchangeReturn { player, drawn } => if drawn.len() == 0 {
            draw_two(g, player)
        } else {
            g
        },
        PhaseModel::AwaitingAction { actor } => if !g.players[actor as int].alive() {
            proof {
                lemma_next_turn_phase(g.players, g.phase);
            }
            settle(with_phase(g, next_turn_phase(g.players, g.phase)))
        } else {
            g
        },
        PhaseModel::AwaitingInfluenceLoss { player, next } => if !g.players[player as int].alive() {
            settle(with_phase(g, *next))
        } else {
            g
        },
        _ => g,
    }
}

/// The checks closing every move: the last player alive wins, and the
/// steps nobody decides run.
pub open spec fn finish(g: GameModel) -> GameModel {
    let g1 = match only_living_player(g.players) {
        Some(w) => with_phase(g, PhaseModel::Terminal { winner: w }),
        None => g,
    };
    settle(g1)
}

/// The seat of the first face-down copy of `card`.
pub open spec fn first_hidden_index(s: Seq<InfluenceCard>, card: Card) -> int
    decreases s.len(),
{
    if s.len() == 0 {
        0
    } else if !s[0].revealed && s[0].card == card {
        0
    } else {
        1 + first_hidden_index(s.drop_first(), card)
    }
}

/// A proven claim: the claimed card goes into the deck, the deck is
/// shuffled into `shuffled`, and the player draws its top card instead.
pub open spec fn replace_claim(g: GameModel, player: int, claim: Card, shuffled: Seq<Card>) -> GameModel {
    let infl = g.players[player].influence;
    let i = first_hidden_index(infl, claim);
    GameModel {
        players: g.players.update(
            player,
            PlayerModel {
                coins: g.players[player].coins,
                influence: infl.update(i, InfluenceCard { card: shuffled.last(), revealed: false }),
            },
        ),
        deck: shuffled.drop_last(),
        phase: g.phase,
    }
}

/// A challenge: a true claim is proven and the challenger loses an
/// influence; a false one costs the claimant an influence instead.
pub open spec fn resolve_challenge(g: GameModel, challenger: usize, shuffled: Seq<Card>) -> Result<GameModel, GameError> {
    match g.phase {
        PhaseModel::AwaitingChallenge { action, .. } => {
            let claim = spec_claim(action.kind)->Some_0;
            if g.players[action.actor as int].has_hidden(claim) {
                let g1 = replace_claim(g, action.actor as int, claim, shuffled);
                if block_responders(g1.players, action).len() == 0 {
                    let players = action_effects(g1.players, action);
                    Ok(GameModel {
                        players,
                        deck: g1.deck,
                        phase: PhaseModel::AwaitingInfluenceLoss {
                            player: challenger,
                            next: Box::new(followup_phase(players, g1.phase, action)),
                        },
                    })
                } else {
                    Ok(with_phase(g1, PhaseModel::AwaitingInfluenceLoss {
                        player: challenger,
                        next: Box::new(PhaseModel::AwaitingBlock { action, responder_index: 0 }),
                    }))
                }
            } else {
                Ok(with_phase(g, PhaseModel::AwaitingInfluenceLoss {
                    player: action.actor,
                    next: Box::new(next_turn_phase(g.players, g.phase)),
                }))
            }
        },
        PhaseModel::AwaitingBlockChallenge { action, blocker, block_card, .. } => {
            if g.players[blocker as int].has_hidden(block_card) {
                let g1 = replace_claim(g, blocker as int, block_card, shuffled);
                Ok(with_phase(g1, PhaseModel::AwaitingInfluenceLoss {
                    player: challenger,
                    next: Box::new(next_turn_phase(g1.players, g1.phase)),
                }))
            } else {
                let players = action_effects(g.players, action);
                Ok(GameModel {
                    players,
                    deck: g.deck,
                    phase: PhaseModel::AwaitingInfluenceLoss {
                        player: blocker,
                        next: Box::new(followup_phase(players, g.phase, action)),
                    },
                })
            }
        },
        _ => Err(GameError::InvalidMove),
    }
}

/// Passing on a challenge: the next responder is asked, or the window closes.
pub open spec fn pass_challenge(g: GameModel) -> Result<GameModel, GameError> {
    match g.phase {
        PhaseModel::AwaitingChallenge { action, responder_index } => {
            let next = responder_index + 1;
            let g1 = if next < challenge_responders(g.players, action).len() {
                with_phase(g, PhaseModel::AwaitingChallenge { action, responder_index: next as usize })
            } else if block_responders(g.players, action).len() == 0 {
                execute_action(g, action)
            } else {
                with_phase(g, PhaseModel::AwaitingBlock { action, responder_index: 0 })
            };
            Ok(settle(g1))
        },
        PhaseModel::AwaitingBlockChallenge { action, blocker, block_card, responder_index } => {
            let next = responder_index + 1;
            let g1 = if next < block_challenge_responders(g.players, blocker).len() {
                with_phase(g, PhaseModel::AwaitingBlockChallenge {
                    action,
                    blocker,
                    block_card,
                    responder_index: next as usize,
                })
            } else {
                settle(with_phase(g, next_turn_phase(g.players, g.phase)))
            };
            Ok(settle(g1))
        },
        _ => Err(GameError::InvalidMove),
    }
}

/// A block: its claim waits for a challenge.
pub open spec fn start_block_challenge(g: GameModel, blocker: usize, claim: Card) -> Result<GameModel, GameError> {
    match g.phase {
        PhaseModel::AwaitingBlock { action, .. } => Ok(settle(with_phase(g, PhaseModel::AwaitingBlockChallenge {
            action,
            blocker,
            block_card: claim,
            responder_index: 0,
        }))),
        _ => Err(GameError::InvalidMove),
    }
}

/// Passing on a block: the next responder is asked, or the action resolves.
pub open spec fn pass_block(g: GameModel) -> Result<GameModel, GameError> {
    match g.phase {
        PhaseModel::AwaitingBlock { action, responder_index } => {
            let next = responder_index + 1;
            let g1 = if next < block_responders(g.players, action).len() {
                with_phase(g, PhaseModel::AwaitingBlock { action, responder_index: next as usize })
            } else {
                execute_action(g, action)
            };
            Ok(settle(g1))
        },
        _ => Err(GameError::InvalidMove),
    }
}

/// Turning one face-down card face up, then going on to the waiting phase.
pub open spec fn reveal_influence(g: GameModel, player: usize, card_index: usize) -> Result<GameModel, GameError> {
    match g.phase {
        PhaseModel::AwaitingInfluenceLoss { player: loser, next } => {
            let infl = g.players[player as int].influence;
            if player != loser {
                Err(GameError::NotPlayersTurn)
            } else if card_index >= infl.len() || infl[card_index as int].revealed {
                Err(GameError::InvalidInfluence)
            } else {
                Ok(GameModel {
                    players: g.players.update(
                        player as int,
                        PlayerModel {
                            coins: g.players[player as int].coins,
                            influence: infl.update(
                                card_index as int,
                                InfluenceCard { card: infl[card_index as int].card, revealed: true },
                            ),
                        },
                    ),
                    deck: g.deck,
                    phase: *next,
                })
            }
        },
        _ => Err(GameError::InvalidMove),
    }
}

/// Removes one copy of each card of `keep` from `available`, in order; `None`
/// when some card is missing.
pub open spec fn remove_all(available: Seq<Card>, keep: Seq<Card>) -> Option<Seq<Card>>
    decreases keep.len(),
{
    if keep.len() == 0 {
        Some(available)
    } else if available.contains(keep[0]) {
        remove_all(available.remove(crate::cards::first_index(available, keep[0])), keep.drop_first())
    } else {
        None
    }
}

/// The influence with its face-down cards replaced, in seat order, by `keep`.
pub open spec fn assign_hidden(s: Seq<InfluenceCard>, keep: Seq<Card>) -> Seq<InfluenceCard>
    decreases s.len(),
{
    if s.len() == 0 {
        seq![]
    } else if s[0].revealed {
        seq![s[0]] + assign_hidden(s.drop_first(), keep)
    } else if keep.len() == 0 {
        s
    } else {
        seq![InfluenceCard { card: keep[0], revealed: false }] + assign_hidden(s.drop_first(), keep.drop_first())
    }
}

/// The cards an exchanger holds face down together with the drawn ones.
pub open spec fn exchange_pool(g: GameModel, player: usize, drawn: Seq<Card>) -> Seq<Card> {
    hidden_cards_of(g.players[player as int].influence) + drawn
}

/// Returning cards after an exchange: the kept cards replace the face-down
/// ones, the rest go back into the deck, which is shuffled into `shuffled`,
/// and the turn ends.
pub open spec fn exchange_return(g: GameModel, player: usize, keep: Seq<Card>, shuffled: Seq<Card>) -> Result<GameModel, GameError> {
    match g.phase {
        PhaseModel::AwaitingExchangeReturn { player: actor, drawn } => {
            if actor != player {
                Err(GameError::NotPlayersTurn)
            } else if keep.len() != g.players[player as int].hidden_count() {
                Err(GameError::InvalidExchangeReturn)
            } else if remove_all(exchange_pool(g, player, drawn), keep) is None {
                Err(GameError::InvalidExchangeReturn)
            } else {
                let players = g.players.update(
                    player as int,
                    PlayerModel {
                        coins: g.players[player as int].coins,
                        influence: assign_hidden(g.players[player as int].influence, keep),
                    },
                );
                Ok(settle(GameModel { players, deck: shuffled, phase: next_turn_phase(players, g.phase) }))
            }
        },
        _ => Err(GameError::InvalidMove),
    }
}

/// The multiset the deck is shuffled from during a move, if the move shuffles.
pub open spec fn shuffle_source(g: GameModel, player: usize, mv: MoveModel) -> Option<Multiset<Card>> {
    match mv {
        MoveModel::Challenge => match g.phase {
            PhaseModel::AwaitingChallenge { action, .. } => {
                let claim = spec_claim(action.kind)->Some_0;
                if g.players[action.actor as int].has_hidden(claim) {
                    Some(g.deck.push(claim).to_multiset())
                } else {
                    None
                }
            },
            PhaseModel::AwaitingBlockChallenge { blocker, block_card, .. } => {
                if g.players[blocker as int].has_hidden(block_card) {
                    Some(g.deck.push(block_card).to_multiset())
                } else {
                    None
                }
            },
            _ => None,
        },
        MoveModel::ExchangeReturn { keep } => match g.phase {
            PhaseModel::AwaitingExchangeReturn { player: actor, drawn } => match remove_all(
                exchange_pool(g, player, drawn),
                keep,
            ) {
                Some(left) => Some((g.deck + left).to_multiset()),
                None => None,
            },
            _ => None,
        },
        _ => None,
    }
}

/// `shuffled` is an order the deck could be shuffled into during this move.
pub open spec fn shuffle_ok(g: GameModel, player: usize, mv: MoveModel, shuffled: Seq<Card>) -> bool {
    match shuffle_source(g, player, mv) {
        Some(cards) => shuffled.to_multiset() == cards,
        None => true,
    }
}

/// Declaring a claimed action opens its challenge window.
pub open spec fn declare(g: GameModel, actor: usize, kind: ActionKind) -> GameModel {
    settle(with_phase(g, PhaseModel::AwaitingChallenge {
        action: DeclaredAction { actor, kind },
        responder_index: 0,
    }))
}

/// What a move does before the closing checks.
pub open spec fn move_step(g: GameModel, player: usize, mv: MoveModel, shuffled: Seq<Card>) -> Result<GameModel, GameError> {
    let p = player as int;
    match mv {
        MoveModel::Income => {
            let players = set_coins(g.players, p, g.players[p].coins + 1);
            Ok(settle(GameModel { players, deck: g.deck, phase: next_turn_phase(players, g.phase) }))
        },
        MoveModel::ForeignAid => Ok(settle(with_phase(g, PhaseModel::AwaitingBlock {
            action: DeclaredAction { actor: player, kind: ActionKind::ForeignAid },
            responder_index: 0,
        }))),
        MoveModel::Tax => Ok(declare(g, player, ActionKind::Tax)),
        MoveModel::Assassinate { target } => {
            let paid = GameModel {
                players: set_coins(g.players, p, g.players[p].coins - 3),
                deck: g.deck,
                phase: g.phase,
            };
            Ok(declare(paid, player, ActionKind::Assassinate { target }))
        },
        MoveModel::Steal { target } => Ok(declare(g, player, ActionKind::Steal { target })),
        MoveModel::Exchange => Ok(declare(g, player, ActionKind::Exchange)),
        MoveModel::Coup { target } => {
            let players = set_coins(g.players, p, g.players[p].coins - 7);
            Ok(GameModel {
                players,
                deck: g.deck,
                phase: PhaseModel::AwaitingInfluenceLoss {
                    player: target,
                    next: Box::new(next_turn_phase(players, g.phase)),
                },
            })
        },
        MoveModel::Challenge => resolve_challenge(g, player, shuffled),
        MoveModel::PassChallenge => pass_challenge(g),
        MoveModel::Block { claim } => start_block_challenge(g, player, claim),
        MoveModel::PassBlock => pass_block(g),
        MoveModel::RevealInfluence { card_index } => reveal_influence(g, player, card_index),
        MoveModel::ExchangeReturn { keep } => exchange_return(g, player, keep, shuffled),
    }
}

/// The outcome of `player` making `mv`: the refusals first (an unknown
/// player, a finished game, an illegal move), then the move and the closing
/// checks. The deck, where the move shuffles it, comes out as `shuffled`.
pub open spec fn apply(g: GameModel, player: usize, mv: MoveModel, shuffled: Seq<Card>) -> Result<GameModel, GameError> {
    if player >= g.players.len() {
        Err(GameError::InvalidPlayer)
    } else if g.phase is Terminal {
        Err(GameError::GameOver)
    } else if !(mv is ExchangeReturn) && !legal_moves(g, player).contains(mv) {
        Err(GameError::InvalidMove)
    } else {
        match move_step(g, player, mv, shuffled) {
            Ok(g1) => Ok(finish(g1)),
            Err(e) => Err(e),
        }
    }
}

// ---------------------------------------------------------------------------
// Well-formedness

pub open spec fn action_ok(n: nat, action: DeclaredAction) -> bool {
    &&& action.actor < n
    &&& spec_target(action.kind) matches Some(t) ==> t < n
}

/// Every seat a phase names is at the table, and a challenge window is
/// only ever opened on an action that claims a character.
pub open spec fn phase_ok(n: nat, phase: PhaseModel) -> bool
    decreases phase,
{
    match phase {
        PhaseModel::AwaitingAction { actor } => actor < n,
        PhaseModel::AwaitingChallenge { action, .. } => action_ok(n, action) && !(action.kind is ForeignAid),
        PhaseModel::AwaitingBlock { action, .. } => action_ok(n, action),
        PhaseModel::AwaitingBlockChallenge { action, blocker, .. } => action_ok(n, action) && blocker < n,
        PhaseModel::AwaitingInfluenceLoss { player, next } => player < n && phase_ok(n, *next),
        PhaseModel::AwaitingExchangeReturn { player, .. } => player < n,
        PhaseModel::Terminal { winner } => winner < n,
    }
}

/// An action that will pay its actor was declared with fewer than ten coins.
pub open spec fn pending_ok(players: Seq<PlayerModel>, phase: PhaseModel) -> bool
    decreases phase,
{
    match phase {
        PhaseModel::AwaitingChallenge { action, .. } => gains_coins(action.kind) ==> players[action.actor as int].coins < 10,
        PhaseModel::AwaitingBlock { action, .. } => gains_coins(action.kind) ==> players[action.actor as int].coins < 10,
        PhaseModel::AwaitingBlockChallenge { action, .. } => gains_coins(action.kind) ==> players[action.actor as int].coins < 10,
        PhaseModel::AwaitingInfluenceLoss { next, .. } => pending_ok(players, *next),
        _ => true,
    }
}

/// The cards an exchanger has drawn and not yet returned.
pub open spec fn drawn_cards(phase: PhaseModel) -> Seq<Card>
    decreases phase,
{
    match phase {
        PhaseModel::AwaitingInfluenceLoss { next, .. } => drawn_cards(*next),
        PhaseModel::AwaitingExchangeReturn { drawn, .. } => drawn,
        _ => seq![],
    }
}

/// No player has more than 250 coins or more than 64 influence cards.
pub open spec fn coins_ok(players: Seq<PlayerModel>) -> bool {
    forall|i: int| 0 <= i < players.len() ==> (#[trigger] players[i]).coins <= 250 && players[i].influence.len() <= 64
}

/// A state the rules can run on without breaking down: one to 64 players,
/// coins that cannot overflow and at most 64 influence cards each, a phase that names seats at the table, and
/// two cards to draw whenever an exchange may need them while play goes on.
pub open spec fn wf(g: GameModel) -> bool {
    &&& 1 <= g.players.len() <= 64
    &&& coins_ok(g.players)
    &&& phase_ok(g.players.len(), g.phase)
    &&& pending_ok(g.players, g.phase)
    &&& !(g.phase is Terminal) ==> g.deck.len() + drawn_cards(g.phase).len() >= 2
}

/// Every card in play: the players' influence in seat order, the deck, and
/// the cards an exchanger has drawn.
pub open spec fn all_influence(players: Seq<PlayerModel>) -> Seq<Card>
    decreases players.len(),
{
    if players.len() == 0 {
        seq![]
    } else {
        all_influence(players.drop_last()) + influence_cards_of(players.last().influence)
    }
}

pub open spec fn table_cards(g: GameModel) -> Multiset<Card> {
    all_influence(g.players).to_multiset().add(g.deck.to_multiset()).add(drawn_cards(g.phase).to_multiset())
}

/// The court deck as a multiset: three of each character.
pub open spec fn court() -> Multiset<Card> {
    spec_standard_deck().to_multiset()
}

} // verus!

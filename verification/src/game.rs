//! The rules engine: who acts and which moves are legal.
use vstd::prelude::*;

use crate::cards::Card;
use crate::hands::{combinations, hands_model};
use crate::players::lemma_take_last;
use crate::rules::{
    phase_ok,
    action_ok, active_player, assassinate_moves, block_challenge_responders, block_responders,
    challenge_responders, coup_moves, exchange_moves, first_living_offset, first_living_or_zero,
    hidden_cards_of, legal_actions, legal_blocks, legal_moves, living_others, next_living_after,
    only_living_player, reveal_moves, spec_combinations, steal_moves, wf, winner,
};
use crate::state::{
    moves_model, players_model, ActionKind, DeclaredAction, GameModel, GameState, Move, MoveModel,
    Phase, PhaseModel, PlayerId, PlayerModel,
};

verus! {

pub open spec fn except_seat(except: Option<usize>) -> int {
    match except {
        Some(e) => e as int,
        None => -1,
    }
}

/// Which of the targeted actions a list of moves is made of.
enum Aim {
    Assassinate,
    Coup,
    Steal,
}

spec fn aimed_moves(targets: Seq<usize>, aim: Aim) -> Seq<MoveModel> {
    match aim {
        Aim::Assassinate => assassinate_moves(targets),
        Aim::Coup => coup_moves(targets),
        Aim::Steal => steal_moves(targets),
    }
}

/// Appends the move of kind `aim` against each target, in order.
fn push_aimed(moves: &mut Vec<Move>, targets: &Vec<PlayerId>, aim: Aim)
    ensures
        moves_model(final(moves)@) == moves_model(old(moves)@) + aimed_moves(targets@, aim),
{
    let ghost start = moves_model(moves@);
    let mut i: usize = 0;
    while i < targets.len()
        invariant
            0 <= i <= targets.len(),
            moves_model(moves@) == start + aimed_moves(targets@.take(i as int), aim),
        decreases targets.len() - i,
    {
        let target = targets[i];
        let mv = match aim {
            Aim::Assassinate => Move::Assassinate { target },
            Aim::Coup => Move::Coup { target },
            Aim::Steal => Move::Steal { target },
        };
        let ghost before = moves@;
        moves.push(mv);
        proof {
            assert(targets@.take(i + 1) =~= targets@.take(i as int).push(target));
            assert(moves_model(moves@) =~= moves_model(before).push(mv@));
            assert(aimed_moves(targets@.take(i + 1), aim) =~= aimed_moves(targets@.take(i as int), aim).push(mv@));
        }
        i = i + 1;
    }
    assert(targets@.take(i as int) =~= targets@);
}

/// Whether `mv` is among `moves`.
pub fn contains_move(moves: &Vec<Move>, mv: &Move) -> (found: bool)
    ensures
        found == moves_model(moves@).contains(mv@),
{
    let mut i: usize = 0;
    while i < moves.len()
        invariant
            0 <= i <= moves.len(),
            forall|j: int| 0 <= j < i ==> moves@[j]@ != mv@,
        decreases moves.len() - i,
    {
        if same_move(&moves[i], mv) {
            assert(moves_model(moves@)[i as int] == mv@);
            return true;
        }
        i = i + 1;
    }
    assert forall|j: int| 0 <= j < moves_model(moves@).len() implies moves_model(moves@)[j] != mv@ by {
        assert(moves_model(moves@)[j] == moves@[j]@);
    }
    false
}

/// Whether two moves have the same model.
pub fn same_move(a: &Move, b: &Move) -> (same: bool)
    ensures
        same == (a@ == b@),
{
    match (a, b) {
        (Move::Income, Move::Income) => true,
        (Move::ForeignAid, Move::ForeignAid) => true,
        (Move::Tax, Move::Tax) => true,
        (Move::Assassinate { target: x }, Move::Assassinate { target: y }) => *x == *y,
        (Move::Steal { target: x }, Move::Steal { target: y }) => *x == *y,
        (Move::Exchange, Move::Exchange) => true,
        (Move::Coup { target: x }, Move::Coup { target: y }) => *x == *y,
        (Move::Challenge, Move::Challenge) => true,
        (Move::PassChallenge, Move::PassChallenge) => true,
        (Move::Block { claim: x }, Move::Block { claim: y }) => *x == *y,
        (Move::PassBlock, Move::PassBlock) => true,
        (Move::RevealInfluence { card_index: x }, Move::RevealInfluence { card_index: y }) => *x == *y,
        (Move::ExchangeReturn { keep: x }, Move::ExchangeReturn { keep: y }) => {
            if x.len() != y.len() {
                return false;
            }
            let mut i: usize = 0;
            while i < x.len()
                invariant
                    0 <= i <= x.len(),
                    x@.len() == y@.len(),
                    a@ == (MoveModel::ExchangeReturn { keep: x@ }),
                    b@ == (MoveModel::ExchangeReturn { keep: y@ }),
                    forall|j: int| 0 <= j < i ==> x@[j] == y@[j],
                decreases x.len() - i,
            {
                if x[i] != y[i] {
                    assert(x@[i as int] != y@[i as int]);
                    assert(x@ != y@);
                    return false;
                }
                i = i + 1;
            }
            assert(x@ =~= y@);
            true
        },
        _ => false,
    }
}

impl Move {
    /// A copy of this move, with a fresh vector of kept cards.
    pub fn duplicate(&self) -> (copy: Move)
        ensures
            copy@ == self@,
    {
        match self {
            Move::Income => Move::Income,
            Move::ForeignAid => Move::ForeignAid,
            Move::Tax => Move::Tax,
            Move::Assassinate { target } => Move::Assassinate { target: *target },
            Move::Steal { target } => Move::Steal { target: *target },
            Move::Exchange => Move::Exchange,
            Move::Coup { target } => Move::Coup { target: *target },
            Move::Challenge => Move::Challenge,
            Move::PassChallenge => Move::PassChallenge,
            Move::Block { claim } => Move::Block { claim: *claim },
            Move::PassBlock => Move::PassBlock,
            Move::RevealInfluence { card_index } => Move::RevealInfluence { card_index: *card_index },
            Move::ExchangeReturn { keep } => Move::ExchangeReturn { keep: crate::state::copy_cards(keep) },
        }
    }
}

impl GameState {
    /// The rules can run on this state (see `rules::wf`).
    pub open spec fn wf(&self) -> bool {
        wf(self@)
    }

    /// The living players other than `except`, in seat order.
    pub(crate) fn living_seats(&self, except: Option<PlayerId>) -> (seats: Vec<PlayerId>)
        ensures
            seats@ == living_others(self@.players, except_seat(except), self@.players.len()),
            seats@.len() <= self@.players.len(),
    {
        let mut seats: Vec<PlayerId> = Vec::new();
        let mut i: usize = 0;
        while i < self.players.len()
            invariant
                0 <= i <= self.players.len(),
                self@.players.len() == self.players@.len(),
                seats@ == living_others(self@.players, except_seat(except), i as nat),
                seats@.len() <= i,
            decreases self.players.len() - i,
        {
            let other = match except {
                Some(e) => i != e,
                None => true,
            };
            if other && self.players[i].is_alive() {
                seats.push(i);
            }
            i = i + 1;
        }
        seats
    }

    pub(crate) fn challenge_responders(&self, action: DeclaredAction) -> (seats: Vec<PlayerId>)
        ensures
            seats@ == challenge_responders(self@.players, action),
    {
        self.living_seats(Some(action.actor))
    }

    pub(crate) fn block_responders(&self, action: DeclaredAction) -> (seats: Vec<PlayerId>)
        requires
            action_ok(self@.players.len(), action),
        ensures
            seats@ == block_responders(self@.players, action),
    {
        match action.kind {
            ActionKind::ForeignAid => self.living_seats(Some(action.actor)),
            ActionKind::Assassinate { target } | ActionKind::Steal { target } => {
                if self.players[target].is_alive() {
                    let mut seats = Vec::new();
                    seats.push(target);
                    seats
                } else {
                    Vec::new()
                }
            },
            ActionKind::Tax | ActionKind::Exchange => Vec::new(),
        }
    }

    pub(crate) fn block_challenge_responders(&self, blocker: PlayerId) -> (seats: Vec<PlayerId>)
        ensures
            seats@ == block_challenge_responders(self@.players, blocker),
    {
        self.living_seats(Some(blocker))
    }

    /// The next living player after `player` in turn order.
    pub(crate) fn next_living_after(&self, player: PlayerId) -> (next: Option<PlayerId>)
        requires
            player < self.players.len() || player == 0,
            1 <= self.players.len() <= 64,
        ensures
            next == next_living_after(self@.players, player as int),
    {
        let n = self.players.len();
        let mut offset: usize = 1;
        while offset <= n
            invariant
                1 <= offset <= n + 1,
                n == self.players.len() == self@.players.len(),
                1 <= n <= 64,
                player < n || player == 0,
                first_living_offset(self@.players, player as int, (offset - 1) as nat) is None,
            decreases n + 1 - offset,
        {
            let candidate = (player + offset) % n;
            if self.players[candidate].is_alive() {
                assert(first_living_offset(self@.players, player as int, offset as nat) == Some(offset as nat));
                proof {
                    lemma_first_living_offset_stable(self@.players, player as int, offset as nat, n as nat);
                }
                return Some(candidate);
            }
            offset = offset + 1;
        }
        assert(offset - 1 == n);
        None
    }

    /// The one living player, if exactly one lives.
    pub(crate) fn only_living_player(&self) -> (w: Option<PlayerId>)
        ensures
            w == only_living_player(self@.players),
    {
        let living = self.living_seats(None);
        if living.len() == 1 {
            Some(living[0])
        } else {
            None
        }
    }

    /// The first living seat, or seat 0 when nobody lives.
    pub(crate) fn current_actor_fallback(&self) -> (seat: PlayerId)
        ensures
            seat == first_living_or_zero(self@.players),
            self.players.len() > 0 ==> seat < self.players.len(),
    {
        let living = self.living_seats(None);
        if living.len() > 0 {
            proof {
                assert(self@.players.len() == self.players.len());
                lemma_living_others_bound(self@.players, -1, self@.players.len());
            }
            living[0]
        } else {
            0
        }
    }

    /// The player whose decision is awaited, if any.
    pub fn active_player(&self) -> (player: Option<PlayerId>)
        requires
            phase_ok(self@.players.len(), self@.phase),
        ensures
            player == active_player(self@),
    {
        match &self.phase {
            Phase::AwaitingAction { actor } => Some(*actor),
            Phase::AwaitingChallenge { action, responder_index } => {
                let seats = self.challenge_responders(*action);
                if *responder_index < seats.len() {
                    Some(seats[*responder_index])
                } else {
                    None
                }
            },
            Phase::AwaitingBlock { action, responder_index } => {
                let seats = self.block_responders(*action);
                if *responder_index < seats.len() {
                    Some(seats[*responder_index])
                } else {
                    None
                }
            },
            Phase::AwaitingBlockChallenge { blocker, responder_index, .. } => {
                let seats = self.block_challenge_responders(*blocker);
                if *responder_index < seats.len() {
                    Some(seats[*responder_index])
                } else {
                    None
                }
            },
            Phase::AwaitingInfluenceLoss { player, .. } => Some(*player),
            Phase::AwaitingExchangeReturn { player, .. } => Some(*player),
            Phase::Terminal { .. } => None,
        }
    }

    /// The winner: the one named by a finished game, or else the last player alive.
    pub fn winner(&self) -> (w: Option<PlayerId>)
        ensures
            w == winner(self@),
    {
        match &self.phase {
            Phase::Terminal { winner } => Some(*winner),
            _ => self.only_living_player(),
        }
    }

    /// Whether the game has a winner.
    pub fn is_terminal(&self) -> (over: bool)
        ensures
            over == winner(self@) is Some,
    {
        self.winner().is_some()
    }

    /// The face-down cards of `player`, in seat order.
    pub fn hidden_cards(&self, player: PlayerId) -> (cards: Vec<Card>)
        requires
            player < self.players.len(),
        ensures
            cards@ == hidden_cards_of(self@.players[player as int].influence),
            cards@.len() == self@.players[player as int].hidden_count(),
    {
        self.players[player].hidden_cards()
    }

    pub(crate) fn legal_actions(&self, player: PlayerId) -> (moves: Vec<Move>)
        requires
            player < self.players.len(),
        ensures
            moves_model(moves@) == legal_actions(self@.players, player),
    {
        if !self.players[player].is_alive() {
            let moves: Vec<Move> = Vec::new();
            assert(moves_model(moves@) =~= Seq::<MoveModel>::empty());
            return moves;
        }
        let targets = self.living_seats(Some(player));
        let mut moves: Vec<Move> = Vec::new();
        if self.players[player].coins >= 10 {
            assert(moves_model(moves@) =~= Seq::<MoveModel>::empty());
            push_aimed(&mut moves, &targets, Aim::Coup);
            assert(moves_model(moves@) =~= legal_actions(self@.players, player));
            return moves;
        }
        moves.push(Move::Income);
        moves.push(Move::ForeignAid);
        moves.push(Move::Tax);
        moves.push(Move::Exchange);
        let ghost base = seq![MoveModel::Income, MoveModel::ForeignAid, MoveModel::Tax, MoveModel::Exchange];
        assert(moves_model(moves@) =~= base);
        let ghost with_assassinations = if self.players[player as int].coins >= 3 {
            base + assassinate_moves(targets@)
        } else {
            base
        };
        if self.players[player].coins >= 3 {
            push_aimed(&mut moves, &targets, Aim::Assassinate);
        }
        assert(moves_model(moves@) =~= with_assassinations);
        let ghost with_coups = if self.players[player as int].coins >= 7 {
            with_assassinations + coup_moves(targets@)
        } else {
            with_assassinations
        };
        if self.players[player].coins >= 7 {
            push_aimed(&mut moves, &targets, Aim::Coup);
        }
        assert(moves_model(moves@) =~= with_coups);
        push_aimed(&mut moves, &targets, Aim::Steal);
        assert(moves_model(moves@) =~= legal_actions(self@.players, player));
        moves
    }

    pub(crate) fn legal_blocks(&self, action: DeclaredAction) -> (moves: Vec<Move>)
        ensures
            moves_model(moves@) == legal_blocks(action),
    {
        let mut moves: Vec<Move> = Vec::new();
        moves.push(Move::PassBlock);
        match action.kind {
            ActionKind::ForeignAid => moves.push(Move::Block { claim: Card::Duke }),
            ActionKind::Assassinate { .. } => moves.push(Move::Block { claim: Card::Contessa }),
            ActionKind::Steal { .. } => {
                moves.push(Move::Block { claim: Card::Captain });
                moves.push(Move::Block { claim: Card::Ambassador });
            },
            ActionKind::Tax | ActionKind::Exchange => {},
        }
        assert(moves_model(moves@) =~= legal_blocks(action));
        moves
    }

    pub(crate) fn reveal_moves(&self, player: PlayerId) -> (moves: Vec<Move>)
        requires
            player < self.players.len(),
        ensures
            moves_model(moves@) == reveal_moves(self@.players[player as int].influence),
    {
        let influence = &self.players[player].influence;
        let mut moves: Vec<Move> = Vec::new();
        let mut i: usize = 0;
        while i < influence.len()
            invariant
                0 <= i <= influence.len(),
                moves_model(moves@) == reveal_moves(influence@.take(i as int)),
            decreases influence.len() - i,
        {
            proof {
                lemma_take_last(influence@, i as int);
            }
            if !influence[i].revealed {
                let ghost before = moves@;
                moves.push(Move::RevealInfluence { card_index: i });
                assert(moves_model(moves@) =~= moves_model(before).push(MoveModel::RevealInfluence { card_index: i }));
            }
            i = i + 1;
        }
        assert(influence@.take(i as int) =~= influence@);
        moves
    }

    pub(crate) fn exchange_moves(&self, player: PlayerId, drawn: &Vec<Card>) -> (moves: Vec<Move>)
        requires
            player < self.players.len(),
        ensures
            moves_model(moves@) == exchange_moves(
                spec_combinations(
                    hidden_cards_of(self@.players[player as int].influence) + drawn@,
                    self@.players[player as int].hidden_count(),
                ),
            ),
    {
        let keep_count = self.players[player].hidden_count();
        let mut cards = self.hidden_cards(player);
        let mut j: usize = 0;
        let ghost hidden = cards@;
        while j < drawn.len()
            invariant
                0 <= j <= drawn.len(),
                cards@ == hidden + drawn@.take(j as int),
            decreases drawn.len() - j,
        {
            cards.push(drawn[j]);
            assert(hidden + drawn@.take(j + 1) =~= (hidden + drawn@.take(j as int)).push(drawn@[j as int]));
            j = j + 1;
        }
        assert(drawn@.take(j as int) =~= drawn@);
        let hands = combinations(&cards, keep_count);
        let mut moves: Vec<Move> = Vec::new();
        let mut i: usize = 0;
        let ghost all = hands_model(hands@);
        while i < hands.len()
            invariant
                0 <= i <= hands.len(),
                all == hands_model(hands@),
                moves_model(moves@) == exchange_moves(all.take(i as int)),
            decreases hands.len() - i,
        {
            let keep = crate::state::copy_cards(&hands[i]);
            let ghost before = moves@;
            moves.push(Move::ExchangeReturn { keep });
            proof {
                assert(all.take(i + 1) =~= all.take(i as int).push(all[i as int]));
                assert(moves_model(moves@) =~= moves_model(before).push(MoveModel::ExchangeReturn { keep: all[i as int] }));
                assert(exchange_moves(all.take(i + 1)) =~= exchange_moves(all.take(i as int)).push(MoveModel::ExchangeReturn { keep: all[i as int] }));
            }
            i = i + 1;
        }
        assert(all.take(i as int) =~= all);
        moves
    }

    /// The legal moves of `player`: none unless it is their decision.
    pub fn legal_moves(&self, player: PlayerId) -> (moves: Vec<Move>)
        requires
            phase_ok(self@.players.len(), self@.phase),
        ensures
            moves_model(moves@) == legal_moves(self@, player),
    {
        if player >= self.players.len() || self.active_player() != Some(player) {
            let moves: Vec<Move> = Vec::new();
            assert(moves_model(moves@) =~= Seq::<MoveModel>::empty());
            return moves;
        }
        match &self.phase {
            Phase::AwaitingAction { actor } => {
                if *actor == player {
                    self.legal_actions(player)
                } else {
                    let moves: Vec<Move> = Vec::new();
                    assert(moves_model(moves@) =~= Seq::<MoveModel>::empty());
                    moves
                }
            },
            Phase::AwaitingChallenge { .. } | Phase::AwaitingBlockChallenge { .. } => {
                let mut moves: Vec<Move> = Vec::new();
                moves.push(Move::Challenge);
                moves.push(Move::PassChallenge);
                assert(moves_model(moves@) =~= seq![MoveModel::Challenge, MoveModel::PassChallenge]);
                moves
            },
            Phase::AwaitingBlock { action, .. } => self.legal_blocks(*action),
            Phase::AwaitingInfluenceLoss { player: loser, .. } => {
                if *loser == player {
                    self.reveal_moves(player)
                } else {
                    let moves: Vec<Move> = Vec::new();
                    assert(moves_model(moves@) =~= Seq::<MoveModel>::empty());
                    moves
                }
            },
            Phase::AwaitingExchangeReturn { player: exchanger, drawn } => {
                if *exchanger == player {
                    self.exchange_moves(player, drawn)
                } else {
                    let moves: Vec<Move> = Vec::new();
                    assert(moves_model(moves@) =~= Seq::<MoveModel>::empty());
                    moves
                }
            },
            Phase::Terminal { .. } => {
                let moves: Vec<Move> = Vec::new();
                assert(moves_model(moves@) =~= Seq::<MoveModel>::empty());
                moves
            },
        }
    }
}

pub proof fn lemma_first_living_offset_stable(players: Seq<PlayerModel>, start: int, k: nat, m: nat)
    requires
        k <= m,
        first_living_offset(players, start, k) is Some,
    ensures
        first_living_offset(players, start, m) == first_living_offset(players, start, k),
    decreases m,
{
    if m > k {
        lemma_first_living_offset_stable(players, start, k, (m - 1) as nat);
    }
}

pub proof fn lemma_living_others_bound(players: Seq<PlayerModel>, except: int, n: nat)
    requires
        n <= usize::MAX,
    ensures
        forall|j: int| 0 <= j < living_others(players, except, n).len() ==> #[trigger] living_others(players, except, n)[j] < n
            && living_others(players, except, n)[j] != except && players[living_others(players, except, n)[j] as int].alive(),
        living_others(players, except, n).len() <= n,
    decreases n,
{
    if n > 0 {
        lemma_living_others_bound(players, except, (n - 1) as nat);
        assert(((n - 1) as usize) as int == n - 1);
    }
}

} // verus!

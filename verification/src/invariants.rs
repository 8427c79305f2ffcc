//! Why the rules never break down on a well-formed state: each step of a
//! move keeps the state well formed.
use vstd::multiset::Multiset;
use vstd::prelude::*;

use crate::cards::{first_index, lemma_first_index, Card};
use crate::game::lemma_living_others_bound;
use crate::rules::{
    active_player, assign_hidden, exchange_moves, first_hidden_index, legal_blocks, legal_moves,
    remove_all, reveal_moves, replace_claim, resolve_challenge, shuffle_ok, spec_claim,
    exchange_return, exchange_pool, reveal_influence,
    action_effects, action_ok, assassinate_moves, coins_ok, coup_moves, draw_two, drawn_cards,
    execute_action, finish, followup_phase, gains_coins, legal_actions, lemma_action_effects_len,
    lemma_next_turn_phase, living_others, next_turn_phase, only_living_player, pending_ok, phase_ok,
    set_coins, settle, settle_rank, steal_moves, wf, with_phase, block_responders,
    challenge_responders, block_challenge_responders, living,
};
use crate::state::{
    players_model, DeclaredAction, GameModel, MoveModel, PhaseModel, PlayerModel, PlayerState,
};

verus! {

pub proof fn lemma_players_model_update(ps: Seq<PlayerState>, i: int, p: PlayerState)
    requires
        0 <= i < ps.len(),
    ensures
        players_model(ps.update(i, p)) == players_model(ps).update(i, p@),
{
    assert(players_model(ps.update(i, p)) =~= players_model(ps).update(i, p@));
}

/// The action a response window is about.
pub open spec fn window_action(phase: PhaseModel) -> Option<DeclaredAction> {
    match phase {
        PhaseModel::AwaitingChallenge { action, .. } => Some(action),
        PhaseModel::AwaitingBlock { action, .. } => Some(action),
        PhaseModel::AwaitingBlockChallenge { action, .. } => Some(action),
        _ => None,
    }
}

pub proof fn lemma_effects_coins(players: Seq<PlayerModel>, action: DeclaredAction)
    requires
        coins_ok(players),
        action_ok(players.len(), action),
        gains_coins(action.kind) ==> players[action.actor as int].coins < 10,
    ensures
        coins_ok(action_effects(players, action)),
        action_effects(players, action).len() == players.len(),
        forall|i: int| 0 <= i < players.len() ==> (#[trigger] action_effects(players, action)[i]).influence == players[i].influence,
{
    lemma_action_effects_len(players, action);
    let e = action_effects(players, action);
    assert forall|i: int| 0 <= i < e.len() implies #[trigger] e[i].coins <= 250 by {
        assert(players[i].coins <= 250);
    }
}

/// Resolving the action of a response window keeps the state well formed.
pub proof fn lemma_execute_wf(g: GameModel, action: DeclaredAction)
    requires
        wf(g),
        window_action(g.phase) == Some(action),
    ensures
        wf(execute_action(g, action)),
{
    let players = action_effects(g.players, action);
    assert(action_ok(g.players.len(), action));
    assert(gains_coins(action.kind) ==> g.players[action.actor as int].coins < 10);
    lemma_effects_coins(g.players, action);
    lemma_next_turn_phase(players, g.phase);
    let next = next_turn_phase(players, g.phase);
    assert(phase_ok(players.len(), next));
    assert(pending_ok(players, next));
    assert(drawn_cards(next).len() == 0);
    let f = followup_phase(players, g.phase, action);
    assert(phase_ok(players.len(), f));
    assert(pending_ok(players, f));
    assert(drawn_cards(f).len() == 0) by {
        reveal_with_fuel(drawn_cards, 2);
    }
}

/// Opening the next turn keeps a state with two cards in the deck well formed.
pub proof fn lemma_next_turn_wf(g: GameModel)
    requires
        wf(g),
        g.deck.len() >= 2,
    ensures
        wf(with_phase(g, next_turn_phase(g.players, g.phase))),
{
    lemma_next_turn_phase(g.players, g.phase);
}

/// Running the steps nobody decides keeps the state well formed.
pub proof fn lemma_settle_wf(g: GameModel)
    requires
        wf(g),
    ensures
        wf(settle(g)),
    decreases settle_rank(g),
{
    match g.phase {
        PhaseModel::AwaitingChallenge { action, responder_index } => {
            if responder_index >= challenge_responders(g.players, action).len() {
                if block_responders(g.players, action).len() == 0 {
                    lemma_execute_wf(g, action);
                    lemma_action_effects_len(g.players, action);
                    crate::rules::lemma_followup_rank(action_effects(g.players, action), g.phase, action);
                    lemma_settle_wf(execute_action(g, action));
                } else {
                    lemma_settle_wf(with_phase(g, PhaseModel::AwaitingBlock { action, responder_index: 0 }));
                }
            }
        },
        PhaseModel::AwaitingBlock { action, responder_index } => {
            if responder_index >= block_responders(g.players, action).len() {
                lemma_execute_wf(g, action);
                lemma_action_effects_len(g.players, action);
                crate::rules::lemma_followup_rank(action_effects(g.players, action), g.phase, action);
                lemma_settle_wf(execute_action(g, action));
            }
        },
        PhaseModel::AwaitingBlockChallenge { blocker, responder_index, .. } => {
            if responder_index >= block_challenge_responders(g.players, blocker).len() {
                lemma_next_turn_wf(g);
                lemma_next_turn_phase(g.players, g.phase);
                lemma_settle_wf(with_phase(g, next_turn_phase(g.players, g.phase)));
            }
        },
        PhaseModel::AwaitingAction { actor } => {
            if !g.players[actor as int].alive() {
                lemma_next_turn_wf(g);
                lemma_next_turn_phase(g.players, g.phase);
                lemma_settle_wf(with_phase(g, next_turn_phase(g.players, g.phase)));
            }
        },
        PhaseModel::AwaitingInfluenceLoss { player, next } => {
            if !g.players[player as int].alive() {
                assert(wf(with_phase(g, *next)));
                lemma_settle_wf(with_phase(g, *next));
            }
        },
        _ => {},
    }
}

/// The closing checks of a move keep the state well formed.
pub proof fn lemma_finish_wf(g: GameModel)
    requires
        wf(g),
    ensures
        wf(finish(g)),
{
    lemma_living_others_bound(g.players, -1, g.players.len());
    let g1 = match only_living_player(g.players) {
        Some(w) => with_phase(g, PhaseModel::Terminal { winner: w }),
        None => g,
    };
    assert(wf(g1));
    lemma_settle_wf(g1);
}

/// Every action offered on a turn is affordable and aimed at a living
/// opponent, and any action that pays was offered with fewer than ten coins.
pub open spec fn action_move_ok(players: Seq<PlayerModel>, player: usize, mv: MoveModel) -> bool {
    let coins = players[player as int].coins;
    let aimed_ok = |t: usize| t < players.len() && t != player && players[t as int].alive();
    match mv {
        MoveModel::Income => coins < 10,
        MoveModel::ForeignAid => coins < 10,
        MoveModel::Tax => coins < 10,
        MoveModel::Exchange => coins < 10,
        MoveModel::Assassinate { target } => coins >= 3 && coins < 10 && aimed_ok(target),
        MoveModel::Steal { target } => coins < 10 && aimed_ok(target),
        MoveModel::Coup { target } => coins >= 7 && aimed_ok(target),
        _ => false,
    }
}

pub proof fn lemma_legal_actions_ok(players: Seq<PlayerModel>, player: usize)
    requires
        player < players.len() <= usize::MAX,
    ensures
        forall|i: int| 0 <= i < legal_actions(players, player).len() ==> action_move_ok(players, player, #[trigger] legal_actions(players, player)[i]),
{
    let targets = living_others(players, player as int, players.len());
    lemma_living_others_bound(players, player as int, players.len());
    let la = legal_actions(players, player);
    let coins = players[player as int].coins;
    assert forall|i: int| 0 <= i < la.len() implies action_move_ok(players, player, #[trigger] la[i]) by {
        if players[player as int].alive() {
            if coins >= 10 {
                assert(la[i] == MoveModel::Coup { target: targets[i] });
            } else {
                let base = seq![MoveModel::Income, MoveModel::ForeignAid, MoveModel::Tax, MoveModel::Exchange];
                let a = if coins >= 3 { assassinate_moves(targets) } else { seq![] };
                let c = if coins >= 7 { coup_moves(targets) } else { seq![] };
                let s = steal_moves(targets);
                assert(la == base + a + c + s);
                if i < 4 {
                    assert(la[i] == base[i]);
                } else if i < 4 + a.len() {
                    assert(la[i] == a[i - 4]);
                    assert(a[i - 4] == MoveModel::Assassinate { target: targets[i - 4] });
                } else if i < 4 + a.len() + c.len() {
                    assert(la[i] == c[i - 4 - a.len()]);
                    assert(c[i - 4 - a.len()] == MoveModel::Coup { target: targets[i - 4 - a.len()] });
                } else {
                    assert(la[i] == s[i - 4 - a.len() - c.len()]);
                    assert(s[i - 4 - a.len() - c.len()] == MoveModel::Steal { target: targets[i - 4 - a.len() - c.len()] });
                }
            }
        }
    }
}

pub proof fn lemma_first_hidden_index(s: Seq<crate::state::InfluenceCard>, card: Card)
    ensures
        0 <= first_hidden_index(s, card) <= s.len(),
        forall|j: int| 0 <= j < first_hidden_index(s, card) ==> !(!s[j].revealed && s[j].card == card),
        first_hidden_index(s, card) < s.len() ==> !s[first_hidden_index(s, card)].revealed
            && s[first_hidden_index(s, card)].card == card,
        (exists|j: int| 0 <= j < s.len() && !s[j].revealed && s[j].card == card) ==> first_hidden_index(s, card) < s.len(),
    decreases s.len(),
{
    if s.len() > 0 && !(!s[0].revealed && s[0].card == card) {
        lemma_first_hidden_index(s.drop_first(), card);
        assert forall|j: int| 0 <= j < first_hidden_index(s, card) implies !(!s[j].revealed && s[j].card == card) by {
            if j > 0 {
                assert(s[j] == s.drop_first()[j - 1]);
            }
        }
        if exists|j: int| 0 <= j < s.len() && !s[j].revealed && s[j].card == card {
            let j = choose|j: int| 0 <= j < s.len() && !s[j].revealed && s[j].card == card;
            assert(s.drop_first()[j - 1] == s[j]);
        }
    }
}

/// Removing the kept cards from the pool leaves the pool minus the kept cards.
pub proof fn lemma_remove_all(available: Seq<Card>, keep: Seq<Card>)
    ensures
        remove_all(available, keep) matches Some(left) ==> left.len() + keep.len() == available.len()
            && available.to_multiset() == left.to_multiset().add(keep.to_multiset()),
    decreases keep.len(),
{
    broadcast use vstd::seq_lib::group_to_multiset_ensures;
    broadcast use vstd::multiset::group_multiset_axioms;
    if keep.len() > 0 && available.contains(keep[0]) {
        let i = first_index(available, keep[0]);
        lemma_first_index(available, keep[0]);
        let rest = available.remove(i);
        lemma_remove_all(rest, keep.drop_first());
        vstd::seq_lib::to_multiset_remove(available, i);
        assert(keep =~= seq![keep[0]] + keep.drop_first());
        vstd::seq_lib::lemma_multiset_commutative(seq![keep[0]], keep.drop_first());
        assert(seq![keep[0]].to_multiset() =~= Multiset::<Card>::empty().insert(keep[0])) by {
            assert(seq![keep[0]] =~= Seq::<Card>::empty().push(keep[0]));
        }
        vstd::seq_lib::to_multiset_contains(available, keep[0]);
        assert(available.to_multiset() =~= rest.to_multiset().insert(keep[0]));
        assert(keep.to_multiset() =~= keep.drop_first().to_multiset().insert(keep[0]));
        if let Some(left) = remove_all(available, keep) {
            assert(available.to_multiset() =~= left.to_multiset().add(keep.to_multiset()));
        }
    }
}

pub proof fn lemma_assign_hidden_len(s: Seq<crate::state::InfluenceCard>, keep: Seq<Card>)
    ensures
        assign_hidden(s, keep).len() == s.len(),
    decreases s.len(),
{
    if s.len() > 0 {
        if s[0].revealed {
            lemma_assign_hidden_len(s.drop_first(), keep);
        } else if keep.len() > 0 {
            lemma_assign_hidden_len(s.drop_first(), keep.drop_first());
        }
    }
}

pub proof fn lemma_assign_hidden_empty(s: Seq<crate::state::InfluenceCard>)
    ensures
        assign_hidden(s, seq![]) == s,
    decreases s.len(),
{
    if s.len() > 0 && s[0].revealed {
        lemma_assign_hidden_empty(s.drop_first());
        assert(seq![s[0]] + s.drop_first() =~= s);
    }
}

pub proof fn lemma_reveal_moves_kind(s: Seq<crate::state::InfluenceCard>)
    ensures
        forall|i: int| 0 <= i < reveal_moves(s).len() ==> (#[trigger] reveal_moves(s)[i]) is RevealInfluence,
    decreases s.len(),
{
    if s.len() > 0 {
        lemma_reveal_moves_kind(s.drop_last());
    }
}

/// What a legal move says of the phase it is made in.
pub proof fn lemma_legal_move_facts(g: GameModel, player: usize, mv: MoveModel)
    requires
        wf(g),
        legal_moves(g, player).contains(mv),
    ensures
        player < g.players.len(),
        active_player(g) == Some(player),
        (mv is Income || mv is ForeignAid || mv is Tax || mv is Exchange || mv is Assassinate || mv is Steal
            || mv is Coup) ==> g.phase == (PhaseModel::AwaitingAction { actor: player })
            && action_move_ok(g.players, player, mv),
        (mv is Challenge || mv is PassChallenge) ==> (g.phase is AwaitingChallenge || g.phase is AwaitingBlockChallenge),
        (mv is Block || mv is PassBlock) ==> g.phase is AwaitingBlock,
{
    let lm = legal_moves(g, player);
    let i = choose|i: int| 0 <= i < lm.len() && lm[i] == mv;
    match g.phase {
        PhaseModel::AwaitingAction { actor } => {
            lemma_legal_actions_ok(g.players, player);
        },
        PhaseModel::AwaitingInfluenceLoss { player: loser, .. } => {
            lemma_reveal_moves_kind(g.players[player as int].influence);
        },
        PhaseModel::AwaitingBlock { action, .. } => {
            assert(lm == legal_blocks(action));
        },
        _ => {},
    }
}

/// Replacing a proven claim keeps coins, seats, phase and deck size.
pub proof fn lemma_replace_claim_wf(g: GameModel, player: int, claim: Card, shuffled: Seq<Card>)
    requires
        wf(g),
        0 <= player < g.players.len(),
        shuffled.len() == g.deck.len() + 1,
        g.players[player].has_hidden(claim),
    ensures
        wf(replace_claim(g, player, claim, shuffled)),
        replace_claim(g, player, claim, shuffled).players.len() == g.players.len(),
        forall|i: int| 0 <= i < g.players.len() ==> (#[trigger] replace_claim(g, player, claim, shuffled).players[i]).coins
            == g.players[i].coins,
{
    let g1 = replace_claim(g, player, claim, shuffled);
    lemma_first_hidden_index(g.players[player].influence, claim);
    assert forall|i: int| 0 <= i < g1.players.len() implies #[trigger] g1.players[i].coins <= 250
        && g1.players[i].influence.len() <= 64 by {
        assert(g.players[i].coins <= 250 && g.players[i].influence.len() <= 64);
    }
    assert(pending_ok(g1.players, g1.phase)) by {
        assert forall|i: int| 0 <= i < g.players.len() implies g1.players[i].coins == g.players[i].coins by {}
        lemma_pending_ok_same_coins(g.players, g1.players, g.phase);
    }
}

/// Whether an action still pending in a phase may pay its actor depends only on coins.
pub proof fn lemma_pending_ok_same_coins(a: Seq<PlayerModel>, b: Seq<PlayerModel>, phase: PhaseModel)
    requires
        pending_ok(a, phase),
        a.len() == b.len(),
        phase_ok(a.len(), phase),
        forall|i: int| 0 <= i < a.len() ==> a[i].coins == b[i].coins,
    ensures
        pending_ok(b, phase),
    decreases phase,
{
    if let PhaseModel::AwaitingInfluenceLoss { next, .. } = phase {
        lemma_pending_ok_same_coins(a, b, *next);
    }
}

/// A challenge leaves a well-formed state well formed.
pub proof fn lemma_resolve_wf(g: GameModel, challenger: usize, shuffled: Seq<Card>)
    requires
        wf(g),
        challenger < g.players.len(),
        shuffle_ok(g, challenger, MoveModel::Challenge, shuffled),
    ensures
        resolve_challenge(g, challenger, shuffled) matches Ok(g1) ==> wf(g1),
{
    broadcast use vstd::seq_lib::group_to_multiset_ensures;
    reveal_with_fuel(phase_ok, 3);
    reveal_with_fuel(pending_ok, 3);
    reveal_with_fuel(drawn_cards, 3);
    match g.phase {
        PhaseModel::AwaitingChallenge { action, .. } => {
            let claim = spec_claim(action.kind)->Some_0;
            if g.players[action.actor as int].has_hidden(claim) {
                vstd::seq_lib::to_multiset_len(shuffled);
                vstd::seq_lib::to_multiset_len(g.deck.push(claim));
                assert(shuffled.len() == g.deck.push(claim).len());
                lemma_replace_claim_wf(g, action.actor as int, claim, shuffled);
                let g1 = replace_claim(g, action.actor as int, claim, shuffled);
                lemma_effects_coins(g1.players, action);
                let players = action_effects(g1.players, action);
                lemma_next_turn_phase(players, g1.phase);
            } else {
                lemma_next_turn_phase(g.players, g.phase);
            }
        },
        PhaseModel::AwaitingBlockChallenge { action, blocker, block_card, .. } => {
            if g.players[blocker as int].has_hidden(block_card) {
                vstd::seq_lib::to_multiset_len(shuffled);
                vstd::seq_lib::to_multiset_len(g.deck.push(block_card));
                assert(shuffled.len() == g.deck.push(block_card).len());
                lemma_replace_claim_wf(g, blocker as int, block_card, shuffled);
                let g1 = replace_claim(g, blocker as int, block_card, shuffled);
                lemma_next_turn_phase(g1.players, g1.phase);
            } else {
                lemma_effects_coins(g.players, action);
                let players = action_effects(g.players, action);
                lemma_next_turn_phase(players, g.phase);
            }
        },
        _ => {},
    }
}

/// Every legal move can be scored by the heuristics: its target sits at
/// the table and a kept hand has at most 64 cards.
pub proof fn lemma_legal_moves_scorable(g: GameModel, player: usize)
    requires
        wf(g),
    ensures
        forall|i: int| 0 <= i < legal_moves(g, player).len() ==> crate::engine::rollout::scorable(g, #[trigger] legal_moves(g, player)[i]),
{
    let lm = legal_moves(g, player);
    if player < g.players.len() && active_player(g) == Some(player) {
        match g.phase {
            PhaseModel::AwaitingAction { actor } => {
                lemma_legal_actions_ok(g.players, player);
            },
            PhaseModel::AwaitingInfluenceLoss { .. } => {
                lemma_reveal_moves_kind(g.players[player as int].influence);
            },
            PhaseModel::AwaitingExchangeReturn { drawn, .. } => {
                let cards = crate::rules::hidden_cards_of(g.players[player as int].influence) + drawn;
                let k = g.players[player as int].hidden_count();
                crate::hands::lemma_combinations_len(cards, k);
                crate::rules::lemma_hidden_count_is_len(g.players[player as int].influence);
                assert(g.players[player as int].influence.len() <= 64);
            },
            _ => {},
        }
    }
}

} // verus!

//! Properties of the rules that hold across moves and across functions.
use vstd::prelude::*;

use vstd::multiset::Multiset;

use crate::cards::Card;
use crate::game::lemma_living_others_bound;
use crate::rules::{
    all_influence, apply, draw_two, drawn_cards, execute_action, finish, hidden_cards_of, influence_cards_of,
    lemma_action_effects_len, lemma_next_turn_phase, move_step, settle, settle_rank, next_turn_phase, table_cards,
    winner, wf, with_phase, phase_ok, resolve_challenge, pass_challenge, pass_block, start_block_challenge,
    reveal_influence, exchange_return, declare, action_effects, followup_phase, assign_hidden, shuffle_ok,
};
use crate::setup::{
    determinized, hidden_drawn_count, lemma_mask_refill, lemma_masked_phase, masked_phase, observe,
};
use crate::state::{DeclaredAction, GameModel, InfluenceCard, MoveModel, PhaseModel, PlayerModel};

verus! {

proof fn lemma_settle_seats(g: GameModel)
    requires
        g.players.len() <= usize::MAX,
    ensures
        settle(g).players.len() == g.players.len(),
    decreases settle_rank(g),
{
    match g.phase {
        PhaseModel::AwaitingChallenge { action, responder_index } => {
            if responder_index >= crate::rules::challenge_responders(g.players, action).len() {
                lemma_action_effects_len(g.players, action);
                crate::rules::lemma_followup_rank(action_effects(g.players, action), g.phase, action);
                lemma_settle_seats(execute_action(g, action));
                lemma_settle_seats(with_phase(g, PhaseModel::AwaitingBlock { action, responder_index: 0 }));
            }
        },
        PhaseModel::AwaitingBlock { action, responder_index } => {
            if responder_index >= crate::rules::block_responders(g.players, action).len() {
                lemma_action_effects_len(g.players, action);
                crate::rules::lemma_followup_rank(action_effects(g.players, action), g.phase, action);
                lemma_settle_seats(execute_action(g, action));
            }
        },
        PhaseModel::AwaitingBlockChallenge { blocker, responder_index, .. } => {
            if responder_index >= crate::rules::block_challenge_responders(g.players, blocker).len() {
                crate::rules::lemma_next_turn_phase(g.players, g.phase);
                lemma_settle_seats(with_phase(g, next_turn_phase(g.players, g.phase)));
            }
        },
        PhaseModel::AwaitingAction { actor } => {
            if !g.players[actor as int].alive() {
                crate::rules::lemma_next_turn_phase(g.players, g.phase);
                lemma_settle_seats(with_phase(g, next_turn_phase(g.players, g.phase)));
            }
        },
        PhaseModel::AwaitingInfluenceLoss { player, next } => {
            if !g.players[player as int].alive() {
                lemma_settle_seats(with_phase(g, *next));
            }
        },
        _ => {},
    }
}

/// A move never adds or removes a seat: whatever a move does, the table has
/// as many players afterwards as before.
pub proof fn law_move_keeps_seats(g: GameModel, player: usize, mv: MoveModel, shuffled: Seq<Card>)
    requires
        wf(g),
        apply(g, player, mv, shuffled) is Ok,
    ensures
        apply(g, player, mv, shuffled)->Ok_0.players.len() == g.players.len(),
{
    let step = move_step(g, player, mv, shuffled);
    assert(step is Ok);
    let g1 = step->Ok_0;
    match mv {
        MoveModel::Income => {
            let players = crate::rules::set_coins(g.players, player as int, g.players[player as int].coins + 1);
            lemma_settle_seats(GameModel { players, deck: g.deck, phase: next_turn_phase(players, g.phase) });
        },
        MoveModel::ForeignAid => {
            lemma_settle_seats(with_phase(g, PhaseModel::AwaitingBlock {
                action: crate::state::DeclaredAction { actor: player, kind: crate::state::ActionKind::ForeignAid },
                responder_index: 0,
            }));
        },
        MoveModel::Tax | MoveModel::Steal { .. } | MoveModel::Exchange | MoveModel::Assassinate { .. } => {
            let paid = match mv {
                MoveModel::Assassinate { .. } => GameModel {
                    players: crate::rules::set_coins(g.players, player as int, g.players[player as int].coins - 3),
                    deck: g.deck,
                    phase: g.phase,
                },
                _ => g,
            };
            let kind = match mv {
                MoveModel::Tax => crate::state::ActionKind::Tax,
                MoveModel::Steal { target } => crate::state::ActionKind::Steal { target },
                MoveModel::Exchange => crate::state::ActionKind::Exchange,
                MoveModel::Assassinate { target } => crate::state::ActionKind::Assassinate { target },
                _ => crate::state::ActionKind::Tax,
            };
            lemma_settle_seats(with_phase(paid, PhaseModel::AwaitingChallenge {
                action: crate::state::DeclaredAction { actor: player, kind },
                responder_index: 0,
            }));
            assert(g1 == declare(paid, player, kind));
        },
        MoveModel::Coup { .. } => {},
        MoveModel::Challenge => {
            match g.phase {
                PhaseModel::AwaitingChallenge { action, .. } => {
                    lemma_action_effects_len(g.players, action);
                    let claim = crate::rules::spec_claim(action.kind)->Some_0;
                    let g2 = crate::rules::replace_claim(g, action.actor as int, claim, shuffled);
                    lemma_action_effects_len(g2.players, action);
                },
                PhaseModel::AwaitingBlockChallenge { action, .. } => {
                    lemma_action_effects_len(g.players, action);
                },
                _ => {},
            }
            assert(g1 == resolve_challenge(g, player, shuffled)->Ok_0);
        },
        MoveModel::PassChallenge => {
            match g.phase {
                PhaseModel::AwaitingChallenge { action, responder_index } => {
                    lemma_action_effects_len(g.players, action);
                    let ea = execute_action(g, action);
                    let ab = with_phase(g, PhaseModel::AwaitingBlock { action, responder_index: 0 });
                    let ac = with_phase(g, PhaseModel::AwaitingChallenge { action, responder_index: (responder_index + 1) as usize });
                    lemma_settle_seats(ea);
                    lemma_settle_seats(ab);
                    lemma_settle_seats(ac);
                },
                PhaseModel::AwaitingBlockChallenge { action, blocker, block_card, responder_index } => {
                    let nt = with_phase(g, next_turn_phase(g.players, g.phase));
                    lemma_settle_seats(nt);
                    lemma_settle_seats(settle(nt));
                    let bc = with_phase(g, PhaseModel::AwaitingBlockChallenge {
                        action,
                        blocker,
                        block_card,
                        responder_index: (responder_index + 1) as usize,
                    });
                    lemma_settle_seats(bc);
                },
                _ => {},
            }
            assert(g1 == pass_challenge(g)->Ok_0);
        },
        MoveModel::Block { claim } => {
            match g.phase {
                PhaseModel::AwaitingBlock { action, .. } => {
                    lemma_settle_seats(with_phase(g, PhaseModel::AwaitingBlockChallenge {
                        action,
                        blocker: player,
                        block_card: claim,
                        responder_index: 0,
                    }));
                },
                _ => {},
            }
            assert(g1 == start_block_challenge(g, player, claim)->Ok_0);
        },
        MoveModel::PassBlock => {
            match g.phase {
                PhaseModel::AwaitingBlock { action, responder_index } => {
                    lemma_action_effects_len(g.players, action);
                    lemma_settle_seats(execute_action(g, action));
                    lemma_settle_seats(with_phase(g, PhaseModel::AwaitingBlock { action, responder_index: (responder_index + 1) as usize }));
                },
                _ => {},
            }
            assert(g1 == pass_block(g)->Ok_0);
        },
        MoveModel::RevealInfluence { card_index } => {
            assert(g1 == reveal_influence(g, player, card_index)->Ok_0);
        },
        MoveModel::ExchangeReturn { keep } => {
            match g.phase {
                PhaseModel::AwaitingExchangeReturn { .. } => {
                    let players = g.players.update(
                        player as int,
                        crate::state::PlayerModel {
                            coins: g.players[player as int].coins,
                            influence: crate::rules::assign_hidden(g.players[player as int].influence, keep),
                        },
                    );
                    lemma_settle_seats(GameModel { players, deck: shuffled, phase: next_turn_phase(players, g.phase) });
                },
                _ => {},
            }
            assert(g1 == exchange_return(g, player, keep, shuffled)->Ok_0);
        },
    }
    assert(g1.players.len() == g.players.len());
    lemma_finish_seats(g1);
}

proof fn lemma_finish_seats(g: GameModel)
    requires
        g.players.len() <= usize::MAX,
    ensures
        finish(g).players.len() == g.players.len(),
{
    let g1 = match crate::rules::only_living_player(g.players) {
        Some(w) => with_phase(g, PhaseModel::Terminal { winner: w }),
        None => g,
    };
    lemma_settle_seats(g1);
}

/// The player whose decision is awaited sits at the table.
pub proof fn law_awaited_player_is_seat(g: GameModel)
    requires
        wf(g),
    ensures
        crate::rules::active_player(g) matches Some(p) ==> p < g.players.len(),
{
    match g.phase {
        PhaseModel::AwaitingChallenge { action, .. } => {
            lemma_living_others_bound(g.players, action.actor as int, g.players.len());
        },
        PhaseModel::AwaitingBlock { action, .. } => {
            lemma_living_others_bound(g.players, action.actor as int, g.players.len());
        },
        PhaseModel::AwaitingBlockChallenge { blocker, .. } => {
            lemma_living_others_bound(g.players, blocker as int, g.players.len());
        },
        _ => {},
    }
}

/// Whoever the game names as its winner sits at the table.
pub proof fn law_winner_is_seat(g: GameModel)
    requires
        wf(g),
    ensures
        winner(g) matches Some(w) ==> w < g.players.len(),
{
    lemma_living_others_bound(g.players, -1, g.players.len());
}

// ---------------------------------------------------------------------------
// Card accounting

proof fn lemma_all_influence_same(a: Seq<PlayerModel>, b: Seq<PlayerModel>)
    requires
        a.len() == b.len(),
        forall|i: int| 0 <= i < a.len() ==> (#[trigger] a[i]).influence == b[i].influence,
    ensures
        all_influence(a) == all_influence(b),
    decreases a.len(),
{
    if a.len() > 0 {
        lemma_all_influence_same(a.drop_last(), b.drop_last());
    }
}

proof fn lemma_all_influence_update(ps: Seq<PlayerModel>, i: int, p: PlayerModel)
    requires
        0 <= i < ps.len(),
    ensures
        all_influence(ps.update(i, p)).to_multiset().add(influence_cards_of(ps[i].influence).to_multiset())
            == all_influence(ps).to_multiset().add(influence_cards_of(p.influence).to_multiset()),
    decreases ps.len(),
{
    broadcast use vstd::seq_lib::lemma_multiset_commutative;
    broadcast use vstd::multiset::group_multiset_axioms;
    let u = ps.update(i, p);
    let q = ps.drop_last();
    let last = influence_cards_of(ps.last().influence);
    let a_ps = all_influence(q) + last;
    assert(all_influence(ps) == a_ps);
    let lhs = all_influence(u).to_multiset().add(influence_cards_of(ps[i].influence).to_multiset());
    let rhs = all_influence(ps).to_multiset().add(influence_cards_of(p.influence).to_multiset());
    if i == ps.len() - 1 {
        assert(u.drop_last() =~= q);
        let a_u = all_influence(q) + influence_cards_of(p.influence);
        assert(all_influence(u) == a_u);
        assert(a_u.to_multiset() == all_influence(q).to_multiset().add(influence_cards_of(p.influence).to_multiset()));
        assert(a_ps.to_multiset() == all_influence(q).to_multiset().add(last.to_multiset()));
        assert(lhs =~= rhs);
    } else {
        assert(u.drop_last() =~= q.update(i, p));
        lemma_all_influence_update(q, i, p);
        assert(q[i] == ps[i]);
        let a_u = all_influence(q.update(i, p)) + last;
        assert(all_influence(u) == a_u);
        assert(a_u.to_multiset() == all_influence(q.update(i, p)).to_multiset().add(last.to_multiset()));
        assert(a_ps.to_multiset() == all_influence(q).to_multiset().add(last.to_multiset()));
        let m1 = all_influence(q.update(i, p)).to_multiset().add(influence_cards_of(q[i].influence).to_multiset());
        let m2 = all_influence(q).to_multiset().add(influence_cards_of(p.influence).to_multiset());
        assert(m1 == m2);
        assert forall|x: Card| #[trigger] lhs.count(x) == rhs.count(x) by {
            assert(m1.count(x) == m2.count(x));
        }
        assert(lhs =~= rhs);
    }
}

proof fn lemma_hidden_front(s: Seq<InfluenceCard>)
    requires
        s.len() > 0,
    ensures
        hidden_cards_of(s).to_multiset() == (if s[0].revealed {
            Multiset::<Card>::empty()
        } else {
            Multiset::<Card>::empty().insert(s[0].card)
        }).add(hidden_cards_of(s.drop_first()).to_multiset()),
    decreases s.len(),
{
    broadcast use vstd::seq_lib::group_to_multiset_ensures;
    broadcast use vstd::multiset::group_multiset_axioms;
    if s.len() == 1 {
        assert(s.drop_last().len() == 0);
        assert(s.drop_first().len() == 0);
        assert(hidden_cards_of(s.drop_first()) =~= Seq::<Card>::empty());
        assert(hidden_cards_of(s.drop_last()) =~= Seq::<Card>::empty());
        assert(Seq::<Card>::empty().to_multiset() =~= Multiset::<Card>::empty());
        if !s[0].revealed {
            assert(hidden_cards_of(s) == Seq::<Card>::empty().push(s[0].card));
        }
    } else {
        lemma_hidden_front(s.drop_last());
        assert(s.drop_last().drop_first() =~= s.drop_first().drop_last());
        assert(s.drop_first().last() == s.last());
        assert(s.drop_last()[0] == s[0]);
    }
    assert(hidden_cards_of(s).to_multiset() =~= (if s[0].revealed {
        Multiset::<Card>::empty()
    } else {
        Multiset::<Card>::empty().insert(s[0].card)
    }).add(hidden_cards_of(s.drop_first()).to_multiset()));
}

proof fn lemma_assign_hidden_cards(s: Seq<InfluenceCard>, keep: Seq<Card>)
    requires
        keep.len() == hidden_cards_of(s).len(),
    ensures
        influence_cards_of(assign_hidden(s, keep)).to_multiset().add(hidden_cards_of(s).to_multiset())
            == influence_cards_of(s).to_multiset().add(keep.to_multiset()),
    decreases s.len(),
{
    broadcast use vstd::seq_lib::group_to_multiset_ensures;
    broadcast use vstd::seq_lib::lemma_multiset_commutative;
    broadcast use vstd::multiset::group_multiset_axioms;
    if s.len() == 0 {
        assert(hidden_cards_of(s) =~= Seq::<Card>::empty());
        assert(keep =~= Seq::<Card>::empty());
        assert(influence_cards_of(assign_hidden(s, keep)) =~= influence_cards_of(s));
    } else {
        lemma_hidden_front(s);
        let rest = s.drop_first();
        assert(influence_cards_of(s) =~= seq![s[0].card] + influence_cards_of(rest));
        assert(seq![s[0].card].to_multiset() =~= Multiset::<Card>::empty().insert(s[0].card)) by {
            assert(seq![s[0].card] =~= Seq::<Card>::empty().push(s[0].card));
        }
        if s[0].revealed {
            assert(hidden_cards_of(s).to_multiset().len() == hidden_cards_of(rest).to_multiset().len());
            lemma_assign_hidden_cards(rest, keep);
            let head = seq![s[0].card];
            let ia = influence_cards_of(assign_hidden(rest, keep));
            assert(influence_cards_of(assign_hidden(s, keep)) =~= head + ia);
            assert((head + ia).to_multiset() == head.to_multiset().add(ia.to_multiset()));
            assert((head + influence_cards_of(rest)).to_multiset() == head.to_multiset().add(influence_cards_of(rest).to_multiset()));
            let m1 = ia.to_multiset().add(hidden_cards_of(rest).to_multiset());
            let m2 = influence_cards_of(rest).to_multiset().add(keep.to_multiset());
            assert(m1 == m2);
            let lhs = influence_cards_of(assign_hidden(s, keep)).to_multiset().add(hidden_cards_of(s).to_multiset());
            let rhs = influence_cards_of(s).to_multiset().add(keep.to_multiset());
            assert forall|x: Card| #[trigger] lhs.count(x) == rhs.count(x) by {
                assert(m1.count(x) == m2.count(x));
            }
            assert(lhs =~= rhs);
        } else {
            assert(hidden_cards_of(s).to_multiset().len() == hidden_cards_of(rest).to_multiset().len() + 1);
            let k0 = keep[0];
            let krest = keep.drop_first();
            lemma_assign_hidden_cards(rest, krest);
            assert(keep =~= seq![k0] + krest);
            assert(seq![k0].to_multiset() =~= Multiset::<Card>::empty().insert(k0)) by {
                assert(seq![k0] =~= Seq::<Card>::empty().push(k0));
            }
            let head = seq![s[0].card];
            let ia = influence_cards_of(assign_hidden(rest, krest));
            assert(influence_cards_of(assign_hidden(s, keep)) =~= seq![k0] + ia);
            assert((seq![k0] + ia).to_multiset() == seq![k0].to_multiset().add(ia.to_multiset()));
            assert((head + influence_cards_of(rest)).to_multiset() == head.to_multiset().add(influence_cards_of(rest).to_multiset()));
            assert((seq![k0] + krest).to_multiset() == seq![k0].to_multiset().add(krest.to_multiset()));
            let m1 = ia.to_multiset().add(hidden_cards_of(rest).to_multiset());
            let m2 = influence_cards_of(rest).to_multiset().add(krest.to_multiset());
            assert(m1 == m2);
            let lhs = influence_cards_of(assign_hidden(s, keep)).to_multiset().add(hidden_cards_of(s).to_multiset());
            let rhs = influence_cards_of(s).to_multiset().add(keep.to_multiset());
            assert forall|x: Card| #[trigger] lhs.count(x) == rhs.count(x) by {
                assert(m1.count(x) == m2.count(x));
            }
            assert(lhs =~= rhs);
        }
    }
}

proof fn lemma_table_same(a: GameModel, b: GameModel)
    requires
        a.players.len() == b.players.len(),
        forall|i: int| 0 <= i < a.players.len() ==> (#[trigger] a.players[i]).influence == b.players[i].influence,
        a.deck == b.deck,
        drawn_cards(a.phase) == drawn_cards(b.phase),
    ensures
        table_cards(a) == table_cards(b),
{
    lemma_all_influence_same(a.players, b.players);
}

/// The phase that opens the next turn holds no drawn cards.
proof fn lemma_next_turn_drawn(players: Seq<PlayerModel>, phase: PhaseModel)
    requires
        players.len() <= usize::MAX,
    ensures
        drawn_cards(next_turn_phase(players, phase)).len() == 0,
{
    lemma_next_turn_phase(players, phase);
}

/// Resolving a window's action moves coins only.
proof fn lemma_execute_cards(g: GameModel, action: DeclaredAction)
    requires
        g.players.len() <= usize::MAX,
        drawn_cards(g.phase).len() == 0,
    ensures
        table_cards(execute_action(g, action)) == table_cards(g),
        drawn_cards(execute_action(g, action).phase).len() == 0,
        execute_action(g, action).deck == g.deck,
{
    lemma_action_effects_len(g.players, action);
    let players = action_effects(g.players, action);
    lemma_next_turn_drawn(players, g.phase);
    reveal_with_fuel(drawn_cards, 2);
    assert(drawn_cards(followup_phase(players, g.phase, action)) =~= Seq::<Card>::empty());
    assert(drawn_cards(g.phase) =~= Seq::<Card>::empty());
    lemma_table_same(execute_action(g, action), g);
}

/// Drawing for an exchange moves the top two cards of the deck into the hand.
proof fn lemma_draw_two_cards(g: GameModel, player: usize)
    requires
        g.deck.len() >= 2,
        drawn_cards(g.phase).len() == 0,
    ensures
        table_cards(draw_two(g, player)) == table_cards(g),
{
    broadcast use vstd::seq_lib::group_to_multiset_ensures;
    broadcast use vstd::multiset::group_multiset_axioms;
    let n = g.deck.len() as int;
    let d = g.deck;
    let rest = d.subrange(0, n - 2);
    assert(d =~= rest.push(d[n - 2]).push(d[n - 1]));
    let drawn = seq![d[n - 1], d[n - 2]];
    assert(drawn =~= Seq::<Card>::empty().push(d[n - 1]).push(d[n - 2]));
    assert(Seq::<Card>::empty().to_multiset() =~= Multiset::<Card>::empty());
    assert(drawn_cards(g.phase) =~= Seq::<Card>::empty());
    let after = draw_two(g, player);
    assert(drawn_cards(after.phase) == drawn);
    assert(table_cards(after) =~= table_cards(g));
}

proof fn lemma_settle_cards(g: GameModel)
    requires
        g.players.len() <= usize::MAX,
        drawn_cards(g.phase).len() == 0 ==> g.deck.len() >= 2,
    ensures
        table_cards(settle(g)) == table_cards(g),
        drawn_cards(settle(g).phase).len() == 0 ==> settle(g).deck.len() >= 2,
    decreases settle_rank(g),
{
    reveal_with_fuel(drawn_cards, 2);
    match g.phase {
        PhaseModel::AwaitingChallenge { action, responder_index } => {
            if responder_index >= crate::rules::challenge_responders(g.players, action).len() {
                if crate::rules::block_responders(g.players, action).len() == 0 {
                    lemma_execute_cards(g, action);
                    lemma_action_effects_len(g.players, action);
                    crate::rules::lemma_followup_rank(action_effects(g.players, action), g.phase, action);
                    lemma_settle_cards(execute_action(g, action));
                } else {
                    let g1 = with_phase(g, PhaseModel::AwaitingBlock { action, responder_index: 0 });
                    lemma_table_same(g1, g);
                    lemma_settle_cards(g1);
                }
            }
        },
        PhaseModel::AwaitingBlock { action, responder_index } => {
            if responder_index >= crate::rules::block_responders(g.players, action).len() {
                lemma_execute_cards(g, action);
                lemma_action_effects_len(g.players, action);
                crate::rules::lemma_followup_rank(action_effects(g.players, action), g.phase, action);
                lemma_settle_cards(execute_action(g, action));
            }
        },
        PhaseModel::AwaitingBlockChallenge { blocker, responder_index, .. } => {
            if responder_index >= crate::rules::block_challenge_responders(g.players, blocker).len() {
                lemma_next_turn_phase(g.players, g.phase);
                let g1 = with_phase(g, next_turn_phase(g.players, g.phase));
                lemma_table_same(g1, g);
                lemma_settle_cards(g1);
            }
        },
        PhaseModel::AwaitingExchangeReturn { player, drawn } => {
            if drawn.len() == 0 {
                lemma_draw_two_cards(g, player);
            }
        },
        PhaseModel::AwaitingAction { actor } => {
            if !g.players[actor as int].alive() {
                lemma_next_turn_phase(g.players, g.phase);
                let g1 = with_phase(g, next_turn_phase(g.players, g.phase));
                lemma_table_same(g1, g);
                lemma_settle_cards(g1);
            }
        },
        PhaseModel::AwaitingInfluenceLoss { player, next } => {
            if !g.players[player as int].alive() {
                let g1 = with_phase(g, *next);
                lemma_table_same(g1, g);
                lemma_settle_cards(g1);
            }
        },
        _ => {},
    }
}

/// The closing checks keep every card, unless they end the game while an
/// exchanger holds drawn cards.
proof fn lemma_finish_cards(g: GameModel)
    requires
        g.players.len() <= usize::MAX,
        drawn_cards(g.phase).len() == 0 ==> g.deck.len() >= 2,
    ensures
        !(finish(g).phase is Terminal) ==> table_cards(finish(g)) == table_cards(g),
        crate::rules::only_living_player(g.players) is None ==> table_cards(finish(g)) == table_cards(g),
        drawn_cards(g.phase).len() == 0 ==> table_cards(finish(g)) == table_cards(g),
{
    match crate::rules::only_living_player(g.players) {
        None => {
            lemma_settle_cards(g);
        },
        Some(w) => {
            let g1 = with_phase(g, PhaseModel::Terminal { winner: w });
            assert(settle(g1) == g1);
            if drawn_cards(g.phase).len() == 0 {
                assert(drawn_cards(g1.phase) =~= drawn_cards(g.phase));
                lemma_table_same(g1, g);
            }
        },
    }
}

/// Proving a claim swaps the claimed card for the top of the reshuffled deck.
proof fn lemma_replace_claim_cards(g: GameModel, player: int, claim: Card, shuffled: Seq<Card>)
    requires
        0 <= player < g.players.len(),
        g.players[player].has_hidden(claim),
        shuffled.to_multiset() == g.deck.push(claim).to_multiset(),
    ensures
        table_cards(crate::rules::replace_claim(g, player, claim, shuffled)) == table_cards(g),
        crate::rules::replace_claim(g, player, claim, shuffled).deck.len() == g.deck.len(),
{
    broadcast use vstd::seq_lib::group_to_multiset_ensures;
    broadcast use vstd::multiset::group_multiset_axioms;
    let infl = g.players[player].influence;
    let i = crate::rules::first_hidden_index(infl, claim);
    crate::invariants::lemma_first_hidden_index(infl, claim);
    vstd::seq_lib::to_multiset_len(shuffled);
    vstd::seq_lib::to_multiset_len(g.deck.push(claim));
    assert(shuffled.len() == g.deck.len() + 1);
    let top = shuffled.last();
    let newp = PlayerModel {
        coins: g.players[player].coins,
        influence: infl.update(i, InfluenceCard { card: top, revealed: false }),
    };
    let after = crate::rules::replace_claim(g, player, claim, shuffled);
    assert(after.players == g.players.update(player, newp));
    lemma_all_influence_update(g.players, player, newp);
    let ic = influence_cards_of(infl);
    assert(influence_cards_of(newp.influence) =~= ic.update(i, top));
    assert(ic[i] == claim);
    assert(ic.update(i, top).to_multiset() == ic.to_multiset().insert(top).remove(claim));
    assert(ic.to_multiset().count(claim) > 0) by {
        assert(ic.contains(claim));
    }
    assert(shuffled =~= shuffled.drop_last().push(top));
    assert(shuffled.to_multiset() == shuffled.drop_last().to_multiset().insert(top));
    let a1 = all_influence(after.players).to_multiset();
    let a0 = all_influence(g.players).to_multiset();
    let ci = ic.to_multiset();
    let cn = influence_cards_of(newp.influence).to_multiset();
    let dm = drawn_cards(g.phase).to_multiset();
    assert(after.phase == g.phase);
    assert(after.deck == shuffled.drop_last());
    assert forall|x: Card| #[trigger] table_cards(after).count(x) == table_cards(g).count(x) by {
        assert(a1.add(ci).count(x) == a0.add(cn).count(x));
        assert(cn.count(x) == ci.count(x) + (if x == top { 1int } else { 0int }) - (if x == claim { 1int } else { 0int }));
        assert(shuffled.to_multiset().count(x) == g.deck.push(claim).to_multiset().count(x));
        assert(g.deck.push(claim).to_multiset() == g.deck.to_multiset().insert(claim));
        assert(g.deck.to_multiset().insert(claim).count(x) == g.deck.to_multiset().count(x) + (if x == claim { 1int } else { 0int }));
        assert(shuffled.drop_last().to_multiset().insert(top).count(x)
            == shuffled.drop_last().to_multiset().count(x) + (if x == top { 1int } else { 0int }));
        assert(shuffled.drop_last().to_multiset().count(x) + (if x == top { 1int } else { 0int })
            == g.deck.to_multiset().count(x) + (if x == claim { 1int } else { 0int }));
        assert(table_cards(after).count(x) == a1.count(x) + shuffled.drop_last().to_multiset().count(x) + dm.count(x));
        assert(table_cards(g).count(x) == a0.count(x) + g.deck.to_multiset().count(x) + dm.count(x));
    }
    assert(table_cards(after) =~= table_cards(g));
}

/// Returning cards after an exchange keeps every card: the kept ones go
/// face down, the rest and the drawn ones back into the deck.
proof fn lemma_exchange_return_cards(g: GameModel, player: usize, keep: Seq<Card>, shuffled: Seq<Card>, left: Seq<Card>)
    requires
        player < g.players.len() <= usize::MAX,
        g.phase matches PhaseModel::AwaitingExchangeReturn { player: actor, drawn } && actor == player
            && crate::rules::remove_all(crate::rules::exchange_pool(g, player, drawn), keep) == Some(left),
        keep.len() == g.players[player as int].hidden_count(),
        shuffled.to_multiset() == (g.deck + left).to_multiset(),
    ensures
        ({
            let players = g.players.update(
                player as int,
                PlayerModel {
                    coins: g.players[player as int].coins,
                    influence: assign_hidden(g.players[player as int].influence, keep),
                },
            );
            let g1 = GameModel { players, deck: shuffled, phase: next_turn_phase(players, g.phase) };
            &&& table_cards(g1) == table_cards(g)
            &&& shuffled.len() == g.deck.len() + drawn_cards(g.phase).len()
        }),
{
    broadcast use vstd::seq_lib::group_to_multiset_ensures;
    broadcast use vstd::seq_lib::lemma_multiset_commutative;
    broadcast use vstd::multiset::group_multiset_axioms;
    let drawn = drawn_cards(g.phase);
    let infl = g.players[player as int].influence;
    let newp = PlayerModel { coins: g.players[player as int].coins, influence: assign_hidden(infl, keep) };
    let players = g.players.update(player as int, newp);
    let g1 = GameModel { players, deck: shuffled, phase: next_turn_phase(players, g.phase) };
    lemma_next_turn_drawn(players, g.phase);
    assert(drawn_cards(g1.phase) =~= Seq::<Card>::empty());
    assert(Seq::<Card>::empty().to_multiset() =~= Multiset::<Card>::empty());
    crate::rules::lemma_hidden_count_is_len(infl);
    lemma_assign_hidden_cards(infl, keep);
    lemma_all_influence_update(g.players, player as int, newp);
    let pool = hidden_cards_of(infl) + drawn;
    assert(crate::rules::exchange_pool(g, player, drawn) == pool);
    crate::invariants::lemma_remove_all(pool, keep);
    assert(pool.to_multiset() == hidden_cards_of(infl).to_multiset().add(drawn.to_multiset()));
    assert((g.deck + left).to_multiset() == g.deck.to_multiset().add(left.to_multiset()));
    let a1 = all_influence(players).to_multiset();
    let a0 = all_influence(g.players).to_multiset();
    let i0 = influence_cards_of(infl).to_multiset();
    let i1 = influence_cards_of(newp.influence).to_multiset();
    assert forall|x: Card| #[trigger] table_cards(g1).count(x) == table_cards(g).count(x) by {
        assert(a1.add(i0).count(x) == a0.add(i1).count(x));
        assert(i1.add(hidden_cards_of(infl).to_multiset()).count(x) == i0.add(keep.to_multiset()).count(x));
        assert(pool.to_multiset().count(x) == left.to_multiset().add(keep.to_multiset()).count(x));
        assert(shuffled.to_multiset().count(x) == (g.deck + left).to_multiset().count(x));
    }
    assert(table_cards(g1) =~= table_cards(g));
    vstd::seq_lib::to_multiset_len(shuffled);
    vstd::seq_lib::to_multiset_len(g.deck + left);
    assert(shuffled.len() == g.deck.len() + drawn.len());
}

/// A state whose deck can still feed an exchange: without drawn cards
/// pending, at least two cards lie in the deck.
spec fn deck_ready(g: GameModel) -> bool {
    drawn_cards(g.phase).len() == 0 ==> g.deck.len() >= 2
}

/// What a step hands on to the closing checks: the same cards, the same
/// seats, and a deck ready for the next exchange.
spec fn step_keeps_cards(g: GameModel, g1: GameModel) -> bool {
    &&& table_cards(g1) == table_cards(g)
    &&& g1.players.len() == g.players.len()
    &&& deck_ready(g1)
}

proof fn lemma_settle_keeps(g: GameModel, g0: GameModel)
    requires
        g0.players.len() <= usize::MAX,
        deck_ready(g0),
        table_cards(g0) == table_cards(g),
        g0.players.len() == g.players.len(),
    ensures
        step_keeps_cards(g, settle(g0)),
{
    lemma_settle_cards(g0);
    lemma_settle_seats(g0);
}

/// The turn actions keep every card.
proof fn lemma_action_step_cards(g: GameModel, player: usize, mv: MoveModel, shuffled: Seq<Card>)
    requires
        wf(g),
        player < g.players.len(),
        g.phase == (PhaseModel::AwaitingAction { actor: player }),
        mv is Income || mv is ForeignAid || mv is Tax || mv is Exchange || mv is Assassinate || mv is Steal || mv is Coup,
    ensures
        move_step(g, player, mv, shuffled) matches Ok(g1) && step_keeps_cards(g, g1),
{
    reveal_with_fuel(drawn_cards, 2);
    let p = player as int;
    assert(drawn_cards(g.phase) =~= Seq::<Card>::empty());
    match mv {
        MoveModel::Income => {
            let players = crate::rules::set_coins(g.players, p, g.players[p].coins + 1);
            lemma_next_turn_drawn(players, g.phase);
            let g0 = GameModel { players, deck: g.deck, phase: next_turn_phase(players, g.phase) };
            lemma_table_same(g0, g);
            lemma_settle_keeps(g, g0);
        },
        MoveModel::ForeignAid => {
            let g0 = with_phase(g, PhaseModel::AwaitingBlock {
                action: DeclaredAction { actor: player, kind: crate::state::ActionKind::ForeignAid },
                responder_index: 0,
            });
            lemma_table_same(g0, g);
            lemma_settle_keeps(g, g0);
        },
        MoveModel::Coup { target } => {
            let players = crate::rules::set_coins(g.players, p, g.players[p].coins - 7);
            lemma_next_turn_drawn(players, g.phase);
            let g1 = GameModel {
                players,
                deck: g.deck,
                phase: PhaseModel::AwaitingInfluenceLoss { player: target, next: Box::new(next_turn_phase(players, g.phase)) },
            };
            lemma_table_same(g1, g);
        },
        _ => {
            let paid = match mv {
                MoveModel::Assassinate { .. } => GameModel {
                    players: crate::rules::set_coins(g.players, p, g.players[p].coins - 3),
                    deck: g.deck,
                    phase: g.phase,
                },
                _ => g,
            };
            let kind = match mv {
                MoveModel::Tax => crate::state::ActionKind::Tax,
                MoveModel::Steal { target } => crate::state::ActionKind::Steal { target },
                MoveModel::Exchange => crate::state::ActionKind::Exchange,
                MoveModel::Assassinate { target } => crate::state::ActionKind::Assassinate { target },
                _ => crate::state::ActionKind::Tax,
            };
            let g0 = with_phase(paid, PhaseModel::AwaitingChallenge {
                action: DeclaredAction { actor: player, kind },
                responder_index: 0,
            });
            lemma_table_same(g0, g);
            lemma_settle_keeps(g, g0);
            assert(move_step(g, player, mv, shuffled) == Ok::<GameModel, crate::state::GameError>(declare(paid, player, kind)));
        },
    }
}

/// A challenge keeps every card: a proven claim swaps one card with the
/// reshuffled deck, and nothing else moves.
proof fn lemma_challenge_step_cards(g: GameModel, player: usize, shuffled: Seq<Card>)
    requires
        wf(g),
        player < g.players.len(),
        shuffle_ok(g, player, MoveModel::Challenge, shuffled),
        resolve_challenge(g, player, shuffled) is Ok,
    ensures
        step_keeps_cards(g, resolve_challenge(g, player, shuffled)->Ok_0),
{
    reveal_with_fuel(drawn_cards, 3);
    let g1 = resolve_challenge(g, player, shuffled)->Ok_0;
    match g.phase {
        PhaseModel::AwaitingChallenge { action, .. } => {
            assert(drawn_cards(g.phase) =~= Seq::<Card>::empty());
            let claim = crate::rules::spec_claim(action.kind)->Some_0;
            if g.players[action.actor as int].has_hidden(claim) {
                lemma_replace_claim_cards(g, action.actor as int, claim, shuffled);
                let g2 = crate::rules::replace_claim(g, action.actor as int, claim, shuffled);
                assert(drawn_cards(g2.phase) =~= Seq::<Card>::empty());
                lemma_action_effects_len(g2.players, action);
                let players = action_effects(g2.players, action);
                lemma_next_turn_drawn(players, g2.phase);
                assert(drawn_cards(followup_phase(players, g2.phase, action)) =~= Seq::<Card>::empty());
                lemma_table_same(g1, g2);
            } else {
                lemma_next_turn_drawn(g.players, g.phase);
                lemma_table_same(g1, g);
            }
        },
        PhaseModel::AwaitingBlockChallenge { action, blocker, block_card, .. } => {
            assert(drawn_cards(g.phase) =~= Seq::<Card>::empty());
            if g.players[blocker as int].has_hidden(block_card) {
                lemma_replace_claim_cards(g, blocker as int, block_card, shuffled);
                let g2 = crate::rules::replace_claim(g, blocker as int, block_card, shuffled);
                lemma_next_turn_drawn(g2.players, g2.phase);
                lemma_table_same(g1, g2);
            } else {
                lemma_action_effects_len(g.players, action);
                let players = action_effects(g.players, action);
                lemma_next_turn_drawn(players, g.phase);
                assert(drawn_cards(followup_phase(players, g.phase, action)) =~= Seq::<Card>::empty());
                lemma_table_same(g1, g);
            }
        },
        _ => {},
    }
}

/// Passing and blocking move no card.
proof fn lemma_response_step_cards(g: GameModel, player: usize, mv: MoveModel, shuffled: Seq<Card>)
    requires
        wf(g),
        player < g.players.len(),
        mv is PassChallenge || mv is Block || mv is PassBlock,
        move_step(g, player, mv, shuffled) is Ok,
    ensures
        step_keeps_cards(g, move_step(g, player, mv, shuffled)->Ok_0),
{
    reveal_with_fuel(drawn_cards, 2);
    match g.phase {
        PhaseModel::AwaitingChallenge { action, responder_index } => {
            assert(drawn_cards(g.phase) =~= Seq::<Card>::empty());
            let next = responder_index + 1;
            let g1 = if next < crate::rules::challenge_responders(g.players, action).len() {
                with_phase(g, PhaseModel::AwaitingChallenge { action, responder_index: next as usize })
            } else if crate::rules::block_responders(g.players, action).len() == 0 {
                lemma_execute_cards(g, action);
                lemma_action_effects_len(g.players, action);
                execute_action(g, action)
            } else {
                with_phase(g, PhaseModel::AwaitingBlock { action, responder_index: 0 })
            };
            lemma_table_same(with_phase(g, PhaseModel::AwaitingChallenge { action, responder_index: next as usize }), g);
            lemma_table_same(with_phase(g, PhaseModel::AwaitingBlock { action, responder_index: 0 }), g);
            lemma_settle_keeps(g, g1);
        },
        PhaseModel::AwaitingBlockChallenge { action, blocker, block_card, responder_index } => {
            assert(drawn_cards(g.phase) =~= Seq::<Card>::empty());
            let next = responder_index + 1;
            let bc = with_phase(g, PhaseModel::AwaitingBlockChallenge {
                action,
                blocker,
                block_card,
                responder_index: next as usize,
            });
            lemma_table_same(bc, g);
            lemma_next_turn_drawn(g.players, g.phase);
            let nt = with_phase(g, next_turn_phase(g.players, g.phase));
            lemma_table_same(nt, g);
            lemma_settle_keeps(g, nt);
            let g1 = if next < crate::rules::block_challenge_responders(g.players, blocker).len() {
                bc
            } else {
                settle(nt)
            };
            lemma_settle_keeps(g, g1);
        },
        PhaseModel::AwaitingBlock { action, responder_index } => {
            assert(drawn_cards(g.phase) =~= Seq::<Card>::empty());
            match mv {
                MoveModel::Block { claim } => {
                    let g0 = with_phase(g, PhaseModel::AwaitingBlockChallenge {
                        action,
                        blocker: player,
                        block_card: claim,
                        responder_index: 0,
                    });
                    lemma_table_same(g0, g);
                    lemma_settle_keeps(g, g0);
                },
                _ => {
                    let next = responder_index + 1;
                    let ab = with_phase(g, PhaseModel::AwaitingBlock { action, responder_index: next as usize });
                    lemma_table_same(ab, g);
                    lemma_execute_cards(g, action);
                    lemma_action_effects_len(g.players, action);
                    let g1 = if next < crate::rules::block_responders(g.players, action).len() {
                        ab
                    } else {
                        execute_action(g, action)
                    };
                    lemma_settle_keeps(g, g1);
                },
            }
        },
        _ => {},
    }
}

/// Turning a card face up moves no card.
proof fn lemma_reveal_step_cards(g: GameModel, player: usize, card_index: usize)
    requires
        wf(g),
        player < g.players.len(),
        reveal_influence(g, player, card_index) is Ok,
    ensures
        step_keeps_cards(g, reveal_influence(g, player, card_index)->Ok_0),
{
    let g1 = reveal_influence(g, player, card_index)->Ok_0;
    let infl = g.players[player as int].influence;
    let newp = PlayerModel {
        coins: g.players[player as int].coins,
        influence: infl.update(card_index as int, InfluenceCard { card: infl[card_index as int].card, revealed: true }),
    };
    assert(g1.players == g.players.update(player as int, newp));
    lemma_all_influence_update(g.players, player as int, newp);
    assert(influence_cards_of(newp.influence) =~= influence_cards_of(infl));
    let i0 = influence_cards_of(infl).to_multiset();
    let m1 = all_influence(g1.players).to_multiset();
    let m0 = all_influence(g.players).to_multiset();
    assert forall|x: Card| #[trigger] m1.count(x) == m0.count(x) by {
        assert(m1.add(i0).count(x) == m0.add(i0).count(x));
    }
    assert(m1 =~= m0);
    assert(table_cards(g1) =~= table_cards(g));
}

/// Every card stays in play: after any move the game accepts, the players'
/// influence cards (face up or down), the deck and the cards drawn for an
/// exchange are the same cards as before. This holds whenever the game goes
/// on, and also for a move that ends it, from any state where two players
/// or more live and drawn cards wait only for their exchanger to return
/// some (as in every game played from a deal).
pub proof fn law_move_keeps_cards(g: GameModel, player: usize, mv: MoveModel, shuffled: Seq<Card>)
    requires
        wf(g),
        shuffle_ok(g, player, mv, shuffled),
        apply(g, player, mv, shuffled) is Ok,
    ensures
        !(apply(g, player, mv, shuffled)->Ok_0.phase is Terminal) ==> table_cards(apply(g, player, mv, shuffled)->Ok_0)
            == table_cards(g),
        crate::rules::living(g.players).len() >= 2 && (drawn_cards(g.phase).len() > 0
            ==> g.phase is AwaitingExchangeReturn) ==> table_cards(apply(g, player, mv, shuffled)->Ok_0) == table_cards(g),
{
    let g1 = move_step(g, player, mv, shuffled)->Ok_0;
    if !(mv is ExchangeReturn) {
        crate::invariants::lemma_legal_move_facts(g, player, mv);
    }
    match mv {
        MoveModel::Challenge => {
            lemma_challenge_step_cards(g, player, shuffled);
        },
        MoveModel::PassChallenge | MoveModel::Block { .. } | MoveModel::PassBlock => {
            lemma_response_step_cards(g, player, mv, shuffled);
        },
        MoveModel::RevealInfluence { card_index } => {
            lemma_reveal_step_cards(g, player, card_index);
        },
        MoveModel::ExchangeReturn { keep } => {
            if let PhaseModel::AwaitingExchangeReturn { drawn, .. } = g.phase {
                let left = crate::rules::remove_all(crate::rules::exchange_pool(g, player, drawn), keep)->Some_0;
                lemma_exchange_return_cards(g, player, keep, shuffled, left);
                let players = g.players.update(
                    player as int,
                    PlayerModel {
                        coins: g.players[player as int].coins,
                        influence: assign_hidden(g.players[player as int].influence, keep),
                    },
                );
                let g0 = GameModel { players, deck: shuffled, phase: next_turn_phase(players, g.phase) };
                lemma_next_turn_drawn(players, g.phase);
                lemma_settle_keeps(g, g0);
            }
        },
        _ => {
            lemma_action_step_cards(g, player, mv, shuffled);
        },
    }
    assert(step_keeps_cards(g, g1));
    lemma_finish_cards(g1);
    if crate::rules::living(g.players).len() >= 2 && (drawn_cards(g.phase).len() > 0 ==> g.phase is AwaitingExchangeReturn) {
        if let MoveModel::RevealInfluence { card_index } = mv {
            assert(g1 == reveal_influence(g, player, card_index)->Ok_0);
            if let PhaseModel::AwaitingInfluenceLoss { next, .. } = g.phase {
                assert(drawn_cards(g.phase) == drawn_cards(*next));
                assert(drawn_cards(g1.phase).len() == 0);
            }
        } else {
            lemma_step_flags(g, player, mv, shuffled);
            lemma_flags_alive(g.players, g1.players);
            lemma_living_same(g.players, g1.players, -1, g.players.len());
            assert(crate::rules::only_living_player(g1.players) is None);
        }
    }
}

proof fn lemma_dealt_cards(shuffled: Seq<Card>, n: nat)
    requires
        2 * n <= shuffled.len(),
    ensures
        all_influence(crate::setup::deal(shuffled, n).players).to_multiset()
            == shuffled.subrange(shuffled.len() - 2 * n, shuffled.len() as int).to_multiset(),
    decreases n,
{
    broadcast use vstd::seq_lib::group_to_multiset_ensures;
    broadcast use vstd::seq_lib::lemma_multiset_commutative;
    broadcast use vstd::multiset::group_multiset_axioms;
    let len = shuffled.len() as int;
    let players = crate::setup::deal(shuffled, n).players;
    if n == 0 {
        assert(all_influence(players) =~= Seq::<Card>::empty());
        assert(shuffled.subrange(len, len) =~= Seq::<Card>::empty());
    } else {
        lemma_dealt_cards(shuffled, (n - 1) as nat);
        assert(players.drop_last() =~= crate::setup::deal(shuffled, (n - 1) as nat).players);
        let top = len - 1;
        let k = n - 1;
        let pair = influence_cards_of(players.last().influence);
        assert(pair =~= seq![shuffled[top - 2 * k], shuffled[top - 2 * k - 1]]);
        let hi = shuffled.subrange(len - 2 * k, len);
        let all = shuffled.subrange(len - 2 * n, len);
        assert(all =~= seq![shuffled[top - 2 * k - 1], shuffled[top - 2 * k]] + hi);
        assert(seq![shuffled[top - 2 * k - 1], shuffled[top - 2 * k]].to_multiset() =~= pair.to_multiset()) by {
            assert(pair =~= Seq::<Card>::empty().push(shuffled[top - 2 * k]).push(shuffled[top - 2 * k - 1]));
            assert(seq![shuffled[top - 2 * k - 1], shuffled[top - 2 * k]] =~= Seq::<Card>::empty().push(
                shuffled[top - 2 * k - 1],
            ).push(shuffled[top - 2 * k]));
            assert(Seq::<Card>::empty().to_multiset() =~= Multiset::<Card>::empty());
        }
        assert(all_influence(players) == all_influence(players.drop_last()) + pair);
        assert(all_influence(players).to_multiset() == all_influence(players.drop_last()).to_multiset().add(pair.to_multiset()));
        assert((seq![shuffled[top - 2 * k - 1], shuffled[top - 2 * k]] + hi).to_multiset()
            == seq![shuffled[top - 2 * k - 1], shuffled[top - 2 * k]].to_multiset().add(hi.to_multiset()));
        assert(all_influence(players).to_multiset() =~= all.to_multiset());
    }
}

/// A new game deals from the court deck: the hands and the deck together
/// hold exactly the court's cards, three of each character.
pub proof fn law_new_game_deals_court(shuffled: Seq<Card>, player_count: nat)
    requires
        shuffled.to_multiset() == crate::rules::court(),
        shuffled.len() == 15,
        2 <= player_count <= 6,
    ensures
        table_cards(crate::setup::deal(shuffled, player_count)) == crate::rules::court(),
{
    broadcast use vstd::seq_lib::group_to_multiset_ensures;
    broadcast use vstd::seq_lib::lemma_multiset_commutative;
    broadcast use vstd::multiset::group_multiset_axioms;
    let g = crate::setup::deal(shuffled, player_count);
    lemma_dealt_cards(shuffled, player_count);
    let cut = 15 - 2 * player_count;
    assert(shuffled =~= shuffled.take(cut) + shuffled.subrange(cut, 15));
    assert(drawn_cards(g.phase) =~= Seq::<Card>::empty());
    assert(Seq::<Card>::empty().to_multiset() =~= Multiset::<Card>::empty());
    assert((shuffled.take(cut) + shuffled.subrange(cut, 15)).to_multiset()
        == shuffled.take(cut).to_multiset().add(shuffled.subrange(cut, 15).to_multiset()));
    assert(table_cards(g) =~= crate::rules::court());
}

// ---------------------------------------------------------------------------
// Legal moves

proof fn lemma_reveal_moves_valid(s: Seq<InfluenceCard>)
    requires
        s.len() <= usize::MAX,
    ensures
        forall|i: int| 0 <= i < crate::rules::reveal_moves(s).len() ==> ((#[trigger] crate::rules::reveal_moves(s)[i]) matches MoveModel::RevealInfluence { card_index }
            && card_index < s.len() && !s[card_index as int].revealed),
    decreases s.len(),
{
    if s.len() > 0 {
        lemma_reveal_moves_valid(s.drop_last());
        let r = crate::rules::reveal_moves(s);
        let r0 = crate::rules::reveal_moves(s.drop_last());
        assert forall|i: int| 0 <= i < r.len() implies ((#[trigger] r[i]) matches MoveModel::RevealInfluence { card_index }
            && card_index < s.len() && !s[card_index as int].revealed) by {
            if i < r0.len() {
                assert(r[i] == r0[i]);
                if let MoveModel::RevealInfluence { card_index } = r0[i] {
                    assert(s.drop_last()[card_index as int] == s[card_index as int]);
                }
            }
        }
    }
}

proof fn lemma_legal_reveal_ok(g: GameModel, player: usize, card_index: usize)
    requires
        wf(g),
        crate::rules::legal_moves(g, player).contains(MoveModel::RevealInfluence { card_index }),
    ensures
        reveal_influence(g, player, card_index) is Ok,
{
    let mv = MoveModel::RevealInfluence { card_index };
    let lm = crate::rules::legal_moves(g, player);
    let i = choose|i: int| 0 <= i < lm.len() && lm[i] == mv;
    assert(player < g.players.len());
    assert(g.players[player as int].influence.len() <= 64);
    match g.phase {
        PhaseModel::AwaitingInfluenceLoss { player: loser, .. } => {
            lemma_reveal_moves_valid(g.players[player as int].influence);
            assert(lm[i] == mv);
        },
        PhaseModel::AwaitingBlock { action, .. } => {
            assert(lm == crate::rules::legal_blocks(action));
        },
        PhaseModel::AwaitingAction { .. } => {
            crate::invariants::lemma_legal_actions_ok(g.players, player);
            assert(crate::invariants::action_move_ok(g.players, player, lm[i]));
        },
        _ => {},
    }
}

#[verifier::spinoff_prover]
proof fn lemma_legal_step_ok(g: GameModel, player: usize, mv: MoveModel, shuffled: Seq<Card>)
    requires
        wf(g),
        !(mv is ExchangeReturn),
        crate::rules::legal_moves(g, player).contains(mv),
    ensures
        move_step(g, player, mv, shuffled) is Ok,
{
    crate::invariants::lemma_legal_move_facts(g, player, mv);
    match mv {
        MoveModel::RevealInfluence { card_index } => {
            lemma_legal_reveal_ok(g, player, card_index);
        },
        MoveModel::Challenge => {
            assert(resolve_challenge(g, player, shuffled) is Ok);
        },
        MoveModel::PassChallenge => {
            assert(pass_challenge(g) is Ok);
        },
        MoveModel::Block { claim } => {
            assert(start_block_challenge(g, player, claim) is Ok);
        },
        MoveModel::PassBlock => {
            assert(pass_block(g) is Ok);
        },
        _ => {},
    }
}

proof fn lemma_legal_exchange_ok(g: GameModel, player: usize, keep: Seq<Card>, shuffled: Seq<Card>)
    requires
        wf(g),
        crate::rules::legal_moves(g, player).contains(MoveModel::ExchangeReturn { keep }),
    ensures
        exchange_return(g, player, keep, shuffled) is Ok,
{
    let mv = MoveModel::ExchangeReturn { keep };
    let lm = crate::rules::legal_moves(g, player);
    let i = choose|i: int| 0 <= i < lm.len() && lm[i] == mv;
    match g.phase {
        PhaseModel::AwaitingExchangeReturn { player: actor, drawn } => {
            let infl = g.players[player as int].influence;
            let pool = hidden_cards_of(infl) + drawn;
            let k = g.players[player as int].hidden_count();
            let hands = crate::rules::spec_combinations(pool, k);
            assert(lm == crate::rules::exchange_moves(hands));
            assert(hands[i] == keep);
            crate::hands::lemma_combinations_len(pool, k);
            crate::hands::lemma_combinations_within(pool, k);
            assert(crate::hands::within(hands[i], pool));
            lemma_remove_all_some(pool, keep);
            assert(crate::rules::exchange_pool(g, player, drawn) == pool);
        },
        PhaseModel::AwaitingAction { .. } => {
            crate::invariants::lemma_legal_actions_ok(g.players, player);
            assert(crate::invariants::action_move_ok(g.players, player, lm[i]));
        },
        PhaseModel::AwaitingInfluenceLoss { .. } => {
            lemma_reveal_moves_valid(g.players[player as int].influence);
            assert(lm[i] is RevealInfluence);
        },
        PhaseModel::AwaitingBlock { action, .. } => {
            assert(lm == crate::rules::legal_blocks(action));
        },
        _ => {},
    }
}

/// The legal moves are moves the game accepts, and outside the return of
/// cards after an exchange they are the only ones: an exchanger may name
/// the kept cards in any order, while the legal moves list each choice once,
/// rank-sorted.
pub proof fn law_legal_moves_accepted(g: GameModel, player: usize, mv: MoveModel, shuffled: Seq<Card>)
    requires
        wf(g),
    ensures
        crate::rules::legal_moves(g, player).contains(mv) ==> apply(g, player, mv, shuffled) is Ok,
        !(mv is ExchangeReturn) ==> (apply(g, player, mv, shuffled) is Ok ==> crate::rules::legal_moves(g, player).contains(mv)),
{
    if crate::rules::legal_moves(g, player).contains(mv) {
        let lm = crate::rules::legal_moves(g, player);
        assert(player < g.players.len());
        assert(!(g.phase is Terminal));
        if let MoveModel::ExchangeReturn { keep } = mv {
            lemma_legal_exchange_ok(g, player, keep, shuffled);
        } else {
            lemma_legal_step_ok(g, player, mv, shuffled);
        }
    }
}

// ---------------------------------------------------------------------------
// Observations

proof fn lemma_face_cards(x: Seq<Card>, y: Seq<Card>)
    ensures
        hidden_cards_of(crate::setup::face_down(x) + crate::setup::face_up(y)) == x,
        crate::rules::revealed_cards_of(crate::setup::face_down(x) + crate::setup::face_up(y)) == y,
        crate::rules::hidden_count_of(crate::setup::face_down(x) + crate::setup::face_up(y)) == x.len(),
    decreases x.len() + y.len(),
{
    let s = crate::setup::face_down(x) + crate::setup::face_up(y);
    if y.len() > 0 {
        lemma_face_cards(x, y.drop_last());
        assert(s.drop_last() =~= crate::setup::face_down(x) + crate::setup::face_up(y.drop_last()));
        assert(y.drop_last().push(y.last()) =~= y);
    } else if x.len() > 0 {
        lemma_face_cards(x.drop_last(), y);
        assert(s.drop_last() =~= crate::setup::face_down(x.drop_last()) + crate::setup::face_up(y));
        assert(x.drop_last().push(x.last()) =~= x);
        assert(s.last() == InfluenceCard { card: x.last(), revealed: false });
    } else {
        assert(s.len() == 0);
        assert(hidden_cards_of(s) =~= x);
        assert(crate::rules::revealed_cards_of(s) =~= y);
    }
}

proof fn lemma_living_same(a: Seq<PlayerModel>, b: Seq<PlayerModel>, except: int, n: nat)
    requires
        n <= a.len(),
        a.len() == b.len(),
        forall|i: int| 0 <= i < a.len() ==> (#[trigger] a[i]).alive() == b[i].alive(),
    ensures
        crate::rules::living_others(a, except, n) == crate::rules::living_others(b, except, n),
    decreases n,
{
    if n > 0 {
        lemma_living_same(a, b, except, (n - 1) as nat);
    }
}

/// Two tables whose seats agree on coins and on who is alive.
spec fn same_seats(a: Seq<PlayerModel>, b: Seq<PlayerModel>) -> bool {
    &&& a.len() == b.len()
    &&& forall|j: int| 0 <= j < a.len() ==> (#[trigger] a[j]).coins == b[j].coins && a[j].alive() == b[j].alive()
}

/// Two phases a viewer cannot tell apart are of the same kind, name the
/// same players, and differ only in the drawn cards of an exchange.
proof fn lemma_masked_same_kind(p: PhaseModel, q: PhaseModel, viewer: usize)
    requires
        masked_phase(p, viewer) == masked_phase(q, viewer),
    ensures
        !(p is AwaitingInfluenceLoss) && !(p is AwaitingExchangeReturn) ==> p == q,
        p matches PhaseModel::AwaitingInfluenceLoss { player, .. } ==> q matches PhaseModel::AwaitingInfluenceLoss {
            player: other,
            ..
        } && other == player,
        p matches PhaseModel::AwaitingExchangeReturn { player, drawn } ==> q matches PhaseModel::AwaitingExchangeReturn {
            player: other,
            drawn: other_drawn,
        } && other == player && (player == viewer ==> other_drawn == drawn),
{
    match p {
        PhaseModel::AwaitingInfluenceLoss { .. } => {
            match q {
                PhaseModel::AwaitingInfluenceLoss { .. } => {},
                _ => { assert(masked_phase(q, viewer) == q); },
            }
        },
        PhaseModel::AwaitingExchangeReturn { .. } => {
            match q {
                PhaseModel::AwaitingExchangeReturn { .. } => {},
                _ => { assert(masked_phase(q, viewer) == q); },
            }
        },
        _ => {
            assert(masked_phase(p, viewer) == p);
            match q {
                PhaseModel::AwaitingInfluenceLoss { .. } => {},
                PhaseModel::AwaitingExchangeReturn { .. } => {},
                _ => { assert(masked_phase(q, viewer) == q); },
            }
        },
    }
}

/// Whose decision is awaited depends on the coins, who is alive and what
/// a viewer sees of the phase only.
proof fn lemma_active_same(a: GameModel, b: GameModel, viewer: usize)
    requires
        same_seats(a.players, b.players),
        masked_phase(a.phase, viewer) == masked_phase(b.phase, viewer),
        phase_ok(a.players.len(), a.phase),
    ensures
        crate::rules::active_player(a) == crate::rules::active_player(b),
{
    lemma_masked_same_kind(a.phase, b.phase, viewer);
    lemma_living_same(a.players, b.players, -1, a.players.len());
    match a.phase {
        PhaseModel::AwaitingChallenge { action, .. } => {
            lemma_living_same(a.players, b.players, action.actor as int, a.players.len());
        },
        PhaseModel::AwaitingBlock { action, .. } => {
            lemma_living_same(a.players, b.players, action.actor as int, a.players.len());
        },
        PhaseModel::AwaitingBlockChallenge { blocker, .. } => {
            lemma_living_same(a.players, b.players, blocker as int, a.players.len());
        },
        _ => {},
    }
}

/// A hand that lists its face-down cards before its face-up ones.
pub open spec fn face_down_first(s: Seq<InfluenceCard>) -> bool {
    s == crate::setup::face_down(hidden_cards_of(s)) + crate::setup::face_up(crate::rules::revealed_cards_of(s))
}

/// What a viewer may do depends on the coins, who is alive, the viewer's
/// face-down cards, what the viewer sees of the phase, and, when a card
/// must be turned up, on the viewer's hand as it lies.
proof fn lemma_choices_same(a: GameModel, b: GameModel, viewer: usize)
    requires
        same_seats(a.players, b.players),
        viewer < a.players.len(),
        hidden_cards_of(a.players[viewer as int].influence) == hidden_cards_of(b.players[viewer as int].influence),
        a.players[viewer as int].hidden_count() == b.players[viewer as int].hidden_count(),
        masked_phase(a.phase, viewer) is AwaitingInfluenceLoss ==> a.players[viewer as int].influence
            == b.players[viewer as int].influence,
        masked_phase(a.phase, viewer) == masked_phase(b.phase, viewer),
        phase_ok(a.players.len(), a.phase),
    ensures
        crate::rules::legal_moves(a, viewer) == crate::rules::legal_moves(b, viewer),
{
    lemma_active_same(a, b, viewer);
    lemma_masked_same_kind(a.phase, b.phase, viewer);
    lemma_living_same(a.players, b.players, viewer as int, a.players.len());
    assert(crate::rules::legal_actions(a.players, viewer) == crate::rules::legal_actions(b.players, viewer));
}

/// The seats of a determinization: the same coins, the same number of
/// face-down cards, the same face-up cards, the viewer's own face-down
/// cards (the whole hand, when it lists its face-down cards first), and a
/// phase the viewer cannot tell from the real one.
proof fn lemma_determinized_seats(g: GameModel, viewer: usize, shuffled: Seq<Card>)
    requires
        wf(g),
        viewer < g.players.len(),
        drawn_cards(g.phase).len() <= usize::MAX,
    ensures
        ({
            let d = determinized(observe(g, viewer), shuffled);
            &&& same_seats(d.players, g.players)
            &&& forall|j: int| 0 <= j < g.players.len() ==> (#[trigger] d.players[j]).hidden_count() == g.players[j].hidden_count()
                && crate::rules::revealed_cards_of(d.players[j].influence) == crate::rules::revealed_cards_of(g.players[j].influence)
            &&& hidden_cards_of(d.players[viewer as int].influence) == hidden_cards_of(g.players[viewer as int].influence)
            &&& face_down_first(g.players[viewer as int].influence) ==> d.players[viewer as int].influence
                == g.players[viewer as int].influence
            &&& masked_phase(d.phase, viewer) == masked_phase(g.phase, viewer)
            &&& hidden_drawn_count(d.phase, viewer) == hidden_drawn_count(g.phase, viewer)
        }),
{
    let o = observe(g, viewer);
    let d = determinized(o, shuffled);
    assert forall|j: int| 0 <= j < g.players.len() implies {
        &&& (#[trigger] d.players[j]).coins == g.players[j].coins
        &&& d.players[j].hidden_count() == g.players[j].hidden_count()
        &&& crate::rules::revealed_cards_of(d.players[j].influence) == crate::rules::revealed_cards_of(g.players[j].influence)
        &&& d.players[j].alive() == g.players[j].alive()
        &&& (j == viewer ==> hidden_cards_of(d.players[j].influence) == hidden_cards_of(g.players[j].influence))
    } by {
        crate::rules::lemma_hidden_count_is_len(g.players[j].influence);
        assert(g.players[j].influence.len() <= 64);
        let rev = o.players[j].revealed;
        if j == viewer {
            lemma_face_cards(o.own_hidden_cards, rev);
            assert(o.own_hidden_cards.len() == g.players[j].hidden_count());
        } else {
            let dealt = crate::setup::dealt_before(o, j as nat);
            let cnt = o.players[j].hidden_influence as nat;
            lemma_face_cards(crate::setup::popped(shuffled, dealt, cnt), rev);
        }
    }
    let extra = crate::setup::popped(
        shuffled,
        (crate::setup::dealt_before(o, o.players.len()) + o.deck_size) as nat,
        o.hidden_drawn as nat,
    );
    lemma_masked_phase(g.phase, viewer, g.players.len(), g.players);
    lemma_mask_refill(g.phase, viewer, extra);
}

/// A determinization looks to its viewer exactly like the real game: for
/// any order of the cards the viewer cannot see, the game rebuilt from what
/// a player observes gives that player the very same observation.
pub proof fn law_determinization_looks_the_same(g: GameModel, viewer: usize, shuffled: Seq<Card>)
    requires
        wf(g),
        viewer < g.players.len(),
        g.deck.len() <= usize::MAX,
        drawn_cards(g.phase).len() <= usize::MAX,
    ensures
        observe(determinized(observe(g, viewer), shuffled), viewer) == observe(g, viewer),
{
    let o = observe(g, viewer);
    let d = determinized(o, shuffled);
    let od = observe(d, viewer);
    lemma_determinized_seats(g, viewer, shuffled);
    assert(od.players =~= o.players);
    lemma_active_same(g, d, viewer);
}

/// A determinization offers its viewer the same choices as the real game.
/// A determinization lists the viewer's face-down cards before the face-up
/// ones, so when the viewer must turn a card up this holds where the real
/// hand lies that way too; otherwise the positions offered can differ.
pub proof fn law_determinization_same_choices(g: GameModel, viewer: usize, shuffled: Seq<Card>)
    requires
        wf(g),
        viewer < g.players.len(),
        drawn_cards(g.phase).len() <= usize::MAX,
        g.phase is AwaitingInfluenceLoss ==> face_down_first(g.players[viewer as int].influence),
    ensures
        crate::rules::legal_moves(determinized(observe(g, viewer), shuffled), viewer)
            == crate::rules::legal_moves(g, viewer),
{
    lemma_determinized_seats(g, viewer, shuffled);
    lemma_masked_phase(g.phase, viewer, g.players.len(), g.players);
    lemma_choices_same(g, determinized(observe(g, viewer), shuffled), viewer);
}

/// What a player observes depends on public facts and their own hand only:
/// two games that agree on every seat's coins, number of face-down cards
/// and face-up cards, on the viewer's face-down cards, on the size of the deck, on
/// the phase up to the cards another player has drawn for an exchange, and
/// on how many cards were drawn, look the same to that viewer.
pub proof fn law_observation_hides_other_hands(a: GameModel, b: GameModel, viewer: usize)
    requires
        wf(a),
        viewer < a.players.len(),
        a.players.len() == b.players.len(),
        forall|j: int| 0 <= j < a.players.len() ==> (#[trigger] a.players[j]).coins == b.players[j].coins
            && a.players[j].hidden_count() == b.players[j].hidden_count()
            && crate::rules::revealed_cards_of(a.players[j].influence) == crate::rules::revealed_cards_of(b.players[j].influence),
        hidden_cards_of(a.players[viewer as int].influence) == hidden_cards_of(b.players[viewer as int].influence),
        a.deck.len() == b.deck.len(),
        masked_phase(a.phase, viewer) == masked_phase(b.phase, viewer),
        drawn_cards(a.phase).len() == drawn_cards(b.phase).len(),
    ensures
        observe(a, viewer) == observe(b, viewer),
{
    lemma_active_same(a, b, viewer);
    lemma_masked_phase(a.phase, viewer, a.players.len(), a.players);
    lemma_masked_phase(b.phase, viewer, a.players.len(), a.players);
    assert(observe(a, viewer).players =~= observe(b, viewer).players);
}

// ---------------------------------------------------------------------------
// Turn actions

/// A player with ten coins or more must coup: every move offered on their
/// turn is a coup.
pub proof fn law_ten_coins_must_coup(g: GameModel, player: usize)
    requires
        wf(g),
        g.phase == (PhaseModel::AwaitingAction { actor: player }),
        player < g.players.len(),
        g.players[player as int].coins >= 10,
    ensures
        forall|i: int| 0 <= i < crate::rules::legal_moves(g, player).len() ==> (#[trigger] crate::rules::legal_moves(g, player)[i]) is Coup,
{
    crate::invariants::lemma_legal_actions_ok(g.players, player);
}

/// Every action offered on a turn is affordable and aimed, if at anyone, at
/// a living opponent: an assassination costs three coins, a coup seven, and
/// no action targets the actor or a player out of the game.
pub proof fn law_actions_aim_at_living_opponents(g: GameModel, player: usize)
    requires
        wf(g),
        player < g.players.len(),
        g.phase == (PhaseModel::AwaitingAction { actor: player }),
    ensures
        forall|i: int| 0 <= i < crate::rules::legal_moves(g, player).len() ==> {
            let mv = #[trigger] crate::rules::legal_moves(g, player)[i];
            let coins = g.players[player as int].coins;
            &&& mv matches MoveModel::Assassinate { target } ==> coins >= 3 && target != player && target < g.players.len()
                && g.players[target as int].alive()
            &&& mv matches MoveModel::Steal { target } ==> target != player && target < g.players.len() && g.players[target as int].alive()
            &&& mv matches MoveModel::Coup { target } ==> coins >= 7 && target != player && target < g.players.len()
                && g.players[target as int].alive()
        },
{
    crate::invariants::lemma_legal_actions_ok(g.players, player);
}

// ---------------------------------------------------------------------------
// Determinizing real observations

/// The face-down cards of every player but `viewer`, in seat order.
pub open spec fn others_hidden(players: Seq<PlayerModel>, viewer: int) -> Seq<Card>
    decreases players.len(),
{
    if players.len() == 0 {
        seq![]
    } else if players.len() - 1 == viewer {
        others_hidden(players.drop_last(), viewer)
    } else {
        others_hidden(players.drop_last(), viewer) + hidden_cards_of(players.last().influence)
    }
}

proof fn lemma_influence_split(s: Seq<InfluenceCard>)
    ensures
        influence_cards_of(s).to_multiset() == hidden_cards_of(s).to_multiset().add(
            crate::rules::revealed_cards_of(s).to_multiset(),
        ),
    decreases s.len(),
{
    broadcast use vstd::seq_lib::group_to_multiset_ensures;
    broadcast use vstd::multiset::group_multiset_axioms;
    if s.len() == 0 {
        assert(influence_cards_of(s) =~= Seq::<Card>::empty());
        assert(Seq::<Card>::empty().to_multiset() =~= Multiset::<Card>::empty());
        assert(influence_cards_of(s).to_multiset() =~= hidden_cards_of(s).to_multiset().add(
            crate::rules::revealed_cards_of(s).to_multiset(),
        ));
    } else {
        lemma_influence_split(s.drop_last());
        assert(influence_cards_of(s) =~= influence_cards_of(s.drop_last()).push(s.last().card));
        assert(influence_cards_of(s).to_multiset() =~= hidden_cards_of(s).to_multiset().add(
            crate::rules::revealed_cards_of(s).to_multiset(),
        ));
    }
}

/// Removing cards one by one succeeds when every card to remove is there
/// often enough.
proof fn lemma_remove_all_some(available: Seq<Card>, keep: Seq<Card>)
    requires
        forall|x: Card| #[trigger] keep.to_multiset().count(x) <= available.to_multiset().count(x),
    ensures
        crate::rules::remove_all(available, keep) is Some,
    decreases keep.len(),
{
    broadcast use vstd::seq_lib::group_to_multiset_ensures;
    broadcast use vstd::multiset::group_multiset_axioms;
    if keep.len() > 0 {
        let k0 = keep[0];
        assert(keep.contains(k0));
        assert(keep.to_multiset().count(k0) > 0);
        assert(available.to_multiset().count(k0) > 0);
        assert(available.contains(k0));
        let i = crate::cards::first_index(available, k0);
        crate::cards::lemma_first_index(available, k0);
        let rest = available.remove(i);
        let krest = keep.drop_first();
        assert(keep =~= krest.insert(0, k0));
        assert(keep.to_multiset() == krest.to_multiset().insert(k0));
        assert(rest.to_multiset() == available.to_multiset().remove(k0));
        assert forall|x: Card| #[trigger] krest.to_multiset().count(x) <= rest.to_multiset().count(x) by {
            assert(keep.to_multiset().count(x) <= available.to_multiset().count(x));
        }
        lemma_remove_all_some(rest, krest);
    }
}

proof fn lemma_observed_prefix(g: GameModel, viewer: usize, j: nat)
    requires
        wf(g),
        viewer < g.players.len(),
        j <= g.players.len(),
    ensures
        ({
            let o = crate::setup::observe(g, viewer);
            let own = if viewer < j { o.own_hidden_cards } else { Seq::<Card>::empty() };
            &&& all_influence(g.players.take(j as int)).to_multiset() == crate::setup::all_revealed(
                o.players.take(j as int),
            ).to_multiset().add(others_hidden(g.players.take(j as int), viewer as int).to_multiset()).add(own.to_multiset())
            &&& others_hidden(g.players.take(j as int), viewer as int).len() == crate::setup::dealt_before(o, j)
        }),
    decreases j,
{
    broadcast use vstd::seq_lib::group_to_multiset_ensures;
    broadcast use vstd::seq_lib::lemma_multiset_commutative;
    broadcast use vstd::multiset::group_multiset_axioms;
    let o = crate::setup::observe(g, viewer);
    let gp = g.players.take(j as int);
    let op = o.players.take(j as int);
    if j == 0 {
        assert(gp =~= Seq::<PlayerModel>::empty());
        assert(op.len() == 0);
        assert(all_influence(gp) =~= Seq::<Card>::empty());
        assert(crate::setup::all_revealed(op) =~= Seq::<Card>::empty());
        assert(others_hidden(gp, viewer as int) =~= Seq::<Card>::empty());
        assert(Seq::<Card>::empty().to_multiset() =~= Multiset::<Card>::empty());
        assert(all_influence(gp).to_multiset() =~= crate::setup::all_revealed(op).to_multiset().add(
            others_hidden(gp, viewer as int).to_multiset(),
        ).add(Seq::<Card>::empty().to_multiset()));
    } else {
        let k = (j - 1) as nat;
        lemma_observed_prefix(g, viewer, k);
        let gq = g.players.take(k as int);
        let oq = o.players.take(k as int);
        assert(gp.drop_last() =~= gq);
        assert(op.drop_last() =~= oq);
        let p = g.players[k as int];
        assert(gp.last() == p);
        assert(op.last() == o.players[k as int]);
        let hid = hidden_cards_of(p.influence);
        let rev = crate::rules::revealed_cards_of(p.influence);
        lemma_influence_split(p.influence);
        crate::rules::lemma_hidden_count_is_len(p.influence);
        assert(p.influence.len() <= 64);
        assert(o.players[k as int].revealed == rev);
        assert(o.players[k as int].hidden_influence as nat == hid.len());
        assert(all_influence(gp) == all_influence(gq) + influence_cards_of(p.influence));
        assert(crate::setup::all_revealed(op) == crate::setup::all_revealed(oq) + rev);
        let ohq = others_hidden(gq, viewer as int);
        let aq = all_influence(gq).to_multiset();
        let rq = crate::setup::all_revealed(oq).to_multiset();
        let ownq = if viewer < k { o.own_hidden_cards } else { Seq::<Card>::empty() };
        let own = if viewer < j { o.own_hidden_cards } else { Seq::<Card>::empty() };
        assert(aq == rq.add(ohq.to_multiset()).add(ownq.to_multiset()));
        assert(all_influence(gp).to_multiset() == aq.add(influence_cards_of(p.influence).to_multiset()));
        assert(crate::setup::all_revealed(op).to_multiset() == rq.add(rev.to_multiset()));
        if k == viewer {
            assert(others_hidden(gp, viewer as int) == ohq);
            assert(o.own_hidden_cards == hid);
            assert(Seq::<Card>::empty().to_multiset() =~= Multiset::<Card>::empty());
        } else {
            assert(others_hidden(gp, viewer as int) == ohq + hid);
            assert((ohq + hid).to_multiset() == ohq.to_multiset().add(hid.to_multiset()));
        }
        assert(all_influence(gp).to_multiset() =~= crate::setup::all_revealed(op).to_multiset().add(
            others_hidden(gp, viewer as int).to_multiset(),
        ).add(own.to_multiset()));
    }
}

/// Every real observation can be determinized: in a game holding the court
/// deck's cards, the cards a player sees are all in the court deck, and
/// enough cards remain unseen for the other hands and the deck.
pub proof fn law_real_observations_determinize(g: GameModel, viewer: usize)
    requires
        wf(g),
        viewer < g.players.len(),
        g.deck.len() <= usize::MAX,
        drawn_cards(g.phase).len() <= usize::MAX,
        table_cards(g) == crate::rules::court(),
    ensures
        crate::setup::unseen_cards(observe(g, viewer)) matches Some(unseen)
            && crate::setup::enough_unseen(observe(g, viewer), unseen),
{
    broadcast use vstd::seq_lib::group_to_multiset_ensures;
    broadcast use vstd::seq_lib::lemma_multiset_commutative;
    broadcast use vstd::multiset::group_multiset_axioms;
    let o = observe(g, viewer);
    let n = g.players.len();
    lemma_observed_prefix(g, viewer, n);
    lemma_masked_phase(g.phase, viewer, n, g.players);
    assert(g.players.take(n as int) =~= g.players);
    assert(o.players.take(n as int) =~= o.players);
    let r = crate::setup::all_revealed(o.players);
    let own = o.own_hidden_cards;
    let oh = others_hidden(g.players, viewer as int);
    let vis = drawn_cards(o.phase);
    let hid = if hidden_drawn_count(g.phase, viewer) == 0 { Seq::<Card>::empty() } else { drawn_cards(g.phase) };
    assert(drawn_cards(g.phase).to_multiset() =~= vis.to_multiset().add(hid.to_multiset())) by {
        assert(Seq::<Card>::empty().to_multiset() =~= Multiset::<Card>::empty());
        if hidden_drawn_count(g.phase, viewer) == 0 && vis.len() == 0 {
            assert(drawn_cards(g.phase) =~= Seq::<Card>::empty());
        }
    }
    assert(hid.len() == hidden_drawn_count(g.phase, viewer));
    let keep = r + own + vis;
    let rest = oh + g.deck + hid;
    let court_deck = crate::cards::spec_standard_deck();
    assert(keep.to_multiset() == r.to_multiset().add(own.to_multiset()).add(vis.to_multiset())) by {
        assert((r + own).to_multiset() == r.to_multiset().add(own.to_multiset()));
    }
    assert(rest.to_multiset() == oh.to_multiset().add(g.deck.to_multiset()).add(hid.to_multiset())) by {
        assert((oh + g.deck).to_multiset() == oh.to_multiset().add(g.deck.to_multiset()));
    }
    assert(court_deck.to_multiset() == crate::rules::court());
    assert(court_deck.to_multiset() =~= keep.to_multiset().add(rest.to_multiset()));
    assert forall|x: Card| #[trigger] keep.to_multiset().count(x) <= court_deck.to_multiset().count(x) by {
        assert(court_deck.to_multiset().count(x) == keep.to_multiset().count(x) + rest.to_multiset().count(x));
    }
    lemma_remove_all_some(court_deck, keep);
    crate::invariants::lemma_remove_all(court_deck, keep);
    let unseen = crate::rules::remove_all(court_deck, keep)->Some_0;
    assert(unseen.to_multiset() =~= rest.to_multiset()) by {
        assert forall|x: Card| #[trigger] unseen.to_multiset().count(x) == rest.to_multiset().count(x) by {
            assert(court_deck.to_multiset().count(x) == unseen.to_multiset().count(x) + keep.to_multiset().count(x));
            assert(court_deck.to_multiset().count(x) == keep.to_multiset().count(x) + rest.to_multiset().count(x));
        }
    }
    assert(unseen.len() == rest.len()) by {
        vstd::seq_lib::to_multiset_len(unseen);
        vstd::seq_lib::to_multiset_len(rest);
    }
    assert(o.deck_size == g.deck.len());
}

proof fn lemma_reveal_moves_len(s: Seq<InfluenceCard>)
    ensures
        crate::rules::reveal_moves(s).len() == crate::rules::hidden_count_of(s),
    decreases s.len(),
{
    if s.len() > 0 {
        lemma_reveal_moves_len(s.drop_last());
    }
}

/// Bots always have an answer in a real game: when the awaited player has
/// a legal move, every full state consistent with what any player observes
/// can be built and offers its awaited player a legal move too.
pub proof fn law_real_observations_playable(g: GameModel, viewer: usize)
    requires
        wf(g),
        viewer < g.players.len(),
        g.deck.len() <= usize::MAX,
        drawn_cards(g.phase).len() <= usize::MAX,
        table_cards(g) == crate::rules::court(),
        crate::rules::active_player(g) matches Some(p) && crate::rules::legal_moves(g, p).len() > 0,
    ensures
        crate::setup::always_playable(observe(g, viewer)),
{
    let o = observe(g, viewer);
    law_real_observations_determinize(g, viewer);
    let p = crate::rules::active_player(g)->Some_0;
    assert forall|shuffled: Seq<Card>| #[trigger] crate::setup::consistent_deal(o, shuffled) implies {
        let d = determinized(o, shuffled);
        crate::rules::active_player(d) matches Some(q) && crate::rules::legal_moves(d, q).len() > 0
    } by {
        let d = determinized(o, shuffled);
        lemma_determinized_seats(g, viewer, shuffled);
        lemma_active_same(g, d, viewer);
        lemma_masked_same_kind(g.phase, d.phase, viewer);
        assert(crate::rules::active_player(d) == Some(p));
        match g.phase {
            PhaseModel::AwaitingAction { .. } => {
                lemma_living_same(d.players, g.players, p as int, g.players.len());
                assert(crate::rules::legal_actions(d.players, p) == crate::rules::legal_actions(g.players, p));
            },
            PhaseModel::AwaitingInfluenceLoss { .. } => {
                lemma_reveal_moves_len(g.players[p as int].influence);
                lemma_reveal_moves_len(d.players[p as int].influence);
            },
            PhaseModel::AwaitingExchangeReturn { .. } => {
                let drawn = drawn_cards(d.phase);
                let infl = d.players[p as int].influence;
                crate::rules::lemma_hidden_count_is_len(infl);
                crate::hands::lemma_combinations_nonempty(hidden_cards_of(infl) + drawn, d.players[p as int].hidden_count());
            },
            PhaseModel::AwaitingBlock { action, .. } => {
                assert(crate::rules::legal_moves(d, p) == crate::rules::legal_blocks(action));
            },
            _ => {},
        }
    }
}

// ---------------------------------------------------------------------------
// Play never stalls

/// A game that has no winner awaits a player who has a legal move.
pub open spec fn never_stalled(g: GameModel) -> bool {
    winner(g) is Some || (crate::rules::active_player(g) matches Some(p) && crate::rules::legal_moves(g, p).len() > 0)
}

/// Nothing is left that nobody decides: every open window still has a
/// responder to ask, the awaited actor or loser is alive, and an exchanger
/// holds the drawn cards.
pub open spec fn settled(g: GameModel) -> bool {
    match g.phase {
        PhaseModel::AwaitingChallenge { action, responder_index } => responder_index
            < crate::rules::challenge_responders(g.players, action).len(),
        PhaseModel::AwaitingBlock { action, responder_index } => responder_index < crate::rules::block_responders(
            g.players,
            action,
        ).len(),
        PhaseModel::AwaitingBlockChallenge { blocker, responder_index, .. } => responder_index
            < crate::rules::block_challenge_responders(g.players, blocker).len(),
        PhaseModel::AwaitingAction { actor } => g.players[actor as int].alive(),
        PhaseModel::AwaitingExchangeReturn { drawn, .. } => drawn.len() > 0,
        PhaseModel::AwaitingInfluenceLoss { player, .. } => g.players[player as int].alive(),
        PhaseModel::Terminal { .. } => true,
    }
}

proof fn lemma_settle_settled(g: GameModel)
    requires
        g.players.len() <= usize::MAX,
    ensures
        settled(settle(g)),
    decreases settle_rank(g),
{
    match g.phase {
        PhaseModel::AwaitingChallenge { action, responder_index } => {
            if responder_index >= crate::rules::challenge_responders(g.players, action).len() {
                lemma_action_effects_len(g.players, action);
                crate::rules::lemma_followup_rank(action_effects(g.players, action), g.phase, action);
                lemma_settle_settled(execute_action(g, action));
                lemma_settle_settled(with_phase(g, PhaseModel::AwaitingBlock { action, responder_index: 0 }));
            }
        },
        PhaseModel::AwaitingBlock { action, responder_index } => {
            if responder_index >= crate::rules::block_responders(g.players, action).len() {
                lemma_action_effects_len(g.players, action);
                crate::rules::lemma_followup_rank(action_effects(g.players, action), g.phase, action);
                lemma_settle_settled(execute_action(g, action));
            }
        },
        PhaseModel::AwaitingBlockChallenge { blocker, responder_index, .. } => {
            if responder_index >= crate::rules::block_challenge_responders(g.players, blocker).len() {
                lemma_next_turn_phase(g.players, g.phase);
                lemma_settle_settled(with_phase(g, next_turn_phase(g.players, g.phase)));
            }
        },
        PhaseModel::AwaitingAction { actor } => {
            if !g.players[actor as int].alive() {
                lemma_next_turn_phase(g.players, g.phase);
                lemma_settle_settled(with_phase(g, next_turn_phase(g.players, g.phase)));
            }
        },
        PhaseModel::AwaitingInfluenceLoss { player, next } => {
            if !g.players[player as int].alive() {
                lemma_settle_settled(with_phase(g, *next));
            }
        },
        _ => {},
    }
}

proof fn lemma_living_split(players: Seq<PlayerModel>, actor: int, k: nat)
    requires
        k <= players.len(),
        0 <= actor,
    ensures
        crate::rules::living_others(players, -1, k).len() == crate::rules::living_others(players, actor, k).len()
            + if actor < k && players[actor].alive() { 1int } else { 0int },
    decreases k,
{
    if k > 0 {
        lemma_living_split(players, actor, (k - 1) as nat);
    }
}

/// A settled, well-formed game never stalls.
pub(crate) proof fn lemma_settled_never_stalled(h: GameModel)
    requires
        wf(h),
        settled(h),
    ensures
        never_stalled(h),
{
    law_awaited_player_is_seat(h);
    let n = h.players.len();
    match h.phase {
        PhaseModel::AwaitingAction { actor } => {
            let targets = crate::rules::living_others(h.players, actor as int, n);
            if h.players[actor as int].coins >= 10 && targets.len() == 0 {
                lemma_living_split(h.players, actor as int, n);
                assert(crate::rules::living(h.players).len() == 1);
            }
        },
        PhaseModel::AwaitingInfluenceLoss { player, .. } => {
            lemma_reveal_moves_len(h.players[player as int].influence);
        },
        PhaseModel::AwaitingExchangeReturn { player, drawn } => {
            let infl = h.players[player as int].influence;
            crate::rules::lemma_hidden_count_is_len(infl);
            crate::hands::lemma_combinations_nonempty(hidden_cards_of(infl) + drawn, h.players[player as int].hidden_count());
        },
        PhaseModel::AwaitingBlock { action, .. } => {
            assert(crate::rules::legal_blocks(action).len() > 0);
        },
        _ => {},
    }
}

/// The closing checks never leave a stalled game: once they have run, a
/// well-formed game is either won or awaits a player with a legal move.
pub proof fn law_finished_game_never_stalls(g: GameModel)
    requires
        g.players.len() <= usize::MAX,
        wf(finish(g)),
    ensures
        never_stalled(finish(g)),
{
    let g1 = match crate::rules::only_living_player(g.players) {
        Some(w) => with_phase(g, PhaseModel::Terminal { winner: w }),
        None => g,
    };
    lemma_settle_settled(g1);
    lemma_settled_never_stalled(finish(g));
}

// ---------------------------------------------------------------------------
// Hands

/// Every hand of `b` is as long as in `a`, and every card face up in `a`
/// lies in `b` where it lay, the same card and still face up.
pub open spec fn hands_kept(a: Seq<PlayerModel>, b: Seq<PlayerModel>) -> bool {
    &&& a.len() == b.len()
    &&& forall|j: int| 0 <= j < a.len() ==> (#[trigger] b[j]).influence.len() == a[j].influence.len()
    &&& forall|j: int, i: int|
        0 <= j < a.len() && 0 <= i < a[j].influence.len() && a[j].influence[i].revealed
            ==> #[trigger] b[j].influence[i] == a[j].influence[i]
}

/// The same players hold the same hands.
spec fn same_hands(a: Seq<PlayerModel>, b: Seq<PlayerModel>) -> bool {
    &&& a.len() == b.len()
    &&& forall|j: int| 0 <= j < a.len() ==> (#[trigger] b[j]).influence == a[j].influence
}

proof fn lemma_hands_then_same(a: Seq<PlayerModel>, b: Seq<PlayerModel>, c: Seq<PlayerModel>)
    requires
        hands_kept(a, b),
        same_hands(b, c),
    ensures
        hands_kept(a, c),
{
    assert forall|j: int, i: int|
        0 <= j < a.len() && 0 <= i < a[j].influence.len() && a[j].influence[i].revealed implies #[trigger] c[j].influence[i]
        == a[j].influence[i] by {
        assert(c[j].influence == b[j].influence);
        assert(b[j].influence[i] == a[j].influence[i]);
    }
    assert forall|j: int| 0 <= j < a.len() implies (#[trigger] c[j]).influence.len() == a[j].influence.len() by {
        assert(c[j].influence == b[j].influence);
        assert(b[j].influence.len() == a[j].influence.len());
    }
}

proof fn lemma_same_hands_trans(a: Seq<PlayerModel>, b: Seq<PlayerModel>, c: Seq<PlayerModel>)
    requires
        same_hands(a, b),
        same_hands(b, c),
    ensures
        same_hands(a, c),
{
    assert forall|j: int| 0 <= j < a.len() implies (#[trigger] c[j]).influence == a[j].influence by {
        assert(c[j].influence == b[j].influence);
    }
}

proof fn lemma_same_hands_kept(a: Seq<PlayerModel>, b: Seq<PlayerModel>)
    requires
        same_hands(a, b),
    ensures
        hands_kept(a, b),
{
    assert forall|j: int, i: int|
        0 <= j < a.len() && 0 <= i < a[j].influence.len() && a[j].influence[i].revealed implies #[trigger] b[j].influence[i]
        == a[j].influence[i] by {
        assert(b[j].influence == a[j].influence);
    }
}

proof fn lemma_effects_hands(players: Seq<PlayerModel>, action: DeclaredAction)
    ensures
        same_hands(players, action_effects(players, action)),
{
    lemma_action_effects_len(players, action);
}

proof fn lemma_set_coins_hands(players: Seq<PlayerModel>, player: int, coins: int)
    ensures
        same_hands(players, crate::rules::set_coins(players, player, coins)),
{
}

/// The steps nobody decides leave every hand as it was.
proof fn lemma_settle_hands(g: GameModel)
    requires
        g.players.len() <= usize::MAX,
    ensures
        same_hands(g.players, settle(g).players),
    decreases settle_rank(g),
{
    match g.phase {
        PhaseModel::AwaitingChallenge { action, responder_index } => {
            if responder_index >= crate::rules::challenge_responders(g.players, action).len() {
                lemma_action_effects_len(g.players, action);
                crate::rules::lemma_followup_rank(action_effects(g.players, action), g.phase, action);
                let ea = execute_action(g, action);
                lemma_settle_hands(ea);
                lemma_effects_hands(g.players, action);
                lemma_same_hands_trans(g.players, ea.players, settle(ea).players);
                lemma_settle_hands(with_phase(g, PhaseModel::AwaitingBlock { action, responder_index: 0 }));
            }
        },
        PhaseModel::AwaitingBlock { action, responder_index } => {
            if responder_index >= crate::rules::block_responders(g.players, action).len() {
                lemma_action_effects_len(g.players, action);
                crate::rules::lemma_followup_rank(action_effects(g.players, action), g.phase, action);
                let ea = execute_action(g, action);
                lemma_settle_hands(ea);
                lemma_effects_hands(g.players, action);
                lemma_same_hands_trans(g.players, ea.players, settle(ea).players);
            }
        },
        PhaseModel::AwaitingBlockChallenge { blocker, responder_index, .. } => {
            if responder_index >= crate::rules::block_challenge_responders(g.players, blocker).len() {
                crate::rules::lemma_next_turn_phase(g.players, g.phase);
                lemma_settle_hands(with_phase(g, next_turn_phase(g.players, g.phase)));
            }
        },
        PhaseModel::AwaitingAction { actor } => {
            if !g.players[actor as int].alive() {
                crate::rules::lemma_next_turn_phase(g.players, g.phase);
                lemma_settle_hands(with_phase(g, next_turn_phase(g.players, g.phase)));
            }
        },
        PhaseModel::AwaitingInfluenceLoss { player, next } => {
            if !g.players[player as int].alive() {
                lemma_settle_hands(with_phase(g, *next));
            }
        },
        _ => {},
    }
}

proof fn lemma_finish_hands(g: GameModel)
    requires
        g.players.len() <= usize::MAX,
    ensures
        same_hands(g.players, finish(g).players),
{
    let g1 = match crate::rules::only_living_player(g.players) {
        Some(w) => with_phase(g, PhaseModel::Terminal { winner: w }),
        None => g,
    };
    lemma_settle_hands(g1);
}

/// A proven claim swaps a face-down card for another face-down card.
proof fn lemma_replace_claim_hands(g: GameModel, player: int, claim: Card, shuffled: Seq<Card>)
    requires
        0 <= player < g.players.len(),
        g.players[player].has_hidden(claim),
    ensures
        hands_kept(g.players, crate::rules::replace_claim(g, player, claim, shuffled).players),
{
    let infl = g.players[player].influence;
    crate::invariants::lemma_first_hidden_index(infl, claim);
    let fhi = crate::rules::first_hidden_index(infl, claim);
    let swapped = infl.update(fhi, InfluenceCard { card: shuffled.last(), revealed: false });
    let after = g.players.update(player, PlayerModel { coins: g.players[player].coins, influence: swapped });
    assert(crate::rules::replace_claim(g, player, claim, shuffled).players == after);
    assert forall|j: int, i: int|
        0 <= j < g.players.len() && 0 <= i < g.players[j].influence.len() && g.players[j].influence[i].revealed
            implies #[trigger] after[j].influence[i] == g.players[j].influence[i] by {
        if j == player {
            assert(i != fhi);
            assert(after[j].influence == swapped);
            assert(swapped[i] == infl[i]);
        } else {
            assert(after[j] == g.players[j]);
        }
    }
    assert forall|j: int| 0 <= j < g.players.len() implies (#[trigger] after[j]).influence.len() == g.players[j].influence.len() by {
        if j == player {
            assert(after[j].influence == swapped);
        } else {
            assert(after[j] == g.players[j]);
        }
    }
}

/// Handing out kept cards leaves every face-up card where it lay.
proof fn lemma_assign_hidden_layout(s: Seq<InfluenceCard>, keep: Seq<Card>)
    ensures
        crate::rules::assign_hidden(s, keep).len() == s.len(),
        forall|i: int| 0 <= i < s.len() && s[i].revealed ==> #[trigger] crate::rules::assign_hidden(s, keep)[i] == s[i],
        forall|i: int| 0 <= i < s.len() ==> (#[trigger] crate::rules::assign_hidden(s, keep)[i]).revealed == s[i].revealed,
    decreases s.len(),
{
    if s.len() > 0 {
        let rest = if s[0].revealed || keep.len() == 0 { keep } else { keep.drop_first() };
        lemma_assign_hidden_layout(s.drop_first(), rest);
        assert forall|i: int| 0 <= i < s.len() && s[i].revealed implies #[trigger] crate::rules::assign_hidden(s, keep)[i]
            == s[i] by {
            if i > 0 && !(keep.len() == 0 && !s[0].revealed) {
                assert(s.drop_first()[i - 1] == s[i]);
            }
        }
        assert forall|i: int| 0 <= i < s.len() implies (#[trigger] crate::rules::assign_hidden(s, keep)[i]).revealed
            == s[i].revealed by {
            if i > 0 && !(keep.len() == 0 && !s[0].revealed) {
                assert(s.drop_first()[i - 1] == s[i]);
            }
        }
    }
}

/// The size of every hand is fixed, and a card once turned face up stays
/// where it lies, face up, for the rest of the game: whatever move is made,
/// every player keeps as many influence cards as before, and every face-up
/// card is still there.
pub proof fn law_move_keeps_hands(g: GameModel, player: usize, mv: MoveModel, shuffled: Seq<Card>)
    requires
        wf(g),
        apply(g, player, mv, shuffled) is Ok,
    ensures
        hands_kept(g.players, apply(g, player, mv, shuffled)->Ok_0.players),
{
    let step = move_step(g, player, mv, shuffled);
    assert(step is Ok);
    let g1 = step->Ok_0;
    let p = player as int;
    match mv {
        MoveModel::Income => {
            let players = crate::rules::set_coins(g.players, p, g.players[p].coins + 1);
            let h = GameModel { players, deck: g.deck, phase: next_turn_phase(players, g.phase) };
            lemma_settle_hands(h);
            lemma_set_coins_hands(g.players, p, g.players[p].coins + 1);
            lemma_same_hands_trans(g.players, players, g1.players);
        },
        MoveModel::ForeignAid => {
            lemma_settle_hands(with_phase(g, PhaseModel::AwaitingBlock {
                action: DeclaredAction { actor: player, kind: crate::state::ActionKind::ForeignAid },
                responder_index: 0,
            }));
        },
        MoveModel::Tax | MoveModel::Steal { .. } | MoveModel::Exchange | MoveModel::Assassinate { .. } => {
            let paid = match mv {
                MoveModel::Assassinate { .. } => GameModel {
                    players: crate::rules::set_coins(g.players, p, g.players[p].coins - 3),
                    deck: g.deck,
                    phase: g.phase,
                },
                _ => g,
            };
            let kind = match mv {
                MoveModel::Tax => crate::state::ActionKind::Tax,
                MoveModel::Steal { target } => crate::state::ActionKind::Steal { target },
                MoveModel::Exchange => crate::state::ActionKind::Exchange,
                MoveModel::Assassinate { target } => crate::state::ActionKind::Assassinate { target },
                _ => crate::state::ActionKind::Tax,
            };
            let opened = with_phase(paid, PhaseModel::AwaitingChallenge {
                action: DeclaredAction { actor: player, kind },
                responder_index: 0,
            });
            lemma_settle_hands(opened);
            lemma_set_coins_hands(g.players, p, g.players[p].coins - 3);
            lemma_same_hands_trans(g.players, paid.players, settle(opened).players);
            assert(g1 == declare(paid, player, kind));
        },
        MoveModel::Coup { .. } => {
            lemma_set_coins_hands(g.players, p, g.players[p].coins - 7);
        },
        MoveModel::Challenge => {
            match g.phase {
                PhaseModel::AwaitingChallenge { action, .. } => {
                    let claim = crate::rules::spec_claim(action.kind)->Some_0;
                    if g.players[action.actor as int].has_hidden(claim) {
                        let g2 = crate::rules::replace_claim(g, action.actor as int, claim, shuffled);
                        lemma_replace_claim_hands(g, action.actor as int, claim, shuffled);
                        lemma_effects_hands(g2.players, action);
                        lemma_hands_then_same(g.players, g2.players, action_effects(g2.players, action));
                    } else {
                        lemma_same_hands_kept(g.players, g.players);
                    }
                },
                PhaseModel::AwaitingBlockChallenge { action, blocker, block_card, .. } => {
                    if g.players[blocker as int].has_hidden(block_card) {
                        lemma_replace_claim_hands(g, blocker as int, block_card, shuffled);
                    } else {
                        lemma_effects_hands(g.players, action);
                        lemma_same_hands_kept(g.players, action_effects(g.players, action));
                    }
                },
                _ => {},
            }
            assert(g1 == resolve_challenge(g, player, shuffled)->Ok_0);
        },
        MoveModel::PassChallenge => {
            match g.phase {
                PhaseModel::AwaitingChallenge { action, responder_index } => {
                    lemma_action_effects_len(g.players, action);
                    let ea = execute_action(g, action);
                    lemma_effects_hands(g.players, action);
                    lemma_settle_hands(ea);
                    lemma_same_hands_trans(g.players, ea.players, settle(ea).players);
                    lemma_settle_hands(with_phase(g, PhaseModel::AwaitingBlock { action, responder_index: 0 }));
                    lemma_settle_hands(with_phase(g, PhaseModel::AwaitingChallenge {
                        action,
                        responder_index: (responder_index + 1) as usize,
                    }));
                },
                PhaseModel::AwaitingBlockChallenge { action, blocker, block_card, responder_index } => {
                    let nt = with_phase(g, next_turn_phase(g.players, g.phase));
                    lemma_settle_hands(nt);
                    lemma_settle_seats(nt);
                    lemma_settle_hands(settle(nt));
                    lemma_same_hands_trans(g.players, settle(nt).players, settle(settle(nt)).players);
                    lemma_settle_hands(with_phase(g, PhaseModel::AwaitingBlockChallenge {
                        action,
                        blocker,
                        block_card,
                        responder_index: (responder_index + 1) as usize,
                    }));
                },
                _ => {},
            }
            assert(g1 == pass_challenge(g)->Ok_0);
        },
        MoveModel::Block { claim } => {
            match g.phase {
                PhaseModel::AwaitingBlock { action, .. } => {
                    lemma_settle_hands(with_phase(g, PhaseModel::AwaitingBlockChallenge {
                        action,
                        blocker: player,
                        block_card: claim,
                        responder_index: 0,
                    }));
                },
                _ => {},
            }
            assert(g1 == start_block_challenge(g, player, claim)->Ok_0);
        },
        MoveModel::PassBlock => {
            match g.phase {
                PhaseModel::AwaitingBlock { action, responder_index } => {
                    lemma_action_effects_len(g.players, action);
                    let ea = execute_action(g, action);
                    lemma_effects_hands(g.players, action);
                    lemma_settle_hands(ea);
                    lemma_same_hands_trans(g.players, ea.players, settle(ea).players);
                    lemma_settle_hands(with_phase(g, PhaseModel::AwaitingBlock {
                        action,
                        responder_index: (responder_index + 1) as usize,
                    }));
                },
                _ => {},
            }
            assert(g1 == pass_block(g)->Ok_0);
        },
        MoveModel::RevealInfluence { card_index } => {
            assert(g1 == reveal_influence(g, player, card_index)->Ok_0);
        },
        MoveModel::ExchangeReturn { keep } => {
            match g.phase {
                PhaseModel::AwaitingExchangeReturn { .. } => {
                    let infl = g.players[p].influence;
                    let players = g.players.update(
                        p,
                        PlayerModel { coins: g.players[p].coins, influence: crate::rules::assign_hidden(infl, keep) },
                    );
                    lemma_assign_hidden_layout(infl, keep);
                    let h = GameModel { players, deck: shuffled, phase: next_turn_phase(players, g.phase) };
                    lemma_settle_hands(h);
                    assert(hands_kept(g.players, players));
                    lemma_hands_then_same(g.players, players, settle(h).players);
                },
                _ => {},
            }
            assert(g1 == exchange_return(g, player, keep, shuffled)->Ok_0);
        },
    }
    assert(hands_kept(g.players, g1.players));
    lemma_finish_hands(g1);
    lemma_hands_then_same(g.players, g1.players, finish(g1).players);
}

/// Every hand keeps its size and which of its cards lie face up.
spec fn flags_kept(a: Seq<PlayerModel>, b: Seq<PlayerModel>) -> bool {
    &&& a.len() == b.len()
    &&& forall|j: int| 0 <= j < a.len() ==> (#[trigger] b[j]).influence.len() == a[j].influence.len()
    &&& forall|j: int, i: int|
        0 <= j < a.len() && 0 <= i < a[j].influence.len() ==> (#[trigger] b[j].influence[i]).revealed
            == a[j].influence[i].revealed
}

proof fn lemma_same_hands_flags(a: Seq<PlayerModel>, b: Seq<PlayerModel>)
    requires
        same_hands(a, b),
    ensures
        flags_kept(a, b),
{
    assert forall|j: int, i: int| 0 <= j < a.len() && 0 <= i < a[j].influence.len() implies (#[trigger] b[j].influence[i]).revealed
        == a[j].influence[i].revealed by {
        assert(b[j].influence == a[j].influence);
    }
}

proof fn lemma_flags_then_same(a: Seq<PlayerModel>, b: Seq<PlayerModel>, c: Seq<PlayerModel>)
    requires
        flags_kept(a, b),
        same_hands(b, c),
    ensures
        flags_kept(a, c),
{
    assert forall|j: int, i: int| 0 <= j < a.len() && 0 <= i < a[j].influence.len() implies (#[trigger] c[j].influence[i]).revealed
        == a[j].influence[i].revealed by {
        assert(c[j].influence == b[j].influence);
        assert(b[j].influence[i].revealed == a[j].influence[i].revealed);
    }
    assert forall|j: int| 0 <= j < a.len() implies (#[trigger] c[j]).influence.len() == a[j].influence.len() by {
        assert(c[j].influence == b[j].influence);
        assert(b[j].influence.len() == a[j].influence.len());
    }
}

proof fn lemma_replace_claim_flags(g: GameModel, player: int, claim: Card, shuffled: Seq<Card>)
    requires
        0 <= player < g.players.len(),
        g.players[player].has_hidden(claim),
    ensures
        flags_kept(g.players, crate::rules::replace_claim(g, player, claim, shuffled).players),
{
    let infl = g.players[player].influence;
    crate::invariants::lemma_first_hidden_index(infl, claim);
    let fhi = crate::rules::first_hidden_index(infl, claim);
    let swapped = infl.update(fhi, InfluenceCard { card: shuffled.last(), revealed: false });
    let after = g.players.update(player, PlayerModel { coins: g.players[player].coins, influence: swapped });
    assert(crate::rules::replace_claim(g, player, claim, shuffled).players == after);
    assert forall|j: int, i: int| 0 <= j < g.players.len() && 0 <= i < g.players[j].influence.len() implies (#[trigger] after[j].influence[i]).revealed
        == g.players[j].influence[i].revealed by {
        if j == player {
            assert(after[j].influence == swapped);
        } else {
            assert(after[j] == g.players[j]);
        }
    }
    assert forall|j: int| 0 <= j < g.players.len() implies (#[trigger] after[j]).influence.len() == g.players[j].influence.len() by {
        if j == player {
            assert(after[j].influence == swapped);
        } else {
            assert(after[j] == g.players[j]);
        }
    }
}

/// Hands that keep which cards lie face up keep who is alive.
proof fn lemma_flags_alive(a: Seq<PlayerModel>, b: Seq<PlayerModel>)
    requires
        flags_kept(a, b),
    ensures
        forall|j: int| 0 <= j < a.len() ==> (#[trigger] b[j]).alive() == a[j].alive(),
{
    assert forall|j: int| 0 <= j < a.len() implies (#[trigger] b[j]).alive() == a[j].alive() by {
        crate::rules::lemma_hidden_count_positive(a[j].influence);
        crate::rules::lemma_hidden_count_positive(b[j].influence);
        if a[j].alive() {
            let i = choose|i: int| 0 <= i < a[j].influence.len() && !a[j].influence[i].revealed;
            assert(!b[j].influence[i].revealed);
        }
        if b[j].alive() {
            let i = choose|i: int| 0 <= i < b[j].influence.len() && !b[j].influence[i].revealed;
            assert(!a[j].influence[i].revealed);
        }
    }
}

proof fn lemma_step_flags(g: GameModel, player: usize, mv: MoveModel, shuffled: Seq<Card>)
    requires
        wf(g),
        apply(g, player, mv, shuffled) is Ok,
        !(mv is RevealInfluence),
    ensures
        flags_kept(g.players, move_step(g, player, mv, shuffled)->Ok_0.players),
{
    let step = move_step(g, player, mv, shuffled);
    assert(step is Ok);
    let g1 = step->Ok_0;
    let p = player as int;
    match mv {
        MoveModel::Income => {
            let players = crate::rules::set_coins(g.players, p, g.players[p].coins + 1);
            let h = GameModel { players, deck: g.deck, phase: next_turn_phase(players, g.phase) };
            lemma_settle_hands(h);
            lemma_set_coins_hands(g.players, p, g.players[p].coins + 1);
            lemma_same_hands_trans(g.players, players, g1.players);
        },
        MoveModel::ForeignAid => {
            lemma_settle_hands(with_phase(g, PhaseModel::AwaitingBlock {
                action: DeclaredAction { actor: player, kind: crate::state::ActionKind::ForeignAid },
                responder_index: 0,
            }));
        },
        MoveModel::Tax | MoveModel::Steal { .. } | MoveModel::Exchange | MoveModel::Assassinate { .. } => {
            let paid = match mv {
                MoveModel::Assassinate { .. } => GameModel {
                    players: crate::rules::set_coins(g.players, p, g.players[p].coins - 3),
                    deck: g.deck,
                    phase: g.phase,
                },
                _ => g,
            };
            let kind = match mv {
                MoveModel::Tax => crate::state::ActionKind::Tax,
                MoveModel::Steal { target } => crate::state::ActionKind::Steal { target },
                MoveModel::Exchange => crate::state::ActionKind::Exchange,
                MoveModel::Assassinate { target } => crate::state::ActionKind::Assassinate { target },
                _ => crate::state::ActionKind::Tax,
            };
            let opened = with_phase(paid, PhaseModel::AwaitingChallenge {
                action: DeclaredAction { actor: player, kind },
                responder_index: 0,
            });
            lemma_settle_hands(opened);
            lemma_set_coins_hands(g.players, p, g.players[p].coins - 3);
            lemma_same_hands_trans(g.players, paid.players, settle(opened).players);
            assert(g1 == declare(paid, player, kind));
        },
        MoveModel::Coup { .. } => {
            lemma_set_coins_hands(g.players, p, g.players[p].coins - 7);
        },
        MoveModel::Challenge => {
            match g.phase {
                PhaseModel::AwaitingChallenge { action, .. } => {
                    let claim = crate::rules::spec_claim(action.kind)->Some_0;
                    if g.players[action.actor as int].has_hidden(claim) {
                        let g2 = crate::rules::replace_claim(g, action.actor as int, claim, shuffled);
                        lemma_replace_claim_flags(g, action.actor as int, claim, shuffled);
                        lemma_effects_hands(g2.players, action);
                        lemma_flags_then_same(g.players, g2.players, action_effects(g2.players, action));
                    } else {
                        lemma_same_hands_flags(g.players, g.players);
                    }
                },
                PhaseModel::AwaitingBlockChallenge { action, blocker, block_card, .. } => {
                    if g.players[blocker as int].has_hidden(block_card) {
                        lemma_replace_claim_flags(g, blocker as int, block_card, shuffled);
                    } else {
                        lemma_effects_hands(g.players, action);
                        lemma_same_hands_flags(g.players, action_effects(g.players, action));
                    }
                },
                _ => {},
            }
            assert(g1 == resolve_challenge(g, player, shuffled)->Ok_0);
        },
        MoveModel::PassChallenge => {
            match g.phase {
                PhaseModel::AwaitingChallenge { action, responder_index } => {
                    lemma_action_effects_len(g.players, action);
                    let ea = execute_action(g, action);
                    lemma_effects_hands(g.players, action);
                    lemma_settle_hands(ea);
                    lemma_same_hands_trans(g.players, ea.players, settle(ea).players);
                    lemma_settle_hands(with_phase(g, PhaseModel::AwaitingBlock { action, responder_index: 0 }));
                    lemma_settle_hands(with_phase(g, PhaseModel::AwaitingChallenge {
                        action,
                        responder_index: (responder_index + 1) as usize,
                    }));
                },
                PhaseModel::AwaitingBlockChallenge { action, blocker, block_card, responder_index } => {
                    let nt = with_phase(g, next_turn_phase(g.players, g.phase));
                    lemma_settle_hands(nt);
                    lemma_settle_seats(nt);
                    lemma_settle_hands(settle(nt));
                    lemma_same_hands_trans(g.players, settle(nt).players, settle(settle(nt)).players);
                    lemma_settle_hands(with_phase(g, PhaseModel::AwaitingBlockChallenge {
                        action,
                        blocker,
                        block_card,
                        responder_index: (responder_index + 1) as usize,
                    }));
                },
                _ => {},
            }
            assert(g1 == pass_challenge(g)->Ok_0);
        },
        MoveModel::Block { claim } => {
            match g.phase {
                PhaseModel::AwaitingBlock { action, .. } => {
                    lemma_settle_hands(with_phase(g, PhaseModel::AwaitingBlockChallenge {
                        action,
                        blocker: player,
                        block_card: claim,
                        responder_index: 0,
                    }));
                },
                _ => {},
            }
            assert(g1 == start_block_challenge(g, player, claim)->Ok_0);
        },
        MoveModel::PassBlock => {
            match g.phase {
                PhaseModel::AwaitingBlock { action, responder_index } => {
                    lemma_action_effects_len(g.players, action);
                    let ea = execute_action(g, action);
                    lemma_effects_hands(g.players, action);
                    lemma_settle_hands(ea);
                    lemma_same_hands_trans(g.players, ea.players, settle(ea).players);
                    lemma_settle_hands(with_phase(g, PhaseModel::AwaitingBlock {
                        action,
                        responder_index: (responder_index + 1) as usize,
                    }));
                },
                _ => {},
            }
            assert(g1 == pass_block(g)->Ok_0);
        },
        MoveModel::RevealInfluence { card_index } => {
            assert(g1 == reveal_influence(g, player, card_index)->Ok_0);
        },
        MoveModel::ExchangeReturn { keep } => {
            match g.phase {
                PhaseModel::AwaitingExchangeReturn { .. } => {
                    let infl = g.players[p].influence;
                    let players = g.players.update(
                        p,
                        PlayerModel { coins: g.players[p].coins, influence: crate::rules::assign_hidden(infl, keep) },
                    );
                    lemma_assign_hidden_layout(infl, keep);
                    let h = GameModel { players, deck: shuffled, phase: next_turn_phase(players, g.phase) };
                    lemma_settle_hands(h);
                    assert(flags_kept(g.players, players));
                    lemma_flags_then_same(g.players, players, settle(h).players);
                },
                _ => {},
            }
            assert(g1 == exchange_return(g, player, keep, shuffled)->Ok_0);
        },
    }
    assert(flags_kept(g.players, g1.players));
}

// ---------------------------------------------------------------------------
// Distinct moves

proof fn lemma_living_others_distinct(players: Seq<PlayerModel>, except: int, n: nat)
    requires
        n <= usize::MAX,
    ensures
        crate::rules::living_others(players, except, n).no_duplicates(),
        forall|i: int| 0 <= i < crate::rules::living_others(players, except, n).len()
            ==> (#[trigger] crate::rules::living_others(players, except, n)[i]) < n,
    decreases n,
{
    if n > 0 {
        lemma_living_others_distinct(players, except, (n - 1) as nat);
    }
}

proof fn lemma_target_moves_distinct(targets: Seq<usize>)
    requires
        targets.no_duplicates(),
    ensures
        crate::rules::coup_moves(targets).no_duplicates(),
        crate::rules::assassinate_moves(targets).no_duplicates(),
        crate::rules::steal_moves(targets).no_duplicates(),
{
    let c = crate::rules::coup_moves(targets);
    let a = crate::rules::assassinate_moves(targets);
    let s = crate::rules::steal_moves(targets);
    assert forall|i: int, j: int| 0 <= i < targets.len() && 0 <= j < targets.len() && i != j implies c[i] != c[j]
        && a[i] != a[j] && s[i] != s[j] by {
        assert(targets[i] != targets[j]);
    }
}

proof fn lemma_legal_actions_distinct(players: Seq<PlayerModel>, player: usize)
    requires
        players.len() <= usize::MAX,
    ensures
        crate::rules::legal_actions(players, player).no_duplicates(),
{
    let targets = crate::rules::living_others(players, player as int, players.len());
    lemma_living_others_distinct(players, player as int, players.len());
    lemma_target_moves_distinct(targets);
    let base = seq![MoveModel::Income, MoveModel::ForeignAid, MoveModel::Tax, MoveModel::Exchange];
    let a = if players[player as int].coins >= 3 { crate::rules::assassinate_moves(targets) } else { seq![] };
    let c = if players[player as int].coins >= 7 { crate::rules::coup_moves(targets) } else { seq![] };
    let s = crate::rules::steal_moves(targets);
    assert(base.no_duplicates());
    assert(forall|i: int| 0 <= i < a.len() ==> (#[trigger] a[i]) is Assassinate);
    assert(forall|i: int| 0 <= i < c.len() ==> (#[trigger] c[i]) is Coup);
    assert(forall|i: int| 0 <= i < s.len() ==> (#[trigger] s[i]) is Steal);
    vstd::seq_lib::lemma_no_dup_in_concat(base, a);
    let ba = base + a;
    assert(forall|i: int| 0 <= i < ba.len() ==> !((#[trigger] ba[i]) is Coup) && !(ba[i] is Steal));
    vstd::seq_lib::lemma_no_dup_in_concat(ba, c);
    let bac = ba + c;
    assert(forall|i: int| 0 <= i < bac.len() ==> !((#[trigger] bac[i]) is Steal));
    vstd::seq_lib::lemma_no_dup_in_concat(bac, s);
}

proof fn lemma_reveal_moves_distinct(s: Seq<InfluenceCard>)
    requires
        s.len() <= usize::MAX,
    ensures
        crate::rules::reveal_moves(s).no_duplicates(),
        forall|i: int| 0 <= i < crate::rules::reveal_moves(s).len() ==> ((#[trigger] crate::rules::reveal_moves(s)[i])
            matches MoveModel::RevealInfluence { card_index } && card_index < s.len()),
    decreases s.len(),
{
    if s.len() > 0 {
        let prev = crate::rules::reveal_moves(s.drop_last());
        lemma_reveal_moves_distinct(s.drop_last());
        if !s.last().revealed {
            let last = MoveModel::RevealInfluence { card_index: (s.len() - 1) as usize };
            assert forall|i: int| 0 <= i < prev.len() implies prev[i] != last by {
                assert(prev[i] matches MoveModel::RevealInfluence { card_index } && card_index < s.len() - 1);
            }
        }
    }
}

proof fn lemma_combos_from_distinct(cards: Seq<Card>, k: nat, start: nat, current: Seq<Card>, out: Seq<Seq<Card>>)
    requires
        start <= cards.len(),
        out.no_duplicates(),
    ensures
        crate::hands::combos_from(cards, k, start, current, out).no_duplicates(),
    decreases cards.len() - start, 1nat,
{
    if current.len() != k {
        lemma_combos_scan_distinct(cards, k, start, current, out);
    }
}

proof fn lemma_combos_scan_distinct(cards: Seq<Card>, k: nat, index: nat, current: Seq<Card>, out: Seq<Seq<Card>>)
    requires
        index <= cards.len(),
        out.no_duplicates(),
    ensures
        crate::hands::combos_scan(cards, k, index, current, out).no_duplicates(),
    decreases cards.len() - index, 0nat,
{
    if index < cards.len() {
        let out1 = crate::hands::combos_from(cards, k, index + 1, current.push(cards[index as int]), out);
        lemma_combos_from_distinct(cards, k, index + 1, current.push(cards[index as int]), out);
        lemma_combos_scan_distinct(cards, k, index + 1, current, out1);
    }
}

/// No move is offered twice: the legal moves of any player in any
/// well-formed game are all different.
pub proof fn law_legal_moves_distinct(g: GameModel, player: usize)
    requires
        wf(g),
    ensures
        crate::rules::legal_moves(g, player).no_duplicates(),
{
    if player < g.players.len() && crate::rules::active_player(g) == Some(player) {
        match g.phase {
            PhaseModel::AwaitingAction { .. } => {
                lemma_legal_actions_distinct(g.players, player);
            },
            PhaseModel::AwaitingChallenge { .. } => {
                assert(seq![MoveModel::Challenge, MoveModel::PassChallenge].no_duplicates());
            },
            PhaseModel::AwaitingBlockChallenge { .. } => {
                assert(seq![MoveModel::Challenge, MoveModel::PassChallenge].no_duplicates());
            },
            PhaseModel::AwaitingBlock { action, .. } => {
                assert(crate::rules::legal_blocks(action).no_duplicates());
            },
            PhaseModel::AwaitingInfluenceLoss { .. } => {
                lemma_reveal_moves_distinct(g.players[player as int].influence);
            },
            PhaseModel::AwaitingExchangeReturn { drawn, .. } => {
                let infl = g.players[player as int].influence;
                let hands = crate::rules::spec_combinations(hidden_cards_of(infl) + drawn, g.players[player as int].hidden_count());
                lemma_combos_from_distinct(
                    hidden_cards_of(infl) + drawn,
                    g.players[player as int].hidden_count(),
                    0,
                    seq![],
                    seq![],
                );
                crate::hands::lemma_combinations_enumerated(hidden_cards_of(infl) + drawn, g.players[player as int].hidden_count());
                let moves = crate::rules::exchange_moves(hands);
                assert forall|i: int, j: int| 0 <= i < moves.len() && 0 <= j < moves.len() && i != j implies moves[i]
                    != moves[j] by {
                    assert(hands[i] != hands[j]);
                }
            },
            _ => {},
        }
    }
}

// ---------------------------------------------------------------------------
// Games in progress

/// Drawn cards are pending only while their exchanger is to return some.
pub open spec fn drawn_on_top(phase: PhaseModel) -> bool {
    drawn_cards(phase).len() > 0 ==> phase is AwaitingExchangeReturn
}

/// A game in progress as play produces it: two players or more alive, and
/// drawn cards pending only while their exchanger is to return some.
pub open spec fn in_progress(g: GameModel) -> bool {
    &&& crate::rules::living(g.players).len() >= 2
    &&& drawn_on_top(g.phase)
}

/// The steps nobody decides never bury drawn cards under another decision.
proof fn lemma_settle_on_top(g: GameModel)
    requires
        g.players.len() <= usize::MAX,
        drawn_on_top(g.phase),
    ensures
        drawn_on_top(settle(g).phase),
    decreases settle_rank(g),
{
    reveal_with_fuel(drawn_cards, 2);
    match g.phase {
        PhaseModel::AwaitingChallenge { action, responder_index } => {
            if responder_index >= crate::rules::challenge_responders(g.players, action).len() {
                lemma_action_effects_len(g.players, action);
                crate::rules::lemma_followup_rank(action_effects(g.players, action), g.phase, action);
                lemma_next_turn_drawn(action_effects(g.players, action), g.phase);
                lemma_settle_on_top(execute_action(g, action));
                lemma_settle_on_top(with_phase(g, PhaseModel::AwaitingBlock { action, responder_index: 0 }));
            }
        },
        PhaseModel::AwaitingBlock { action, responder_index } => {
            if responder_index >= crate::rules::block_responders(g.players, action).len() {
                lemma_action_effects_len(g.players, action);
                crate::rules::lemma_followup_rank(action_effects(g.players, action), g.phase, action);
                lemma_next_turn_drawn(action_effects(g.players, action), g.phase);
                lemma_settle_on_top(execute_action(g, action));
            }
        },
        PhaseModel::AwaitingBlockChallenge { blocker, responder_index, .. } => {
            if responder_index >= crate::rules::block_challenge_responders(g.players, blocker).len() {
                lemma_next_turn_phase(g.players, g.phase);
                lemma_next_turn_drawn(g.players, g.phase);
                lemma_settle_on_top(with_phase(g, next_turn_phase(g.players, g.phase)));
            }
        },
        PhaseModel::AwaitingAction { actor } => {
            if !g.players[actor as int].alive() {
                lemma_next_turn_phase(g.players, g.phase);
                lemma_next_turn_drawn(g.players, g.phase);
                lemma_settle_on_top(with_phase(g, next_turn_phase(g.players, g.phase)));
            }
        },
        PhaseModel::AwaitingInfluenceLoss { player, next } => {
            if !g.players[player as int].alive() {
                assert(drawn_cards(g.phase) == drawn_cards(*next));
                lemma_settle_on_top(with_phase(g, *next));
            }
        },
        _ => {},
    }
}

/// Who is alive decides the living seats, except at one seat.
proof fn lemma_living_same_except(a: Seq<PlayerModel>, b: Seq<PlayerModel>, except: int, n: nat)
    requires
        n <= a.len(),
        a.len() == b.len(),
        forall|i: int| 0 <= i < a.len() && i != except ==> (#[trigger] a[i]).alive() == b[i].alive(),
    ensures
        crate::rules::living_others(a, except, n) == crate::rules::living_others(b, except, n),
    decreases n,
{
    if n > 0 {
        lemma_living_same_except(a, b, except, (n - 1) as nat);
    }
}

proof fn lemma_all_living(players: Seq<PlayerModel>, k: nat)
    requires
        k <= players.len(),
        forall|i: int| 0 <= i < players.len() ==> (#[trigger] players[i]).alive(),
    ensures
        crate::rules::living_others(players, -1, k).len() == k,
    decreases k,
{
    if k > 0 {
        lemma_all_living(players, (k - 1) as nat);
    }
}

/// A new game is in progress: every player is alive and nothing is drawn.
pub proof fn law_deal_in_progress(shuffled: Seq<Card>, player_count: nat)
    requires
        2 <= player_count <= 6,
        shuffled.len() == 15,
    ensures
        in_progress(crate::setup::deal(shuffled, player_count)),
{
    let g = crate::setup::deal(shuffled, player_count);
    assert forall|i: int| 0 <= i < g.players.len() implies (#[trigger] g.players[i]).alive() by {
        assert(g.players[i].influence.last().revealed == false);
    }
    lemma_all_living(g.players, g.players.len());
}

/// A move in a state whose drawn cards are on top leaves them on top
/// before the closing checks.
proof fn lemma_step_on_top(g: GameModel, player: usize, mv: MoveModel, shuffled: Seq<Card>)
    requires
        wf(g),
        drawn_on_top(g.phase),
        apply(g, player, mv, shuffled) is Ok,
    ensures
        drawn_on_top(move_step(g, player, mv, shuffled)->Ok_0.phase),
{
    reveal_with_fuel(drawn_cards, 3);
    let step = move_step(g, player, mv, shuffled);
    assert(step is Ok);
    let g1 = step->Ok_0;
    let p = player as int;
    match mv {
        MoveModel::Income => {
            let players = crate::rules::set_coins(g.players, p, g.players[p].coins + 1);
            lemma_next_turn_drawn(players, g.phase);
            lemma_settle_on_top(GameModel { players, deck: g.deck, phase: next_turn_phase(players, g.phase) });
        },
        MoveModel::ForeignAid => {
            lemma_settle_on_top(with_phase(g, PhaseModel::AwaitingBlock {
                action: DeclaredAction { actor: player, kind: crate::state::ActionKind::ForeignAid },
                responder_index: 0,
            }));
        },
        MoveModel::Tax | MoveModel::Steal { .. } | MoveModel::Exchange | MoveModel::Assassinate { .. } => {
            let paid = match mv {
                MoveModel::Assassinate { .. } => GameModel {
                    players: crate::rules::set_coins(g.players, p, g.players[p].coins - 3),
                    deck: g.deck,
                    phase: g.phase,
                },
                _ => g,
            };
            let kind = match mv {
                MoveModel::Tax => crate::state::ActionKind::Tax,
                MoveModel::Steal { target } => crate::state::ActionKind::Steal { target },
                MoveModel::Exchange => crate::state::ActionKind::Exchange,
                MoveModel::Assassinate { target } => crate::state::ActionKind::Assassinate { target },
                _ => crate::state::ActionKind::Tax,
            };
            lemma_settle_on_top(with_phase(paid, PhaseModel::AwaitingChallenge {
                action: DeclaredAction { actor: player, kind },
                responder_index: 0,
            }));
            assert(g1 == declare(paid, player, kind));
        },
        MoveModel::Coup { .. } => {
            let players = crate::rules::set_coins(g.players, p, g.players[p].coins - 7);
            lemma_next_turn_drawn(players, g.phase);
        },
        MoveModel::Challenge => {
            match g.phase {
                PhaseModel::AwaitingChallenge { action, .. } => {
                    let claim = crate::rules::spec_claim(action.kind)->Some_0;
                    let g2 = crate::rules::replace_claim(g, action.actor as int, claim, shuffled);
                    lemma_action_effects_len(g2.players, action);
                    lemma_action_effects_len(g.players, action);
                    lemma_next_turn_drawn(action_effects(g2.players, action), g2.phase);
                    lemma_next_turn_drawn(g.players, g.phase);
                },
                PhaseModel::AwaitingBlockChallenge { action, blocker, block_card, .. } => {
                    let g2 = crate::rules::replace_claim(g, blocker as int, block_card, shuffled);
                    lemma_action_effects_len(g.players, action);
                    lemma_next_turn_drawn(action_effects(g.players, action), g.phase);
                    lemma_next_turn_drawn(g2.players, g2.phase);
                },
                _ => {},
            }
            assert(g1 == resolve_challenge(g, player, shuffled)->Ok_0);
        },
        MoveModel::PassChallenge => {
            match g.phase {
                PhaseModel::AwaitingChallenge { action, responder_index } => {
                    lemma_action_effects_len(g.players, action);
                    lemma_execute_cards(g, action);
                    lemma_settle_on_top(execute_action(g, action));
                    lemma_settle_on_top(with_phase(g, PhaseModel::AwaitingBlock { action, responder_index: 0 }));
                    lemma_settle_on_top(with_phase(g, PhaseModel::AwaitingChallenge {
                        action,
                        responder_index: (responder_index + 1) as usize,
                    }));
                },
                PhaseModel::AwaitingBlockChallenge { action, blocker, block_card, responder_index } => {
                    let nt = with_phase(g, next_turn_phase(g.players, g.phase));
                    lemma_next_turn_drawn(g.players, g.phase);
                    lemma_settle_on_top(nt);
                    lemma_settle_seats(nt);
                    lemma_settle_on_top(settle(nt));
                    lemma_settle_on_top(with_phase(g, PhaseModel::AwaitingBlockChallenge {
                        action,
                        blocker,
                        block_card,
                        responder_index: (responder_index + 1) as usize,
                    }));
                },
                _ => {},
            }
            assert(g1 == pass_challenge(g)->Ok_0);
        },
        MoveModel::Block { claim } => {
            match g.phase {
                PhaseModel::AwaitingBlock { action, .. } => {
                    lemma_settle_on_top(with_phase(g, PhaseModel::AwaitingBlockChallenge {
                        action,
                        blocker: player,
                        block_card: claim,
                        responder_index: 0,
                    }));
                },
                _ => {},
            }
            assert(g1 == start_block_challenge(g, player, claim)->Ok_0);
        },
        MoveModel::PassBlock => {
            match g.phase {
                PhaseModel::AwaitingBlock { action, responder_index } => {
                    lemma_action_effects_len(g.players, action);
                    lemma_execute_cards(g, action);
                    lemma_settle_on_top(execute_action(g, action));
                    lemma_settle_on_top(with_phase(g, PhaseModel::AwaitingBlock {
                        action,
                        responder_index: (responder_index + 1) as usize,
                    }));
                },
                _ => {},
            }
            assert(g1 == pass_block(g)->Ok_0);
        },
        MoveModel::RevealInfluence { card_index } => {
            assert(g1 == reveal_influence(g, player, card_index)->Ok_0);
            if let PhaseModel::AwaitingInfluenceLoss { next, .. } = g.phase {
                assert(drawn_cards(g.phase) == drawn_cards(*next));
            }
        },
        MoveModel::ExchangeReturn { keep } => {
            match g.phase {
                PhaseModel::AwaitingExchangeReturn { .. } => {
                    let players = g.players.update(
                        p,
                        PlayerModel {
                            coins: g.players[p].coins,
                            influence: crate::rules::assign_hidden(g.players[p].influence, keep),
                        },
                    );
                    lemma_next_turn_drawn(players, g.phase);
                    lemma_settle_on_top(GameModel { players, deck: shuffled, phase: next_turn_phase(players, g.phase) });
                },
                _ => {},
            }
            assert(g1 == exchange_return(g, player, keep, shuffled)->Ok_0);
        },
    }
}

/// Play keeps a game in progress until it ends: after a move accepted in a
/// game in progress, the game is over or still in progress.
pub proof fn law_move_keeps_game_in_progress(g: GameModel, player: usize, mv: MoveModel, shuffled: Seq<Card>)
    requires
        wf(g),
        in_progress(g),
        apply(g, player, mv, shuffled) is Ok,
    ensures
        apply(g, player, mv, shuffled)->Ok_0.phase is Terminal || in_progress(apply(g, player, mv, shuffled)->Ok_0),
{
    let g1 = move_step(g, player, mv, shuffled)->Ok_0;
    let h = finish(g1);
    let n = g.players.len();
    assert(move_step(g, player, mv, shuffled) is Ok);
    if let MoveModel::RevealInfluence { card_index } = mv {
        assert(g1 == reveal_influence(g, player, card_index)->Ok_0);
        assert(g1.players.len() == n);
        assert forall|i: int| 0 <= i < n && i != player implies (#[trigger] g.players[i]).alive() == g1.players[i].alive() by {
            assert(g1.players[i] == g.players[i]);
        }
        lemma_living_same_except(g.players, g1.players, player as int, n);
        lemma_living_split(g.players, player as int, n);
        lemma_living_split(g1.players, player as int, n);
    } else {
        lemma_step_flags(g, player, mv, shuffled);
        lemma_flags_alive(g.players, g1.players);
        lemma_living_same(g.players, g1.players, -1, n);
    }
    assert(crate::rules::living(g1.players).len() >= 1);
    if !(h.phase is Terminal) {
        assert(crate::rules::only_living_player(g1.players) is None);
        assert(h == settle(g1));
        lemma_settle_hands(g1);
        lemma_same_hands_flags(g1.players, h.players);
        lemma_flags_alive(g1.players, h.players);
        lemma_living_same(g1.players, h.players, -1, n);
        lemma_step_on_top(g, player, mv, shuffled);
        lemma_settle_on_top(g1);
    }
}

// ---------------------------------------------------------------------------
// Games as play makes them

/// A game as play makes it: well formed, every card of the court deck in
/// play (hands, deck and drawn cards), two influence cards in every hand,
/// and either over or in progress.
pub open spec fn play_ok(g: GameModel) -> bool {
    &&& wf(g)
    &&& table_cards(g) == crate::rules::court()
    &&& forall|j: int| 0 <= j < g.players.len() ==> (#[trigger] g.players[j]).influence.len() == 2
    &&& (g.phase is Terminal || in_progress(g))
}

/// Every new game is as play makes it.
pub proof fn law_new_game_play_ok(shuffled: Seq<Card>, player_count: nat)
    requires
        shuffled.to_multiset() == crate::rules::court(),
        shuffled.len() == 15,
        2 <= player_count <= 6,
        wf(crate::setup::deal(shuffled, player_count)),
    ensures
        play_ok(crate::setup::deal(shuffled, player_count)),
{
    law_new_game_deals_court(shuffled, player_count);
    law_deal_in_progress(shuffled, player_count);
}

/// Every accepted move keeps a game as play makes it: the court deck's
/// cards all stay in play, every hand keeps two cards, and the game goes on
/// in progress or ends.
pub proof fn law_move_keeps_play_ok(g: GameModel, player: usize, mv: MoveModel, shuffled: Seq<Card>)
    requires
        play_ok(g),
        shuffle_ok(g, player, mv, shuffled),
        apply(g, player, mv, shuffled) is Ok,
        wf(apply(g, player, mv, shuffled)->Ok_0),
    ensures
        play_ok(apply(g, player, mv, shuffled)->Ok_0),
{
    let h = apply(g, player, mv, shuffled)->Ok_0;
    assert(!(g.phase is Terminal));
    law_move_keeps_cards(g, player, mv, shuffled);
    law_move_keeps_hands(g, player, mv, shuffled);
    law_move_keeps_game_in_progress(g, player, mv, shuffled);
    assert forall|j: int| 0 <= j < h.players.len() implies (#[trigger] h.players[j]).influence.len() == 2 by {
        assert(h.players[j].influence.len() == g.players[j].influence.len());
    }
}

/// A move some full state consistent with a real observation allows is
/// legal in the real game for the player it awaits: so every bot, whose
/// move is such a move, answers its own turn in a real game legally. When
/// the viewer must turn a card up, this needs the viewer's hand to list its
/// face-down cards first, as every determinization does.
pub proof fn law_plausible_moves_are_legal(g: GameModel, viewer: usize, m: MoveModel)
    requires
        wf(g),
        viewer < g.players.len(),
        g.deck.len() <= usize::MAX,
        drawn_cards(g.phase).len() <= usize::MAX,
        crate::rules::active_player(g) == Some(viewer),
        crate::setup::plausible_move(observe(g, viewer), m),
        g.phase is AwaitingInfluenceLoss ==> face_down_first(g.players[viewer as int].influence),
    ensures
        crate::rules::legal_moves(g, viewer).contains(m),
{
    let o = observe(g, viewer);
    let shuffled = choose|shuffled: Seq<Card>| #[trigger] crate::setup::consistent_deal(o, shuffled) && {
        let d = determinized(o, shuffled);
        crate::rules::active_player(d) matches Some(p) && crate::rules::legal_moves(d, p).contains(m)
    };
    let d = determinized(o, shuffled);
    lemma_determinized_seats(g, viewer, shuffled);
    lemma_active_same(g, d, viewer);
    law_determinization_same_choices(g, viewer, shuffled);
}

// ---------------------------------------------------------------------------
// Steals

/// A resolved steal moves two coins from its target to its actor, or all
/// the target has when that is fewer, and touches nothing else: no other
/// coins and no hand change.
pub proof fn law_steal_takes_up_to_two(g: GameModel, action: DeclaredAction)
    requires
        action.kind matches crate::state::ActionKind::Steal { target } && target < g.players.len() && target
            != action.actor,
        action.actor < g.players.len(),
        g.players[action.actor as int].coins + 2 <= 255,
    ensures
        ({
            let target = action.kind->Steal_target;
            let before = g.players;
            let after = execute_action(g, action).players;
            let taken = after[action.actor as int].coins - before[action.actor as int].coins;
            &&& after.len() == before.len()
            &&& taken == (if before[target as int].coins < 2 { before[target as int].coins as int } else { 2 })
            &&& after[target as int].coins == before[target as int].coins - taken
            &&& forall|i: int| 0 <= i < before.len() && i != action.actor && i != target ==> (#[trigger] after[i]).coins
                == before[i].coins
            &&& forall|i: int| 0 <= i < before.len() ==> (#[trigger] after[i]).influence == before[i].influence
        }),
{
    lemma_action_effects_len(g.players, action);
}

/// Passing as the last one who may block a steal resolves it: the actor
/// gains two coins, or all the target has when that is fewer, and the
/// target loses them.
#[verifier::rlimit(50)]
pub proof fn law_unblocked_steal_pays(g: GameModel, player: usize, shuffled: Seq<Card>)
    requires
        wf(g),
        g.phase matches PhaseModel::AwaitingBlock { action, responder_index } && action.kind is Steal
            && action.kind->Steal_target != action.actor
            && responder_index + 1 >= crate::rules::block_responders(g.players, action).len(),
        apply(g, player, MoveModel::PassBlock, shuffled) is Ok,
    ensures
        ({
            let action = g.phase->AwaitingBlock_action;
            let target = action.kind->Steal_target;
            let before = g.players;
            let after = apply(g, player, MoveModel::PassBlock, shuffled)->Ok_0.players;
            let taken = after[action.actor as int].coins - before[action.actor as int].coins;
            &&& taken == (if before[target as int].coins < 2 { before[target as int].coins as int } else { 2 })
            &&& after[target as int].coins == before[target as int].coins - taken
        }),
{
    let action = g.phase->AwaitingBlock_action;
    let target = action.kind->Steal_target;
    assert(crate::rules::legal_moves(g, player).contains(MoveModel::PassBlock));
    assert(g.players[action.actor as int].coins < 10);
    law_steal_takes_up_to_two(g, action);
    let ea = execute_action(g, action);
    lemma_action_effects_len(g.players, action);
    lemma_next_turn_phase(ea.players, g.phase);
    assert(ea.phase == next_turn_phase(ea.players, g.phase));
    assert(settle(ea) == ea);
    assert(move_step(g, player, MoveModel::PassBlock, shuffled) == Ok::<GameModel, crate::state::GameError>(ea));
    let g1 = match crate::rules::only_living_player(ea.players) {
        Some(w) => with_phase(ea, PhaseModel::Terminal { winner: w }),
        None => ea,
    };
    assert(settle(g1) == g1);
}

} // verus!

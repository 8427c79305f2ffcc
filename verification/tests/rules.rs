use rand::rngs::StdRng;
use rand::SeedableRng;
use rusty_duke::engine::{Bot, IsmctsBot, RandomBot, RolloutPolicyKind, SearchConfig};
use rusty_duke::{Card, GameError, GameState, InfluenceCard, Move, Phase, PlayerState};

fn rigged_game(players: Vec<Vec<Card>>, deck: Vec<Card>) -> GameState {
    GameState {
        players: players
            .into_iter()
            .map(|cards| PlayerState {
                coins: 2,
                influence: cards.into_iter().map(|card| InfluenceCard { card, revealed: false }).collect(),
            })
            .collect(),
        deck,
        phase: Phase::AwaitingAction { actor: 0 },
        rng: StdRng::seed_from_u64(1),
    }
}

#[test]
fn setup_deals_two_cards_and_two_coins() {
    let game = GameState::new(4, 7).unwrap();
    assert_eq!(game.players.len(), 4);
    assert_eq!(game.deck.len(), 7);
    assert!(game.players.iter().all(|player| player.coins == 2));
    assert!(game.players.iter().all(|player| player.hidden_count() == 2));
    assert_eq!(game.active_player(), Some(0));
}

#[test]
fn income_adds_one_and_advances_turn() {
    let mut game = GameState::new(3, 1).unwrap();
    game.apply_move(0, Move::Income).unwrap();
    assert_eq!(game.players[0].coins, 3);
    assert_eq!(game.active_player(), Some(1));
}

#[test]
fn player_with_ten_coins_must_coup() {
    let mut game = GameState::new(3, 1).unwrap();
    game.players[0].coins = 10;
    let legal = game.legal_moves(0);
    assert!(legal.iter().all(|mv| matches!(mv, Move::Coup { .. })));
    assert_eq!(legal.len(), 2);
}

#[test]
fn coup_costs_seven_and_reveals_target_influence() {
    let mut game = GameState::new(2, 1).unwrap();
    game.players[0].coins = 7;
    game.apply_move(0, Move::Coup { target: 1 }).unwrap();
    assert_eq!(game.players[0].coins, 0);
    assert_eq!(game.active_player(), Some(1));
    game.apply_move(1, Move::RevealInfluence { card_index: 0 }).unwrap();
    assert_eq!(game.players[1].hidden_count(), 1);
}

#[test]
fn false_tax_claim_loses_influence_and_action_fails() {
    let mut game = rigged_game(
        vec![vec![Card::Captain, Card::Contessa], vec![Card::Duke, Card::Duke]],
        vec![Card::Assassin, Card::Ambassador, Card::Captain],
    );
    game.apply_move(0, Move::Tax).unwrap();
    game.apply_move(1, Move::Challenge).unwrap();
    game.apply_move(0, Move::RevealInfluence { card_index: 0 }).unwrap();
    assert_eq!(game.players[0].coins, 2);
    assert_eq!(game.players[0].hidden_count(), 1);
    assert_eq!(game.active_player(), Some(1));
}

#[test]
fn true_tax_claim_punishes_challenger_then_tax_resolves() {
    let mut game = rigged_game(
        vec![vec![Card::Duke, Card::Contessa], vec![Card::Captain, Card::Captain]],
        vec![Card::Assassin, Card::Ambassador, Card::Captain],
    );
    game.apply_move(0, Move::Tax).unwrap();
    game.apply_move(1, Move::Challenge).unwrap();
    game.apply_move(1, Move::RevealInfluence { card_index: 0 }).unwrap();
    assert_eq!(game.players[0].coins, 5);
    assert_eq!(game.players[1].hidden_count(), 1);
    assert_eq!(game.active_player(), Some(1));
}

#[test]
fn foreign_aid_can_be_blocked_by_duke() {
    let mut game = GameState::new(3, 1).unwrap();
    game.apply_move(0, Move::ForeignAid).unwrap();
    assert_eq!(game.active_player(), Some(1));
    game.apply_move(1, Move::Block { claim: Card::Duke }).unwrap();
    game.apply_move(0, Move::PassChallenge).unwrap();
    game.apply_move(2, Move::PassChallenge).unwrap();
    assert_eq!(game.players[0].coins, 2);
    assert_eq!(game.active_player(), Some(1));
}

#[test]
fn steal_takes_up_to_two_coins() {
    let mut game = rigged_game(
        vec![vec![Card::Captain, Card::Duke], vec![Card::Contessa, Card::Duke]],
        vec![Card::Assassin, Card::Ambassador, Card::Captain],
    );
    game.players[1].coins = 1;
    game.apply_move(0, Move::Steal { target: 1 }).unwrap();
    game.apply_move(1, Move::PassChallenge).unwrap();
    assert_eq!(game.active_player(), Some(1));
    game.apply_move(1, Move::PassBlock).unwrap();
    assert_eq!(game.players[0].coins, 3);
    assert_eq!(game.players[1].coins, 0);
}

#[test]
fn observation_hides_opponent_cards() {
    let game = rigged_game(
        vec![vec![Card::Duke, Card::Contessa], vec![Card::Captain, Card::Assassin]],
        vec![Card::Ambassador, Card::Ambassador, Card::Duke],
    );
    let obs = game.observation_for(0).unwrap();
    assert_eq!(obs.own_hidden_cards, vec![Card::Duke, Card::Contessa]);
    assert_eq!(obs.players[1].hidden_influence, 2);
    assert!(obs.players[1].revealed.is_empty());
}

#[test]
fn determinization_preserves_visible_information() {
    let mut game = rigged_game(
        vec![vec![Card::Duke, Card::Contessa], vec![Card::Captain, Card::Assassin]],
        vec![
            Card::Ambassador,
            Card::Ambassador,
            Card::Duke,
            Card::Captain,
            Card::Assassin,
            Card::Contessa,
            Card::Duke,
            Card::Captain,
            Card::Assassin,
            Card::Contessa,
            Card::Ambassador,
        ],
    );
    game.players[1].influence[0].revealed = true;
    let obs = game.observation_for(0).unwrap();
    let det = GameState::determinize(&obs, 9).unwrap();
    assert_eq!(det.hidden_cards(0), vec![Card::Duke, Card::Contessa]);
    assert_eq!(det.players[1].revealed_cards(), vec![Card::Captain]);
    let total_cards = det.deck.len() + det.players.iter().map(|player| player.influence.len()).sum::<usize>();
    assert_eq!(total_cards, 15);
}

#[test]
fn cannot_target_self_or_dead_players() {
    let mut game = GameState::new(3, 1).unwrap();
    game.players[0].coins = 7;
    game.players[2].influence[0].revealed = true;
    game.players[2].influence[1].revealed = true;

    let legal = game.legal_moves(0);
    assert!(!legal.contains(&Move::Coup { target: 0 }));
    assert!(!legal.contains(&Move::Coup { target: 2 }));
    assert_eq!(game.apply_move(0, Move::Coup { target: 0 }), Err(GameError::InvalidMove));
    assert_eq!(game.apply_move(0, Move::Coup { target: 2 }), Err(GameError::InvalidMove));
}

#[test]
fn assassinate_costs_three_and_forces_target_reveal_after_passes() {
    let mut game = rigged_game(
        vec![vec![Card::Assassin, Card::Duke], vec![Card::Contessa, Card::Captain]],
        vec![Card::Ambassador, Card::Ambassador, Card::Duke],
    );
    game.players[0].coins = 3;

    game.apply_move(0, Move::Assassinate { target: 1 }).unwrap();
    assert_eq!(game.players[0].coins, 0);
    game.apply_move(1, Move::PassChallenge).unwrap();
    game.apply_move(1, Move::PassBlock).unwrap();

    assert_eq!(game.active_player(), Some(1));
    game.apply_move(1, Move::RevealInfluence { card_index: 0 }).unwrap();
    assert_eq!(game.players[1].hidden_count(), 1);
    assert_eq!(game.active_player(), Some(1));
}

#[test]
fn true_assassination_block_stops_action_and_punishes_challenger() {
    let mut game = rigged_game(
        vec![vec![Card::Assassin, Card::Duke], vec![Card::Contessa, Card::Captain]],
        vec![Card::Ambassador, Card::Ambassador, Card::Duke],
    );
    game.players[0].coins = 3;

    game.apply_move(0, Move::Assassinate { target: 1 }).unwrap();
    game.apply_move(1, Move::PassChallenge).unwrap();
    game.apply_move(1, Move::Block { claim: Card::Contessa }).unwrap();
    game.apply_move(0, Move::Challenge).unwrap();
    game.apply_move(0, Move::RevealInfluence { card_index: 0 }).unwrap();

    assert_eq!(game.players[0].hidden_count(), 1);
    assert_eq!(game.players[1].hidden_count(), 2);
    assert_eq!(game.active_player(), Some(1));
}

#[test]
fn false_assassination_block_loses_blocker_influence_and_action_still_resolves() {
    let mut game = rigged_game(
        vec![vec![Card::Assassin, Card::Duke], vec![Card::Captain, Card::Captain]],
        vec![Card::Ambassador, Card::Ambassador, Card::Duke],
    );
    game.players[0].coins = 3;

    game.apply_move(0, Move::Assassinate { target: 1 }).unwrap();
    game.apply_move(1, Move::PassChallenge).unwrap();
    game.apply_move(1, Move::Block { claim: Card::Contessa }).unwrap();
    game.apply_move(0, Move::Challenge).unwrap();

    assert_eq!(game.active_player(), Some(1));
    game.apply_move(1, Move::RevealInfluence { card_index: 0 }).unwrap();
    assert_eq!(game.players[1].hidden_count(), 1);
    assert_eq!(game.active_player(), Some(1));
    game.apply_move(1, Move::RevealInfluence { card_index: 1 }).unwrap();

    assert_eq!(game.players[1].hidden_count(), 0);
    assert_eq!(game.winner(), Some(0));
}

#[test]
fn exchange_draws_two_and_returns_unkept_cards_to_deck() {
    let mut game = rigged_game(
        vec![vec![Card::Ambassador, Card::Duke], vec![Card::Captain, Card::Assassin]],
        vec![Card::Contessa, Card::Captain, Card::Duke],
    );

    game.apply_move(0, Move::Exchange).unwrap();
    game.apply_move(1, Move::PassChallenge).unwrap();

    let drawn = match &game.phase {
        Phase::AwaitingExchangeReturn { player, drawn } => {
            assert_eq!(*player, 0);
            drawn.clone()
        },
        phase => panic!("unexpected phase: {phase:?}"),
    };
    assert_eq!(drawn.len(), 2);

    game.apply_move(0, Move::ExchangeReturn { keep: vec![Card::Ambassador, drawn[0]] }).unwrap();

    assert_eq!(game.players[0].hidden_count(), 2);
    assert!(game.hidden_cards(0).contains(&Card::Ambassador));
    assert_eq!(game.deck.len(), 3);
    assert_eq!(game.active_player(), Some(1));
}

#[test]
fn random_bot_returns_legal_move_for_observation() {
    let game = GameState::new(3, 1).unwrap();
    let observation = game.observation_for(0).unwrap();
    let mut bot = RandomBot;
    let mut rng = StdRng::seed_from_u64(7);

    let mv = Bot::choose_move(&mut bot, &observation, &mut rng).unwrap();

    assert!(game.legal_moves(0).contains(&mv));
}

#[test]
fn ismcts_bot_returns_legal_move_for_observation() {
    let game = GameState::new(3, 1).unwrap();
    let observation = game.observation_for(0).unwrap();
    let mut bot = IsmctsBot::new(SearchConfig {
        iterations: 25,
        max_depth: 20,
        exploration_milli: 1400,
        rollout_policy: RolloutPolicyKind::Random,
    });
    let mut rng = StdRng::seed_from_u64(7);

    let mv = Bot::choose_move(&mut bot, &observation, &mut rng).unwrap();

    assert!(game.legal_moves(0).contains(&mv));
}

#[test]
fn ismcts_bot_is_deterministic_with_seeded_rng() {
    let game = GameState::new(3, 1).unwrap();
    let observation = game.observation_for(0).unwrap();
    let config = SearchConfig {
        iterations: 25,
        max_depth: 20,
        exploration_milli: 1400,
        rollout_policy: RolloutPolicyKind::Random,
    };
    let mut first_bot = IsmctsBot::new(config.clone());
    let mut second_bot = IsmctsBot::new(config);
    let mut first_rng = StdRng::seed_from_u64(11);
    let mut second_rng = StdRng::seed_from_u64(11);

    let first = Bot::choose_move(&mut first_bot, &observation, &mut first_rng);
    let second = Bot::choose_move(&mut second_bot, &observation, &mut second_rng);

    assert_eq!(first, second);
}

#[test]
fn dealing_takes_cards_off_the_top_of_the_shuffled_deck() {
    let shuffled = vec![
        Card::Duke,
        Card::Duke,
        Card::Duke,
        Card::Assassin,
        Card::Assassin,
        Card::Assassin,
        Card::Captain,
        Card::Captain,
        Card::Captain,
        Card::Ambassador,
        Card::Ambassador,
        Card::Ambassador,
        Card::Contessa,
        Card::Contessa,
        Card::Contessa,
    ];
    let game = GameState::deal_shuffled(2, shuffled.clone(), StdRng::seed_from_u64(1)).unwrap();
    assert_eq!(game.hidden_cards(0), vec![Card::Contessa, Card::Contessa]);
    assert_eq!(game.hidden_cards(1), vec![Card::Contessa, Card::Ambassador]);
    assert_eq!(game.deck, shuffled[..11].to_vec());
    assert!(game.players.iter().all(|player| player.coins == 2));
    assert_eq!(game.active_player(), Some(0));
    assert_eq!(
        GameState::deal_shuffled(7, shuffled, StdRng::seed_from_u64(1)).err(),
        Some(GameError::InvalidPlayerCount)
    );
}

#[test]
fn same_seed_deals_the_same_game_and_other_seeds_differ() {
    let first = GameState::new(4, 12).unwrap();
    let second = GameState::new(4, 12).unwrap();
    assert_eq!(first.deck, second.deck);
    assert_eq!(first.players, second.players);
    let others: Vec<GameState> = (13..20).map(|seed| GameState::new(4, seed).unwrap()).collect();
    assert!(others.iter().any(|other| other.deck != first.deck || other.players != first.players));
}

#[test]
fn unseen_cards_are_dealt_in_the_given_order() {
    let game = GameState::new(2, 3).unwrap();
    let observation = game.observation_for(0).unwrap();
    let unseen = vec![
        Card::Duke,
        Card::Assassin,
        Card::Captain,
        Card::Ambassador,
        Card::Contessa,
        Card::Duke,
        Card::Assassin,
        Card::Captain,
        Card::Ambassador,
        Card::Contessa,
        Card::Duke,
        Card::Assassin,
        Card::Captain,
    ];
    let det = GameState::deal_unseen(&observation, unseen.clone(), StdRng::seed_from_u64(2)).unwrap();
    assert_eq!(det.hidden_cards(0), game.hidden_cards(0));
    assert_eq!(det.hidden_cards(1), vec![Card::Captain, Card::Assassin]);
    assert_eq!(det.deck, unseen[..11].iter().rev().copied().collect::<Vec<Card>>());
    assert_eq!(
        GameState::deal_unseen(&observation, unseen[..5].to_vec(), StdRng::seed_from_u64(2)).err(),
        Some(GameError::InvalidInfluence)
    );
}

use rand::rngs::StdRng;
use rand::SeedableRng;
use rusty_duke::engine::{
    benchmark_head_to_head, benchmark_ismcts_vs_opponents, evaluate, BenchmarkBot, Bot, HeuristicBot, IsmctsBot,
    MultiOpponentConfig, RandomBot, RolloutPolicyKind, SearchConfig,
};
use rusty_duke::engine::eval::WIN_SCORE;
use rusty_duke::{Card, GameError, GameState, InfluenceCard, Move, Phase, PlayerState};

const ALL_CARDS: [Card; 5] = [Card::Duke, Card::Assassin, Card::Captain, Card::Ambassador, Card::Contessa];

fn rigged_game(players: Vec<Vec<Card>>, deck: Vec<Card>) -> GameState {
    GameState {
        players: players
            .into_iter()
            .map(|cards| PlayerState {
                coins: 2,
                influence: cards.into_iter().map(|card| InfluenceCard { card, revealed: false }).collect(),
            })
            .collect(),
        deck,
        phase: Phase::AwaitingAction { actor: 0 },
        rng: StdRng::seed_from_u64(1),
    }
}

fn drawn_cards(phase: &Phase) -> Vec<Card> {
    match phase {
        Phase::AwaitingExchangeReturn { drawn, .. } => drawn.clone(),
        Phase::AwaitingInfluenceLoss { next, .. } => drawn_cards(next),
        _ => Vec::new(),
    }
}

fn card_counts(game: &GameState) -> Vec<usize> {
    let mut cards: Vec<Card> = game.players.iter().flat_map(|p| p.influence.iter().map(|c| c.card)).collect();
    cards.extend(game.deck.iter().copied());
    cards.extend(drawn_cards(&game.phase));
    ALL_CARDS.iter().map(|card| cards.iter().filter(|c| *c == card).count()).collect()
}

/// Plays the first legal move until the game ends or `limit` moves were made,
/// checking after each move that seats and cards are kept.
fn play_first_moves(player_count: usize, seed: u64, limit: usize) -> GameState {
    let mut game = GameState::new(player_count, seed).unwrap();
    for _ in 0..limit {
        let Some(player) = game.active_player() else { break };
        let legal = game.legal_moves(player);
        let Some(mv) = legal.first().cloned() else { break };
        game.apply_move(player, mv).unwrap();
        assert_eq!(game.players.len(), player_count);
        if !game.is_terminal() {
            assert_eq!(card_counts(&game), vec![3, 3, 3, 3, 3]);
        }
    }
    game
}

#[test]
fn new_game_holds_three_of_each_character() {
    for player_count in 2..=6 {
        let game = GameState::new(player_count, 17).unwrap();
        assert_eq!(card_counts(&game), vec![3, 3, 3, 3, 3]);
        assert_eq!(game.deck.len(), 15 - 2 * player_count);
    }
}

#[test]
fn moves_keep_every_card_and_every_seat() {
    for seed in 0..6 {
        play_first_moves(4, seed, 200);
        play_first_moves(2, seed, 200);
    }
}

#[test]
fn different_seeds_deal_different_games() {
    let hands: Vec<Vec<Card>> = (0..8).map(|seed| GameState::new(6, seed).unwrap().deck).collect();
    assert!(hands.iter().any(|deck| *deck != hands[0]));
    let unshuffled = vec![Card::Duke, Card::Duke, Card::Duke];
    assert!(hands.iter().any(|deck| *deck != unshuffled));
}

#[test]
fn a_finished_game_names_a_seat_and_refuses_moves() {
    let mut game = play_first_moves(2, 3, 500);
    if let Some(winner) = game.winner() {
        assert!(winner < 2);
        assert!(game.is_terminal());
        assert_eq!(game.active_player(), None);
        assert_eq!(game.apply_move(winner, Move::Income), Err(GameError::GameOver));
    }
}

#[test]
fn every_legal_move_is_accepted_and_others_refused() {
    let probe = GameState::new(3, 5).unwrap();
    let legal = probe.legal_moves(0);
    assert!(!legal.is_empty());
    for mv in legal {
        let mut game = GameState::new(3, 5).unwrap();
        assert_eq!(game.apply_move(0, mv), Ok(()));
    }
    let mut game = GameState::new(3, 5).unwrap();
    assert_eq!(game.apply_move(0, Move::Steal { target: 0 }), Err(GameError::InvalidMove));
    assert_eq!(game.apply_move(1, Move::Income), Err(GameError::InvalidMove));
    assert_eq!(game.apply_move(0, Move::Challenge), Err(GameError::InvalidMove));
}

#[test]
fn refused_moves_leave_the_game_unchanged() {
    let mut game = GameState::new(3, 5).unwrap();
    let before = game.observation_for(0).unwrap();
    let deck_before = game.deck.clone();
    assert_eq!(game.apply_move(7, Move::Income), Err(GameError::InvalidPlayer));
    assert_eq!(game.apply_move(0, Move::Coup { target: 1 }), Err(GameError::InvalidMove));
    assert_eq!(game.observation_for(0).unwrap(), before);
    assert_eq!(game.deck, deck_before);
}

#[test]
fn invalid_player_counts_are_refused() {
    assert_eq!(GameState::new(0, 1).err(), Some(GameError::InvalidPlayerCount));
    assert_eq!(GameState::new(1, 1).err(), Some(GameError::InvalidPlayerCount));
    assert_eq!(GameState::new(7, 1).err(), Some(GameError::InvalidPlayerCount));
    assert!(GameState::new(6, 1).is_ok());
}

#[test]
fn unknown_viewers_are_refused() {
    let game = GameState::new(3, 5).unwrap();
    assert_eq!(game.observation_for(3).err(), Some(GameError::InvalidPlayer));
    let mut observation = game.observation_for(0).unwrap();
    observation.viewer = 5;
    assert_eq!(GameState::determinize(&observation, 1).err(), Some(GameError::InvalidPlayer));
}

#[test]
fn impossible_visible_cards_are_refused() {
    let game = GameState::new(3, 5).unwrap();
    let mut observation = game.observation_for(0).unwrap();
    observation.players[1].revealed = vec![Card::Duke, Card::Duke, Card::Duke, Card::Duke];
    assert_eq!(GameState::determinize(&observation, 1).err(), Some(GameError::InvalidInfluence));
    let mut observation = game.observation_for(0).unwrap();
    observation.deck_size = 40;
    assert_eq!(GameState::determinize(&observation, 1).err(), Some(GameError::InvalidInfluence));
}

#[test]
fn exchange_returns_are_checked() {
    let mut game = rigged_game(
        vec![vec![Card::Ambassador, Card::Duke], vec![Card::Captain, Card::Assassin]],
        vec![Card::Contessa, Card::Captain, Card::Duke],
    );
    game.apply_move(0, Move::Exchange).unwrap();
    game.apply_move(1, Move::PassChallenge).unwrap();
    assert_eq!(
        game.apply_move(1, Move::ExchangeReturn { keep: vec![Card::Ambassador, Card::Duke] }),
        Err(GameError::NotPlayersTurn)
    );
    assert_eq!(
        game.apply_move(0, Move::ExchangeReturn { keep: vec![Card::Ambassador] }),
        Err(GameError::InvalidExchangeReturn)
    );
    assert_eq!(
        game.apply_move(0, Move::ExchangeReturn { keep: vec![Card::Assassin, Card::Assassin] }),
        Err(GameError::InvalidExchangeReturn)
    );
    assert_eq!(game.apply_move(0, Move::ExchangeReturn { keep: vec![Card::Ambassador, Card::Duke] }), Ok(()));
    assert_eq!(card_counts(&game), card_counts(&rigged_game(
        vec![vec![Card::Ambassador, Card::Duke], vec![Card::Captain, Card::Assassin]],
        vec![Card::Contessa, Card::Captain, Card::Duke],
    )));
}

#[test]
fn reveal_needs_a_face_down_card() {
    let mut game = GameState::new(2, 1).unwrap();
    game.players[0].coins = 7;
    game.apply_move(0, Move::Coup { target: 1 }).unwrap();
    assert_eq!(game.apply_move(1, Move::RevealInfluence { card_index: 2 }), Err(GameError::InvalidMove));
    game.apply_move(1, Move::RevealInfluence { card_index: 1 }).unwrap();
    assert_eq!(game.players[1].revealed_cards().len(), 1);
}

#[test]
fn determinization_looks_the_same_to_its_viewer() {
    let game = play_first_moves(4, 9, 7);
    for viewer in 0..4 {
        let observation = game.observation_for(viewer).unwrap();
        for seed in 0..4 {
            let det = GameState::determinize(&observation, seed).unwrap();
            assert_eq!(det.observation_for(viewer).unwrap(), observation);
            let hand = &game.players[viewer].influence;
            let face_down_first = hand.windows(2).all(|pair| !pair[0].revealed || pair[1].revealed);
            if face_down_first || !matches!(game.phase, Phase::AwaitingInfluenceLoss { .. }) {
                assert_eq!(det.legal_moves(viewer), game.legal_moves(viewer));
            }
        }
    }
}

#[test]
fn determinization_offers_the_same_turn_actions() {
    let game = GameState::new(3, 4).unwrap();
    let observation = game.observation_for(0).unwrap();
    let det = GameState::determinize(&observation, 77).unwrap();
    assert_eq!(det.legal_moves(0), game.legal_moves(0));
    assert_eq!(det.hidden_cards(0), game.hidden_cards(0));
}

#[test]
fn observation_does_not_depend_on_other_hands() {
    let first = rigged_game(
        vec![vec![Card::Duke, Card::Contessa], vec![Card::Captain, Card::Assassin]],
        vec![Card::Ambassador, Card::Ambassador, Card::Duke],
    );
    let second = rigged_game(
        vec![vec![Card::Duke, Card::Contessa], vec![Card::Ambassador, Card::Duke]],
        vec![Card::Captain, Card::Assassin, Card::Ambassador],
    );
    assert_eq!(first.observation_for(0).unwrap(), second.observation_for(0).unwrap());
    assert_ne!(first.observation_for(1).unwrap(), second.observation_for(1).unwrap());
}

#[test]
fn ten_coins_allow_only_coups_at_living_opponents() {
    let mut game = GameState::new(4, 2).unwrap();
    game.players[0].coins = 12;
    game.players[3].influence[0].revealed = true;
    game.players[3].influence[1].revealed = true;
    let legal = game.legal_moves(0);
    assert_eq!(legal, vec![Move::Coup { target: 1 }, Move::Coup { target: 2 }]);
}

#[test]
fn turn_actions_follow_coins() {
    let mut game = GameState::new(3, 2).unwrap();
    game.players[0].coins = 2;
    let legal = game.legal_moves(0);
    assert!(!legal.iter().any(|mv| matches!(mv, Move::Assassinate { .. } | Move::Coup { .. })));
    assert_eq!(legal.len(), 4 + 2);
    game.players[0].coins = 7;
    let legal = game.legal_moves(0);
    assert_eq!(legal.len(), 4 + 2 + 2 + 2);
    assert!(game.legal_moves(1).is_empty());
}

#[test]
fn evaluation_scores_material_against_the_average_opponent() {
    let game = GameState::new(3, 1).unwrap();
    assert_eq!(evaluate(&game, 0), 6000);
    let mut game = rigged_game(
        vec![vec![Card::Duke, Card::Contessa], vec![Card::Captain, Card::Assassin]],
        vec![Card::Ambassador, Card::Ambassador, Card::Duke],
    );
    game.players[0].coins = 5;
    game.players[1].coins = 0;
    game.players[1].influence[0].revealed = true;
    assert_eq!(evaluate(&game, 0), 7800);
    assert_eq!(evaluate(&game, 1), 4200);
    game.players[1].influence[1].revealed = true;
    assert_eq!(evaluate(&game, 0), WIN_SCORE);
    assert_eq!(evaluate(&game, 1), 0);
    assert_eq!(evaluate(&game, 9), 0);
}

#[test]
fn evaluation_counts_coup_pressure() {
    let mut game = GameState::new(3, 1).unwrap();
    game.players[0].coins = 7;
    assert_eq!(evaluate(&game, 0), 6000 + 120 * (20 + 7 + 5) - 120 * 22);
    game.players[0].coins = 10;
    assert_eq!(evaluate(&game, 0), 6000 + 120 * (20 + 10 + 8) - 120 * 22);
    game.players[2].influence[0].revealed = true;
    game.players[2].influence[1].revealed = true;
    assert_eq!(evaluate(&game, 0), 6000 + 120 * (20 + 10 + 8) - 120 * 22);
    let mut game = GameState::new(4, 1).unwrap();
    game.players[3].coins = 10;
    assert_eq!(evaluate(&game, 0), 6000 + 120 * 22 - 120 * (22 + 22 + 38) / 3);
    game.players[1].coins = 60;
    assert_eq!(evaluate(&game, 0), 6000 + 120 * 22 - 120 * (88 + 22 + 38) / 3);
    assert_eq!(evaluate(&game, 1), WIN_SCORE);
}

#[test]
fn benchmarks_without_a_valid_table_are_all_draws() {
    let result = benchmark_ismcts_vs_opponents(MultiOpponentConfig {
        games: 3,
        player_count: 1,
        ismcts_bot: BenchmarkBot::Random,
        opponent_bot: BenchmarkBot::Random,
        max_decisions_per_game: 10,
        seed: 1,
    });
    assert_eq!(result.games, 3);
    assert_eq!(result.draws_or_timeouts, 3);
    assert_eq!(result.decisions, 0);
    let result = benchmark_head_to_head(BenchmarkBot::Random, BenchmarkBot::Random, 0, 1, 10);
    assert_eq!(result.games, 0);
    assert_eq!(result.left_wins + result.right_wins + result.draws_or_timeouts, 0);
}

#[test]
fn benchmark_decisions_stay_within_the_limit() {
    let result = benchmark_head_to_head(
        BenchmarkBot::Random,
        BenchmarkBot::Ismcts { iterations: 3, max_depth: 10, rollout_policy: RolloutPolicyKind::Random },
        2,
        5,
        4,
    );
    assert_eq!(result.games, 2);
    assert!(result.decisions <= 8);
    assert_eq!(result.left_wins + result.right_wins + result.draws_or_timeouts, 2);
}

fn exchange_in_progress() -> GameState {
    let mut game = rigged_game(
        vec![vec![Card::Ambassador, Card::Duke], vec![Card::Captain, Card::Assassin]],
        vec![Card::Contessa, Card::Captain, Card::Duke],
    );
    game.apply_move(0, Move::Exchange).unwrap();
    game.apply_move(1, Move::PassChallenge).unwrap();
    game
}

#[test]
fn every_offered_exchange_return_is_accepted() {
    let legal = exchange_in_progress().legal_moves(0);
    assert_eq!(legal.len(), 4);
    for mv in legal {
        let mut game = exchange_in_progress();
        assert_eq!(game.apply_move(0, mv), Ok(()));
        assert_eq!(card_counts(&game), card_counts(&exchange_in_progress()));
    }
}

#[test]
fn bots_answer_every_real_observation() {
    let mut rng = StdRng::seed_from_u64(21);
    for moves in [0, 3, 6, 9] {
        let game = play_first_moves(3, 4, moves);
        if game.is_terminal() {
            continue;
        }
        for viewer in 0..3 {
            let observation = game.observation_for(viewer).unwrap();
            assert!(RandomBot.choose_move(&observation, &mut rng).is_some());
            assert!(HeuristicBot::default().choose_move(&observation, &mut rng).is_some());
            let mut search = IsmctsBot::new(SearchConfig {
                iterations: 4,
                max_depth: 10,
                exploration_milli: 1400,
                rollout_policy: RolloutPolicyKind::Random,
            });
            assert!(search.choose_move(&observation, &mut rng).is_some());
        }
    }
}

#[test]
fn cloned_games_play_on_identically() {
    let mut game = rigged_game(
        vec![vec![Card::Duke, Card::Contessa], vec![Card::Captain, Card::Captain]],
        vec![Card::Assassin, Card::Ambassador, Card::Captain, Card::Duke, Card::Contessa],
    );
    game.apply_move(0, Move::Tax).unwrap();
    let mut copy = game.clone();
    assert_eq!(copy.deck, game.deck);
    assert_eq!(copy.observation_for(1).unwrap(), game.observation_for(1).unwrap());
    game.apply_move(1, Move::Challenge).unwrap();
    copy.apply_move(1, Move::Challenge).unwrap();
    assert_eq!(copy.deck, game.deck);
    assert_eq!(copy.hidden_cards(0), game.hidden_cards(0));
    assert_eq!(card_counts(&copy), card_counts(&game));
}

#[test]
fn same_seeds_give_the_same_games_and_moves() {
    let first = GameState::new(5, 99).unwrap();
    let second = GameState::new(5, 99).unwrap();
    assert_eq!(first.deck, second.deck);
    assert_eq!(first.observation_for(2).unwrap(), second.observation_for(2).unwrap());
    let observation = first.observation_for(1).unwrap();
    let a = GameState::determinize(&observation, 5).unwrap();
    let b = GameState::determinize(&observation, 5).unwrap();
    assert_eq!(a.deck, b.deck);
    assert_eq!(a.hidden_cards(3), b.hidden_cards(3));
    let mut first_rng = StdRng::seed_from_u64(8);
    let mut second_rng = StdRng::seed_from_u64(8);
    let mut bot = HeuristicBot::default();
    assert_eq!(bot.choose_move(&observation, &mut first_rng), bot.choose_move(&observation, &mut second_rng));
}

fn full_court_game() -> GameState {
    rigged_game(
        vec![vec![Card::Ambassador, Card::Duke], vec![Card::Captain, Card::Assassin], vec![Card::Contessa, Card::Duke]],
        vec![
            Card::Duke,
            Card::Assassin,
            Card::Assassin,
            Card::Captain,
            Card::Captain,
            Card::Ambassador,
            Card::Ambassador,
            Card::Contessa,
            Card::Contessa,
        ],
    )
}

fn pass_until(game: &mut GameState, player: usize) {
    while game.active_player() != Some(player) {
        let responder = game.active_player().unwrap();
        game.apply_move(responder, Move::PassChallenge).unwrap();
    }
}

#[test]
fn exchange_passes_the_turn_to_the_next_seat() {
    let mut game = full_court_game();
    game.apply_move(0, Move::Income).unwrap();
    game.apply_move(1, Move::Exchange).unwrap();
    pass_until(&mut game, 1);
    let keep = game.legal_moves(1)[0].clone();
    game.apply_move(1, keep).unwrap();
    assert_eq!(game.active_player(), Some(2));
    assert_eq!(card_counts(&game), vec![3, 3, 3, 3, 3]);
}

#[test]
fn losing_a_challenge_never_stalls_the_game() {
    let mut game = rigged_game(
        vec![vec![Card::Assassin, Card::Duke], vec![Card::Captain, Card::Contessa], vec![Card::Duke, Card::Captain]],
        vec![Card::Ambassador, Card::Ambassador, Card::Contessa],
    );
    game.players[0].coins = 3;
    game.players[1].influence[0].revealed = true;
    game.apply_move(0, Move::Assassinate { target: 1 }).unwrap();
    pass_until(&mut game, 1);
    game.apply_move(1, Move::Challenge).unwrap();
    while matches!(game.phase, Phase::AwaitingInfluenceLoss { .. }) {
        let loser = game.active_player().unwrap();
        let reveal = game.legal_moves(loser)[0].clone();
        game.apply_move(loser, reveal).unwrap();
    }
    assert_eq!(game.players[1].hidden_count(), 0);
    assert!(!game.is_terminal());
    let next = game.active_player().unwrap();
    assert!(!game.legal_moves(next).is_empty());
}

#[test]
fn other_players_drawn_cards_stay_hidden() {
    let mut game = full_court_game();
    game.apply_move(0, Move::Exchange).unwrap();
    pass_until(&mut game, 0);
    let drawn = drawn_cards(&game.phase);
    assert_eq!(drawn.len(), 2);

    let exchanger_view = game.observation_for(0).unwrap();
    assert_eq!(exchanger_view.hidden_drawn, 0);
    assert_eq!(drawn_cards(&exchanger_view.phase), drawn);

    let other_view = game.observation_for(1).unwrap();
    assert_eq!(other_view.hidden_drawn, 2);
    assert!(drawn_cards(&other_view.phase).is_empty());
    assert!(matches!(other_view.phase, Phase::AwaitingExchangeReturn { player: 0, .. }));

    for seed in 0..4 {
        let det = GameState::determinize(&other_view, seed).unwrap();
        assert_eq!(det.observation_for(1).unwrap(), other_view);
        assert_eq!(drawn_cards(&det.phase).len(), 2);
        assert_eq!(card_counts(&det), vec![3, 3, 3, 3, 3]);
        let same = GameState::determinize(&exchanger_view, seed).unwrap();
        assert_eq!(drawn_cards(&same.phase), drawn);
        assert_eq!(card_counts(&same), vec![3, 3, 3, 3, 3]);
    }
}

#[test]
fn bots_reveal_a_face_down_card() {
    let mut game = full_court_game();
    game.players[0].influence[1].revealed = true;
    game.players[1].coins = 7;
    game.phase = Phase::AwaitingAction { actor: 1 };
    game.apply_move(1, Move::Coup { target: 0 }).unwrap();
    assert_eq!(game.legal_moves(0), vec![Move::RevealInfluence { card_index: 0 }]);
    let observation = game.observation_for(0).unwrap();
    let det = GameState::determinize(&observation, 3).unwrap();
    assert_eq!(det.players[0].influence, game.players[0].influence);
    assert_eq!(det.legal_moves(0), game.legal_moves(0));
    let mut rng = StdRng::seed_from_u64(7);
    let mut search = IsmctsBot::new(SearchConfig {
        iterations: 8,
        max_depth: 10,
        exploration_milli: 1400,
        rollout_policy: RolloutPolicyKind::Random,
    });
    let mv = search.choose_move(&observation, &mut rng).unwrap();
    assert_eq!(mv, Move::RevealInfluence { card_index: 0 });
    assert_eq!(game.apply_move(0, mv), Ok(()));
}

#[test]
fn hands_keep_their_size_and_face_up_cards() {
    for seed in 0..6 {
        let mut game = GameState::new(4, seed).unwrap();
        for _ in 0..80 {
            let Some(player) = game.active_player() else { break };
            let legal = game.legal_moves(player);
            let Some(mv) = legal.last().cloned() else { break };
            let before = game.players.clone();
            game.apply_move(player, mv).unwrap();
            for (old, new) in before.iter().zip(game.players.iter()) {
                assert_eq!(new.influence.len(), 2);
                for (a, b) in old.influence.iter().zip(new.influence.iter()) {
                    if a.revealed {
                        assert_eq!(a, b);
                    }
                }
            }
        }
    }
}

#[test]
fn legal_moves_are_never_offered_twice() {
    let mut exchange = exchange_in_progress();
    exchange.players[0].influence[1].card = Card::Contessa;
    for game in [exchange_in_progress(), exchange, full_court_game()] {
        let player = game.active_player().unwrap();
        let legal = game.legal_moves(player);
        for (i, a) in legal.iter().enumerate() {
            assert!(legal[i + 1..].iter().all(|b| a != b));
        }
    }
    for seed in 0..4 {
        let mut game = GameState::new(3, seed).unwrap();
        for _ in 0..60 {
            let Some(player) = game.active_player() else { break };
            let legal = game.legal_moves(player);
            for (i, a) in legal.iter().enumerate() {
                assert!(legal[i + 1..].iter().all(|b| a != b));
            }
            if legal.is_empty() {
                break;
            }
            let mv = legal[seed as usize % legal.len()].clone();
            game.apply_move(player, mv).unwrap();
        }
    }
}

#[test]
fn cards_stay_in_play_when_the_game_ends() {
    for seed in 0..6 {
        let mut game = GameState::new(3, seed).unwrap();
        for step in 0..400 {
            let Some(player) = game.active_player() else { break };
            let legal = game.legal_moves(player);
            if legal.is_empty() {
                break;
            }
            let mv = legal[(step + seed as usize) % legal.len()].clone();
            game.apply_move(player, mv).unwrap();
            assert_eq!(card_counts(&game), vec![3, 3, 3, 3, 3]);
        }
        assert!(game.is_terminal());
    }
}

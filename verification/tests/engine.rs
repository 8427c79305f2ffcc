use rand::rngs::StdRng;
use rand::SeedableRng;
use rusty_duke::engine::rollout::pick_jittered;
use rusty_duke::engine::{
    benchmark_head_to_head, benchmark_ismcts_vs_opponents, benchmark_ismcts_vs_random, Bot, BenchmarkBot,
    BenchmarkConfig, HeuristicBot, HeuristicProfile, HeuristicRolloutPolicy, MultiOpponentConfig, RolloutPolicy,
    RolloutPolicyKind,
};
use rusty_duke::{ActionKind, Card, DeclaredAction, GameState, InfluenceCard, Move, Phase, PlayerState};

fn rigged_game(players: Vec<Vec<Card>>) -> GameState {
    let mut game = GameState::new(players.len(), 1).unwrap();
    game.players = players
        .into_iter()
        .map(|cards| PlayerState {
            coins: 2,
            influence: cards.into_iter().map(|card| InfluenceCard { card, revealed: false }).collect(),
        })
        .collect();
    game
}

#[test]
fn heuristic_bot_returns_legal_move() {
    let game = GameState::new(3, 1).unwrap();
    let observation = game.observation_for(0).unwrap();
    let mut bot = HeuristicBot::default();
    let mut rng = StdRng::seed_from_u64(5);

    let mv = bot.choose_move(&observation, &mut rng).unwrap();

    assert!(game.legal_moves(0).contains(&mv));
}

#[test]
fn heuristic_policy_only_returns_legal_moves() {
    let game = GameState::new(3, 1).unwrap();
    let player = game.active_player().unwrap();
    let legal = game.legal_moves(player);
    let mut rng = StdRng::seed_from_u64(3);

    let mv = HeuristicRolloutPolicy::new(HeuristicProfile::Balanced).choose_move(&game, player, &legal, &mut rng).unwrap();

    assert!(legal.contains(&mv));
}

#[test]
fn heuristic_blocks_assassination_when_holding_contessa() {
    let mut game = rigged_game(vec![vec![Card::Assassin, Card::Duke], vec![Card::Contessa, Card::Captain]]);
    game.phase = Phase::AwaitingBlock {
        action: DeclaredAction { actor: 0, kind: ActionKind::Assassinate { target: 1 } },
        responder_index: 0,
    };
    let legal = vec![Move::PassBlock, Move::Block { claim: Card::Contessa }];
    let mut rng = StdRng::seed_from_u64(3);

    let mv = HeuristicRolloutPolicy::new(HeuristicProfile::Balanced).choose_move(&game, 1, &legal, &mut rng).unwrap();

    assert_eq!(mv, Move::Block { claim: Card::Contessa });
}

#[test]
fn heuristic_passes_assassination_block_without_contessa() {
    let mut game = rigged_game(vec![vec![Card::Assassin, Card::Duke], vec![Card::Captain, Card::Captain]]);
    game.phase = Phase::AwaitingBlock {
        action: DeclaredAction { actor: 0, kind: ActionKind::Assassinate { target: 1 } },
        responder_index: 0,
    };
    let legal = vec![Move::PassBlock, Move::Block { claim: Card::Contessa }];
    let mut rng = StdRng::seed_from_u64(3);

    let mv = HeuristicRolloutPolicy::new(HeuristicProfile::Balanced).choose_move(&game, 1, &legal, &mut rng).unwrap();

    assert_eq!(mv, Move::PassBlock);
}

#[test]
fn heuristic_challenges_impossible_claim() {
    let mut game = rigged_game(vec![vec![Card::Duke, Card::Captain], vec![Card::Assassin, Card::Contessa]]);
    game.players[0].influence.push(InfluenceCard { card: Card::Duke, revealed: true });
    game.players[1].influence.push(InfluenceCard { card: Card::Duke, revealed: true });
    game.phase = Phase::AwaitingChallenge { action: DeclaredAction { actor: 1, kind: ActionKind::Tax }, responder_index: 0 };
    let legal = vec![Move::Challenge, Move::PassChallenge];
    let mut rng = StdRng::seed_from_u64(3);

    let mv = HeuristicRolloutPolicy::new(HeuristicProfile::Balanced).choose_move(&game, 0, &legal, &mut rng).unwrap();

    assert_eq!(mv, Move::Challenge);
}

#[test]
fn heuristic_avoids_making_impossible_claim() {
    let mut game = rigged_game(vec![vec![Card::Captain], vec![Card::Captain]]);
    game.players[0].coins = 0;
    game.players[1].coins = 6;
    game.players[0].influence.push(InfluenceCard { card: Card::Assassin, revealed: true });
    game.players[0].influence.push(InfluenceCard { card: Card::Assassin, revealed: true });
    game.players[1].influence.push(InfluenceCard { card: Card::Assassin, revealed: true });
    game.phase = Phase::AwaitingAction { actor: 1 };
    let legal = game.legal_moves(1);
    let mut rng = StdRng::seed_from_u64(3);

    let mv = HeuristicRolloutPolicy::new(HeuristicProfile::Balanced).choose_move(&game, 1, &legal, &mut rng).unwrap();

    assert_ne!(mv, Move::Assassinate { target: 0 });
}

#[test]
fn benchmark_harness_runs_seeded_games() {
    let result = benchmark_ismcts_vs_random(BenchmarkConfig {
        games: 4,
        player_count: 3,
        ismcts_iterations: 5,
        max_depth: 20,
        rollout_policy: RolloutPolicyKind::Random,
        max_decisions_per_game: 300,
        seed: 7,
    });

    assert_eq!(result.games, 4);
    assert_eq!(result.ismcts_wins + result.opponent_wins + result.draws_or_timeouts, 4);
    assert!(result.decisions > 0);
}

#[test]
fn head_to_head_harness_runs_seeded_games() {
    let result = benchmark_head_to_head(BenchmarkBot::Heuristic(HeuristicProfile::Balanced), BenchmarkBot::Random, 4, 31, 300);

    assert_eq!(result.games, 4);
    assert_eq!(result.left_wins + result.right_wins + result.draws_or_timeouts, 4);
    assert!(result.decisions > 0);
}

#[test]
fn multi_opponent_harness_runs_seeded_games() {
    let result = benchmark_ismcts_vs_opponents(MultiOpponentConfig {
        games: 4,
        player_count: 4,
        ismcts_bot: BenchmarkBot::Ismcts {
            iterations: 5,
            max_depth: 20,
            rollout_policy: RolloutPolicyKind::Heuristic(HeuristicProfile::Balanced),
        },
        opponent_bot: BenchmarkBot::Random,
        max_decisions_per_game: 300,
        seed: 41,
    });

    assert_eq!(result.games, 4);
    assert_eq!(result.ismcts_wins + result.opponent_wins + result.draws_or_timeouts, 4);
    assert!(result.decisions > 0);
}

#[test]
fn ismcts_against_random_is_the_multi_opponent_run() {
    let config = BenchmarkConfig {
        games: 3,
        player_count: 3,
        ismcts_iterations: 4,
        max_depth: 15,
        rollout_policy: RolloutPolicyKind::Heuristic(HeuristicProfile::Balanced),
        max_decisions_per_game: 200,
        seed: 9,
    };
    let direct = benchmark_ismcts_vs_random(config);
    let general = benchmark_ismcts_vs_opponents(MultiOpponentConfig {
        games: 3,
        player_count: 3,
        ismcts_bot: BenchmarkBot::Ismcts {
            iterations: 4,
            max_depth: 15,
            rollout_policy: RolloutPolicyKind::Heuristic(HeuristicProfile::Balanced),
        },
        opponent_bot: BenchmarkBot::Random,
        max_decisions_per_game: 200,
        seed: 9,
    });
    assert_eq!(direct.games, general.games);
    assert_eq!(direct.ismcts_wins, general.ismcts_wins);
    assert_eq!(direct.opponent_wins, general.opponent_wins);
    assert_eq!(direct.draws_or_timeouts, general.draws_or_timeouts);
    assert_eq!(direct.decisions, general.decisions);
}

#[test]
fn benchmarks_accept_any_decision_limit() {
    let result = benchmark_head_to_head(BenchmarkBot::Random, BenchmarkBot::Random, 2, 5, usize::MAX);
    assert_eq!(result.games, 2);
    assert!(result.decisions > 0);
}

#[test]
fn jittered_pick_takes_the_last_highest_sum() {
    assert_eq!(pick_jittered(&vec![10, 12, 11], &vec![3, 0, 1]), 0);
    assert_eq!(pick_jittered(&vec![10, 12, 11], &vec![2, 0, 1]), 2);
    assert_eq!(pick_jittered(&vec![10, 12, 11], &vec![0, 0, 0]), 1);
    assert_eq!(pick_jittered(&vec![5, 5], &vec![2, 2]), 1);
    assert_eq!(pick_jittered(&vec![7], &vec![3]), 0);
}

//! Seeded benchmark games between bots, tallied.
use rand::rngs::StdRng;
use std::time::{Duration, Instant};
use vstd::prelude::*;

use crate::engine::bot::{heuristic_choice, Bot, HeuristicBot, RandomBot};
use crate::engine::ismcts::{searched_choice, IsmctsBot, SearchConfig};
use crate::engine::rollout::{accepted_step, is_play, one_move, play_stops, HeuristicProfile, RolloutPolicyKind};
use crate::game::contains_move;
use crate::random::{seeded_rng, seeded_shuffle};
use crate::cards::{spec_standard_deck, Card};
use crate::laws::{law_awaited_player_is_seat, law_legal_moves_accepted, law_move_keeps_seats, law_winner_is_seat};
use crate::rules::{active_player, apply, legal_moves, shuffle_ok, winner};
use crate::setup::{always_playable, deal, observation_ok, observe, plausible_move};
use crate::state::{moves_model, GameError, GameModel, GameState, Move, MoveModel, Observation, ObservationModel, PlayerId};

verus! {

/// `std::time::Instant`, a point on the monotonic clock.
#[verifier::external_type_specification]
#[verifier::external_body]
pub struct ExInstant(Instant);

/// Calls `Instant::now`: the current time; nothing is stated of it.
#[verifier::external_body]
fn clock_now() -> Instant {
    Instant::now()
}

/// Calls `Instant::elapsed`: the time since `start`; nothing is stated of it.
#[verifier::external_body]
fn elapsed_since(start: &Instant) -> Duration {
    start.elapsed()
}

/// Calls `Duration::as_millis`: whole milliseconds; nothing is stated of them.
#[verifier::external_body]
fn whole_millis(duration: &Duration) -> u128 {
    duration.as_millis()
}

/// Settings for ISMCTS (seat 0) against random bots.
#[derive(Debug, Clone, Copy)]
pub struct BenchmarkConfig {
    pub games: usize,
    pub player_count: usize,
    pub ismcts_iterations: usize,
    pub max_depth: usize,
    pub rollout_policy: RolloutPolicyKind,
    pub max_decisions_per_game: usize,
    pub seed: u64,
}

impl Default for BenchmarkConfig {
    fn default() -> (config: Self)
        ensures
            config.games == 100,
            config.player_count == 3,
            config.ismcts_iterations == 100,
            config.max_depth == 80,
            config.rollout_policy == RolloutPolicyKind::Random,
            config.max_decisions_per_game == 500,
            config.seed == 1,
    {
        Self {
            games: 100,
            player_count: 3,
            ismcts_iterations: 100,
            max_depth: 80,
            rollout_policy: RolloutPolicyKind::Random,
            max_decisions_per_game: 500,
            seed: 1,
        }
    }
}

/// The tally of a benchmark of the tracked bot (seat 0) against opponents.
#[derive(Debug, Clone, Copy, PartialEq)]
pub struct BenchmarkResult {
    pub games: usize,
    pub ismcts_wins: usize,
    pub opponent_wins: usize,
    pub draws_or_timeouts: usize,
    pub decisions: usize,
    pub elapsed_ms: u128,
}

/// A bot taking part in a benchmark.
#[derive(Debug, Clone, Copy, PartialEq, Eq)]
pub enum BenchmarkBot {
    Random,
    Heuristic(HeuristicProfile),
    Ismcts { iterations: usize, max_depth: usize, rollout_policy: RolloutPolicyKind },
}

/// The tally of two-player games between two bots that alternate seats.
#[derive(Debug, Clone, PartialEq)]
pub struct HeadToHeadResult {
    pub left: BenchmarkBot,
    pub right: BenchmarkBot,
    pub games: usize,
    pub left_wins: usize,
    pub right_wins: usize,
    pub draws_or_timeouts: usize,
    pub decisions: usize,
    pub elapsed_ms: u128,
}

/// Settings for a tracked bot (seat 0) against one kind of opponent in every
/// other seat.
#[derive(Debug, Clone, Copy)]
pub struct MultiOpponentConfig {
    pub games: usize,
    pub player_count: usize,
    pub ismcts_bot: BenchmarkBot,
    pub opponent_bot: BenchmarkBot,
    pub max_decisions_per_game: usize,
    pub seed: u64,
}

/// How one benchmark game ended: its winner, if any, and the decisions made.
#[derive(Debug, Clone, Copy)]
struct GameBenchmarkResult {
    winner: Option<PlayerId>,
    decisions: usize,
}

/// How a benchmark game ends: a winner seated at the table (if any) and at
/// most `max_decisions` decisions; no game is played on an invalid table,
/// and on a valid one the outcome reports a game played from the deal
/// shuffled with `deal_seed`, with `bot` making the moves of seat `seat` and
/// `others` those of every other seat.
pub open spec fn outcome_ok(
    outcome: (Option<usize>, usize),
    player_count: nat,
    max_decisions: nat,
    deal_seed: u64,
    seat: usize,
    bot: BenchmarkBot,
    others: BenchmarkBot,
) -> bool {
    &&& outcome.1 <= max_decisions
    &&& outcome.0 matches Some(w) ==> w < player_count
    &&& !(2 <= player_count <= 6) ==> outcome.0 is None && outcome.1 == 0
    &&& 2 <= player_count <= 6 ==> exists|path: Seq<GameModel>|
        #[trigger] benchmark_play(path, player_count, deal_seed) && played_by(path, seat, bot, others) && reports_play(
            path,
            outcome.0,
            outcome.1 as nat,
            max_decisions,
        )
}

/// The search settings a benchmark gives an ISMCTS bot.
pub open spec fn benchmark_search(iterations: usize, max_depth: usize, rollout_policy: RolloutPolicyKind) -> SearchConfig {
    SearchConfig { iterations, max_depth, exploration_milli: 1400, rollout_policy }
}

/// What `bot` may propose for the observation `o`: a move legal in some
/// consistent full state, one whenever every consistent full state can be
/// played on, and from a heuristic bot a heuristic choice, from an ISMCTS
/// bot the outcome of its search.
pub open spec fn proposal_ok(bot: BenchmarkBot, o: ObservationModel, proposed: Option<MoveModel>) -> bool {
    &&& proposed matches Some(m) ==> plausible_move(o, m)
    &&& always_playable(o) ==> proposed is Some
    &&& bot matches BenchmarkBot::Heuristic(profile) ==> (proposed matches Some(m) ==> heuristic_choice(o, m, profile))
    &&& bot matches BenchmarkBot::Ismcts { iterations, max_depth, rollout_policy } ==> (proposed matches Some(m)
        ==> searched_choice(o, m, benchmark_search(iterations, max_depth, rollout_policy)))
}

/// The bot of seat `p`: `bot` at `seat`, `others` elsewhere.
pub open spec fn seat_bot(p: usize, seat: usize, bot: BenchmarkBot, others: BenchmarkBot) -> BenchmarkBot {
    if p == seat {
        bot
    } else {
        others
    }
}

/// `next` follows from `g` by the move the benchmark makes for the awaited
/// player: what that player's bot may propose for what the player
/// observes, or the first legal move where the proposal is not legal.
pub open spec fn bot_step(g: GameModel, next: GameModel, seat: usize, bot: BenchmarkBot, others: BenchmarkBot) -> bool {
    exists|p: usize, proposed: Option<MoveModel>, sh: Seq<Card>|
        active_player(g) == Some(p) && proposal_ok(seat_bot(p, seat, bot, others), observe(g, p), proposed)
            && #[trigger] accepted_step(g, p, fallback_move(g, p, proposed), sh, next)
}

/// Every move of `path` was made by the bot of the seat that made it.
pub open spec fn played_by(path: Seq<GameModel>, seat: usize, bot: BenchmarkBot, others: BenchmarkBot) -> bool {
    forall|i: int| 0 <= i < path.len() - 1 ==> #[trigger] bot_step(path[i], path[i + 1], seat, bot, others)
}

/// The games won by `seat`.
pub open spec fn wins_of(outcomes: Seq<(Option<usize>, usize)>, seat: usize) -> nat
    decreases outcomes.len(),
{
    if outcomes.len() == 0 {
        0
    } else {
        wins_of(outcomes.drop_last(), seat) + if outcomes.last().0 == Some(seat) { 1nat } else { 0nat }
    }
}

/// The games won by a seat other than `seat`.
pub open spec fn wins_against(outcomes: Seq<(Option<usize>, usize)>, seat: usize) -> nat
    decreases outcomes.len(),
{
    if outcomes.len() == 0 {
        0
    } else {
        wins_against(outcomes.drop_last(), seat) + if outcomes.last().0 matches Some(w) && w != seat {
            1nat
        } else {
            0nat
        }
    }
}

/// The games won by the left bot, which sits in seat `i % 2` in game `i`.
pub open spec fn left_wins_of(outcomes: Seq<(Option<usize>, usize)>) -> nat
    decreases outcomes.len(),
{
    if outcomes.len() == 0 {
        0
    } else {
        let seat = ((outcomes.len() - 1) % 2) as usize;
        left_wins_of(outcomes.drop_last()) + if outcomes.last().0 == Some(seat) { 1nat } else { 0nat }
    }
}

/// The games won by the right bot, which sits in the other seat.
pub open spec fn right_wins_of(outcomes: Seq<(Option<usize>, usize)>) -> nat
    decreases outcomes.len(),
{
    if outcomes.len() == 0 {
        0
    } else {
        let seat = ((outcomes.len() - 1) % 2) as usize;
        right_wins_of(outcomes.drop_last()) + if outcomes.last().0 matches Some(w) && w != seat {
            1nat
        } else {
            0nat
        }
    }
}

/// The games nobody won within the decision limit.
pub open spec fn undecided(outcomes: Seq<(Option<usize>, usize)>) -> nat
    decreases outcomes.len(),
{
    if outcomes.len() == 0 {
        0
    } else {
        undecided(outcomes.drop_last()) + if outcomes.last().0 is None { 1nat } else { 0nat }
    }
}

/// The decisions made over all games.
pub open spec fn total_decisions(outcomes: Seq<(Option<usize>, usize)>) -> nat
    decreases outcomes.len(),
{
    if outcomes.len() == 0 {
        0
    } else {
        total_decisions(outcomes.drop_last()) + outcomes.last().1 as nat
    }
}

/// The move the given bot proposes for the observation.
fn choose_benchmark_move(bot: BenchmarkBot, observation: &Observation, rng: &mut StdRng) -> (choice: Option<Move>)
    requires
        observation_ok(observation@),
    ensures
        proposal_ok(bot, observation@, proposed_model(choice)),
{
    match bot {
        BenchmarkBot::Random => {
            let mut bot = RandomBot;
            bot.choose_move(observation, rng)
        },
        BenchmarkBot::Heuristic(profile) => {
            let mut bot = HeuristicBot::new(profile);
            bot.choose_move(observation, rng)
        },
        BenchmarkBot::Ismcts { iterations, max_depth, rollout_policy } => {
            let mut bot = IsmctsBot::new(SearchConfig { iterations, max_depth, exploration_milli: 1400, rollout_policy });
            assert(bot.config == benchmark_search(iterations, max_depth, rollout_policy));
            bot.choose_move(observation, rng)
        },
    }
}

/// The model of a proposed move, if any.
pub open spec fn proposed_model(mv: Option<Move>) -> Option<MoveModel> {
    match mv {
        Some(m) => Some(m@),
        None => None,
    }
}

/// The move a benchmark makes for `player`: the proposed one if it is
/// legal, else the first legal move.
pub open spec fn fallback_move(g: GameModel, player: usize, proposed: Option<MoveModel>) -> MoveModel {
    match proposed {
        Some(m) => if legal_moves(g, player).contains(m) {
            m
        } else {
            legal_moves(g, player)[0]
        },
        None => legal_moves(g, player)[0],
    }
}

/// Makes the proposed move if it is legal, else the first legal move;
/// `None`, and the game unchanged, when nothing is legal.
fn apply_or_fallback(game: &mut GameState, player: PlayerId, mv: Option<Move>) -> (done: Option<()>)
    requires
        old(game).wf(),
    ensures
        final(game).wf(),
        final(game)@.players.len() == old(game)@.players.len(),
        done is None ==> final(game)@ == old(game)@,
        done is Some <==> legal_moves(old(game)@, player).len() > 0,
        done is Some ==> exists|sh: Seq<Card>|
            #[trigger] accepted_step(old(game)@, player, fallback_move(old(game)@, player, proposed_model(mv)), sh, final(game)@),
{
    let legal = game.legal_moves(player);
    let ghost lm = legal_moves(game@, player);
    let chosen = match mv {
        Some(m) => {
            if contains_move(&legal, &m) {
                m
            } else if legal.len() > 0 {
                legal[0].duplicate()
            } else {
                return None;
            }
        },
        None => {
            if legal.len() > 0 {
                legal[0].duplicate()
            } else {
                return None;
            }
        },
    };
    let ghost before = game@;
    proof {
        assert(moves_model(legal@)[0] == legal@[0]@);
        assert(chosen@ == fallback_move(before, player, proposed_model(mv)));
        assert(lm.contains(lm[0]));
        assert(lm.contains(chosen@));
    }
    match game.apply_move(player, chosen) {
        Ok(()) => {
            proof {
                let sh = choose|sh: Seq<Card>| shuffle_ok(before, player, chosen@, sh)
                    && #[trigger] apply(before, player, chosen@, sh) == Ok::<GameModel, GameError>(game@);
                law_move_keeps_seats(before, player, chosen@, sh);
                reveal(accepted_step);
                assert(accepted_step(before, player, chosen@, sh, game@));
            }
            Some(())
        },
        Err(_) => {
            proof {
                law_legal_moves_accepted(before, player, chosen@, before.deck);
            }
            None
        },
    }
}

/// A benchmark game as played: from the deal of the court deck shuffled
/// with `deal_seed` to `player_count` players, each state follows from the
/// one before by an accepted move of the awaited player.
pub open spec fn benchmark_play(path: Seq<GameModel>, player_count: nat, deal_seed: u64) -> bool {
    &&& path.len() >= 1
    &&& is_play(path)
    &&& path[0] == deal(seeded_shuffle(deal_seed, spec_standard_deck()), player_count)
    &&& exists|shuffled: Seq<Card>|
        shuffled.to_multiset() == spec_standard_deck().to_multiset() && shuffled.len() == 15 && path[0]
            == #[trigger] deal(shuffled, player_count)
}

/// What a benchmark game reports of its play: one decision per move; a
/// winner is the winner of the last state; and, before the decision limit,
/// the game stopped because it was won or because play stops there.
pub open spec fn reports_play(path: Seq<GameModel>, won: Option<usize>, decisions: nat, max_decisions: nat) -> bool {
    &&& path.len() == decisions + 1
    &&& won matches Some(w) ==> winner(path.last()) == Some(w)
    &&& decisions < max_decisions ==> won == winner(path.last()) && (won is None ==> play_stops(path.last()))
}

proof fn lemma_play_extends(path: Seq<GameModel>, next: GameModel)
    requires
        path.len() >= 1,
        is_play(path),
        one_move(path.last(), next),
    ensures
        is_play(path.push(next)),
        path.push(next).len() == path.len() + 1,
        path.push(next)[0] == path[0],
        path.push(next).last() == next,
{
    let p2 = path.push(next);
    assert forall|i: int| 0 <= i < p2.len() - 1 implies #[trigger] one_move(p2[i], p2[i + 1]) by {
        if i < path.len() - 1 {
            assert(p2[i] == path[i] && p2[i + 1] == path[i + 1]);
        } else {
            assert(p2[i] == path.last());
        }
    }
}

/// The seed game `i` of a multi-opponent benchmark is dealt with:
/// `seed + 2i`, wrapping.
pub open spec fn multi_game_seed(seed: u64, i: u64) -> u64 {
    vstd::wrapping::u64_specs::wrapping_add(seed, vstd::wrapping::u64_specs::wrapping_mul(i, 2))
}

/// A step made by the bot of the awaited seat extends a play by that bot.
proof fn lemma_played_by_extends(path: Seq<GameModel>, next: GameModel, seat: usize, bot: BenchmarkBot, others: BenchmarkBot)
    requires
        path.len() >= 1,
        played_by(path, seat, bot, others),
        bot_step(path.last(), next, seat, bot, others),
    ensures
        played_by(path.push(next), seat, bot, others),
{
    let p2 = path.push(next);
    assert forall|i: int| 0 <= i < p2.len() - 1 implies #[trigger] bot_step(p2[i], p2[i + 1], seat, bot, others) by {
        if i < path.len() - 1 {
            assert(p2[i] == path[i] && p2[i + 1] == path[i + 1]);
        } else {
            assert(p2[i] == path.last());
        }
    }
}

/// Plays one game from a deal of `player_count` cards to `player_count`
/// players (`deal_seed` shuffles, `bot_seed` seeds the bots), `bot` in seat
/// `seat` and `others` everywhere else, for at most `max_decisions` moves.
fn play_seated_game(
    player_count: usize,
    deal_seed: u64,
    bot_seed: u64,
    seat: usize,
    bot: BenchmarkBot,
    others: BenchmarkBot,
    max_decisions: usize,
) -> (result: GameBenchmarkResult)
    ensures
        outcome_ok((result.winner, result.decisions), player_count as nat, max_decisions as nat, deal_seed, seat, bot, others),
{
    let mut game = match GameState::new(player_count, deal_seed) {
        Ok(game) => game,
        Err(_) => {
            return GameBenchmarkResult { winner: None, decisions: 0 };
        },
    };
    let mut rng = seeded_rng(bot_seed);
    let ghost mut path: Seq<GameModel> = seq![game@];
    proof {
        assert(played_by(path, seat, bot, others));
    }
    let mut decisions: usize = 0;
    while decisions < max_decisions
        invariant
            game.wf(),
            game@.players.len() == player_count,
            2 <= player_count <= 6,
            0 <= decisions <= max_decisions,
            benchmark_play(path, player_count as nat, deal_seed),
            played_by(path, seat, bot, others),
            path.len() == decisions + 1,
            path.last() == game@,
        decreases max_decisions - decisions,
    {
        if let Some(winner) = game.winner() {
            proof {
                law_winner_is_seat(game@);
            }
            return GameBenchmarkResult { winner: Some(winner), decisions };
        }
        let player = match game.active_player() {
            Some(player) => player,
            None => {
                return GameBenchmarkResult { winner: None, decisions };
            },
        };
        proof {
            law_awaited_player_is_seat(game@);
        }
        let observation = match game.observation_for(player) {
            Ok(observation) => observation,
            Err(_) => {
                return GameBenchmarkResult { winner: None, decisions };
            },
        };
        let chosen_bot = if player == seat { bot } else { others };
        let mv = choose_benchmark_move(chosen_bot, &observation, &mut rng);
        let ghost before = game@;
        if apply_or_fallback(&mut game, player, mv).is_none() {
            return GameBenchmarkResult { winner: None, decisions };
        }
        proof {
            let chosen = fallback_move(before, player, proposed_model(mv));
            let sh = choose|sh: Seq<Card>| #[trigger] accepted_step(before, player, chosen, sh, game@);
            assert(accepted_step(before, player, chosen, sh, game@));
            assert(one_move(before, game@));
            assert(chosen_bot == seat_bot(player, seat, bot, others));
            assert(bot_step(before, game@, seat, bot, others));
            lemma_play_extends(path, game@);
            lemma_played_by_extends(path, game@, seat, bot, others);
            path = path.push(game@);
        }
        decisions = decisions + 1;
    }
    GameBenchmarkResult { winner: None, decisions: max_decisions }
}

/// Plays one game: seat 0 is the tracked bot, the others the opponent bot;
/// game `game_offset` is dealt with seed `seed + 2 * game_offset` and its
/// bots seeded with the next seed, both wrapping.
fn play_multi_opponent_game(config: &MultiOpponentConfig, game_offset: u64) -> (result: GameBenchmarkResult)
    ensures
        outcome_ok(
            (result.winner, result.decisions),
            config.player_count as nat,
            config.max_decisions_per_game as nat,
            multi_game_seed(config.seed, game_offset),
            0,
            config.ismcts_bot,
            config.opponent_bot,
        ),
{
    let game_seed = config.seed.wrapping_add(game_offset.wrapping_mul(2));
    let rng_seed = config.seed.wrapping_add(game_offset.wrapping_mul(2).wrapping_add(1));
    play_seated_game(
        config.player_count,
        game_seed,
        rng_seed,
        0,
        config.ismcts_bot,
        config.opponent_bot,
        config.max_decisions_per_game,
    )
}

/// Plays one two-player game: the first bot sits in `left_seat`, the second
/// in the other seat; the game is dealt with `seed` and the bots seeded
/// with the next seed (wrapping).
fn play_benchmark_game(bots: [BenchmarkBot; 2], left_seat: usize, seed: u64, max_decisions_per_game: usize) -> (result: GameBenchmarkResult)
    ensures
        outcome_ok((result.winner, result.decisions), 2, max_decisions_per_game as nat, seed, left_seat, bots[0], bots[1]),
{
    play_seated_game(2, seed, seed.wrapping_add(1), left_seat, bots[0], bots[1], max_decisions_per_game)
}

/// A total capped at the largest `usize`.
pub open spec fn capped_total(x: nat) -> nat {
    if x > usize::MAX {
        usize::MAX as nat
    } else {
        x
    }
}

/// Adds `d` to `total`, stopping at the largest `usize`.
fn add_capped(total: usize, d: usize) -> (r: usize)
    ensures
        r == capped_total((total + d) as nat),
{
    if total > usize::MAX - d {
        usize::MAX
    } else {
        total + d
    }
}

/// ISMCTS in seat 0 against random bots in every other seat: the same
/// games and tally as `benchmark_ismcts_vs_opponents` with an ISMCTS bot
/// of the configured iterations, depth and rollout policy against random
/// opponents.
pub fn benchmark_ismcts_vs_random(config: BenchmarkConfig) -> (result: BenchmarkResult)
    ensures
        result.games == config.games,
        exists|outcomes: Seq<(Option<usize>, usize)>| {
            &&& outcomes.len() == config.games
            &&& forall|i: int| 0 <= i < outcomes.len() ==> outcome_ok(
                #[trigger] outcomes[i],
                config.player_count as nat,
                config.max_decisions_per_game as nat,
                multi_game_seed(config.seed, i as u64),
                0,
                BenchmarkBot::Ismcts {
                    iterations: config.ismcts_iterations,
                    max_depth: config.max_depth,
                    rollout_policy: config.rollout_policy,
                },
                BenchmarkBot::Random,
            )
            &&& result.ismcts_wins == wins_of(outcomes, 0)
            &&& result.opponent_wins == wins_against(outcomes, 0)
            &&& result.draws_or_timeouts == undecided(outcomes)
            &&& result.decisions == capped_total(total_decisions(outcomes))
        },
        result.ismcts_wins + result.opponent_wins + result.draws_or_timeouts == config.games,
        result.decisions <= config.games * config.max_decisions_per_game,
        !(2 <= config.player_count <= 6) ==> result.draws_or_timeouts == config.games && result.decisions == 0,
{
    benchmark_ismcts_vs_opponents(MultiOpponentConfig {
        games: config.games,
        player_count: config.player_count,
        ismcts_bot: BenchmarkBot::Ismcts {
            iterations: config.ismcts_iterations,
            max_depth: config.max_depth,
            rollout_policy: config.rollout_policy,
        },
        opponent_bot: BenchmarkBot::Random,
        max_decisions_per_game: config.max_decisions_per_game,
        seed: config.seed,
    })
}

proof fn lemma_total_bound(outcomes: Seq<(Option<usize>, usize)>, max: nat)
    requires
        forall|i: int| 0 <= i < outcomes.len() ==> (#[trigger] outcomes[i]).1 <= max,
    ensures
        total_decisions(outcomes) <= outcomes.len() * max,
    decreases outcomes.len(),
{
    if outcomes.len() > 0 {
        let rest = outcomes.drop_last();
        assert forall|i: int| 0 <= i < rest.len() implies (#[trigger] rest[i]).1 <= max by {
            assert(rest[i] == outcomes[i]);
        }
        lemma_total_bound(rest, max);
        assert(outcomes.len() * max == rest.len() * max + max) by (nonlinear_arith)
            requires outcomes.len() == rest.len() + 1;
    }
}

/// Plays `config.games` seeded games, the tracked bot in seat 0 and the
/// opponent bot in every other seat, and tallies them: a win for seat 0, a
/// win for another seat, or neither (no winner within the decision limit).
/// Game `i` is dealt with seed `seed + 2i` and played with bot seed
/// `seed + 2i + 1`, both wrapping. The decisions are summed, stopping at
/// the largest `usize`.
pub fn benchmark_ismcts_vs_opponents(config: MultiOpponentConfig) -> (result: BenchmarkResult)
    ensures
        result.games == config.games,
        exists|outcomes: Seq<(Option<usize>, usize)>| {
            &&& outcomes.len() == config.games
            &&& forall|i: int| 0 <= i < outcomes.len() ==> outcome_ok(
                #[trigger] outcomes[i],
                config.player_count as nat,
                config.max_decisions_per_game as nat,
                multi_game_seed(config.seed, i as u64),
                0,
                config.ismcts_bot,
                config.opponent_bot,
            )
            &&& result.ismcts_wins == wins_of(outcomes, 0)
            &&& result.opponent_wins == wins_against(outcomes, 0)
            &&& result.draws_or_timeouts == undecided(outcomes)
            &&& result.decisions == capped_total(total_decisions(outcomes))
        },
        result.ismcts_wins + result.opponent_wins + result.draws_or_timeouts == config.games,
        result.decisions <= config.games * config.max_decisions_per_game,
        !(2 <= config.player_count <= 6) ==> result.draws_or_timeouts == config.games && result.decisions == 0,
{
    let mut result = BenchmarkResult {
        games: config.games,
        ismcts_wins: 0,
        opponent_wins: 0,
        draws_or_timeouts: 0,
        decisions: 0,
        elapsed_ms: 0,
    };
    let start = clock_now();
    let ghost mut outcomes: Seq<(Option<usize>, usize)> = seq![];
    let mut game_index: usize = 0;
    while game_index < config.games
        invariant
            game_index <= config.games,
            result.games == config.games,
            outcomes.len() == game_index,
            forall|i: int| 0 <= i < outcomes.len() ==> outcome_ok(
                #[trigger] outcomes[i],
                config.player_count as nat,
                config.max_decisions_per_game as nat,
                multi_game_seed(config.seed, i as u64),
                0,
                config.ismcts_bot,
                config.opponent_bot,
            ),
            result.ismcts_wins == wins_of(outcomes, 0),
            result.opponent_wins == wins_against(outcomes, 0),
            result.draws_or_timeouts == undecided(outcomes),
            result.decisions == capped_total(total_decisions(outcomes)),
            result.ismcts_wins + result.opponent_wins + result.draws_or_timeouts == game_index,
            !(2 <= config.player_count <= 6) ==> result.draws_or_timeouts == game_index && total_decisions(outcomes) == 0,
        decreases config.games - game_index,
    {
        let game_result = play_multi_opponent_game(&config, game_index as u64);
        let ghost before = outcomes;
        proof {
            outcomes = outcomes.push((game_result.winner, game_result.decisions));
            assert(outcomes.drop_last() =~= before);
        }
        result.decisions = add_capped(result.decisions, game_result.decisions);
        match game_result.winner {
            Some(winner) => {
                if winner == 0 {
                    result.ismcts_wins = result.ismcts_wins + 1;
                } else {
                    result.opponent_wins = result.opponent_wins + 1;
                }
            },
            None => {
                result.draws_or_timeouts = result.draws_or_timeouts + 1;
            },
        }
        game_index = game_index + 1;
    }
    proof {
        assert forall|i: int| 0 <= i < outcomes.len() implies (#[trigger] outcomes[i]).1 <= config.max_decisions_per_game by {
            assert(outcome_ok(outcomes[i], config.player_count as nat, config.max_decisions_per_game as nat, multi_game_seed(config.seed, i as u64), 0, config.ismcts_bot, config.opponent_bot));
        }
        lemma_total_bound(outcomes, config.max_decisions_per_game as nat);
    }
    result.elapsed_ms = whole_millis(&elapsed_since(&start));
    result
}

/// Plays `games` seeded two-player games between `left` and `right`, the
/// left bot taking seat 0 in even games and seat 1 in odd ones, and tallies
/// them. Game `i` is dealt with seed `seed + i` and its bots seeded with
/// `seed + i + 1` (wrapping). The decisions are summed, stopping at the
/// largest `usize`.
pub fn benchmark_head_to_head(
    left: BenchmarkBot,
    right: BenchmarkBot,
    games: usize,
    seed: u64,
    max_decisions_per_game: usize,
) -> (result: HeadToHeadResult)
    ensures
        result.left == left,
        result.right == right,
        result.games == games,
        result.left_wins + result.right_wins + result.draws_or_timeouts == games,
        result.decisions <= games * max_decisions_per_game,
        exists|outcomes: Seq<(Option<usize>, usize)>| {
            &&& outcomes.len() == games
            &&& forall|i: int| 0 <= i < outcomes.len() ==> outcome_ok(
                #[trigger] outcomes[i],
                2,
                max_decisions_per_game as nat,
                vstd::wrapping::u64_specs::wrapping_add(seed, i as u64),
                (i % 2) as usize,
                left,
                right,
            )
            &&& result.left_wins == left_wins_of(outcomes)
            &&& result.right_wins == right_wins_of(outcomes)
            &&& result.draws_or_timeouts == undecided(outcomes)
            &&& result.decisions == capped_total(total_decisions(outcomes))
        },
{
    let start = clock_now();
    let mut result = HeadToHeadResult {
        left,
        right,
        games,
        left_wins: 0,
        right_wins: 0,
        draws_or_timeouts: 0,
        decisions: 0,
        elapsed_ms: 0,
    };
    let ghost mut outcomes: Seq<(Option<usize>, usize)> = seq![];
    let mut game_index: usize = 0;
    while game_index < games
        invariant
            game_index <= games,
            result.left == left,
            result.right == right,
            result.games == games,
            result.left_wins + result.right_wins + result.draws_or_timeouts == game_index,
            outcomes.len() == game_index,
            forall|i: int| 0 <= i < outcomes.len() ==> outcome_ok(
                #[trigger] outcomes[i],
                2,
                max_decisions_per_game as nat,
                vstd::wrapping::u64_specs::wrapping_add(seed, i as u64),
                (i % 2) as usize,
                left,
                right,
            ),
            result.left_wins == left_wins_of(outcomes),
            result.right_wins == right_wins_of(outcomes),
            result.draws_or_timeouts == undecided(outcomes),
            result.decisions == capped_total(total_decisions(outcomes)),
        decreases games - game_index,
    {
        let left_seat = game_index % 2;
        let game_result = play_benchmark_game([left, right], left_seat, seed.wrapping_add(game_index as u64), max_decisions_per_game);
        let ghost before = outcomes;
        proof {
            outcomes = outcomes.push((game_result.winner, game_result.decisions));
            assert(outcomes.drop_last() =~= before);
            assert(left_seat == ((outcomes.len() - 1) % 2) as usize);
            assert(outcomes[game_index as int] == (game_result.winner, game_result.decisions));
        }
        result.decisions = add_capped(result.decisions, game_result.decisions);
        match game_result.winner {
            Some(winner) => {
                if winner == left_seat {
                    result.left_wins = result.left_wins + 1;
                } else {
                    result.right_wins = result.right_wins + 1;
                }
            },
            None => {
                result.draws_or_timeouts = result.draws_or_timeouts + 1;
            },
        }
        game_index = game_index + 1;
    }
    proof {
        assert forall|i: int| 0 <= i < outcomes.len() implies (#[trigger] outcomes[i]).1 <= max_decisions_per_game by {
            assert(outcome_ok(outcomes[i], 2, max_decisions_per_game as nat, vstd::wrapping::u64_specs::wrapping_add(seed, i as u64), (i % 2) as usize, left, right));
        }
        lemma_total_bound(outcomes, max_decisions_per_game as nat);
    }
    result.elapsed_ms = whole_millis(&elapsed_since(&start));
    result
}

} // verus!

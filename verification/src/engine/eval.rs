//! Scoring a position for one player.
//!
//! Scores are integers on a scale where [`WIN_SCORE`] stands for a certain
//! win and 0 for a loss. The scale is twelve thousand so that the average
//! material of one to five opponents is exact (120 is divisible by each of
//! one to five); with more opponents the average is rounded down.
use vstd::prelude::*;

use crate::rules::{winner, wf};
use crate::state::{GameModel, GameState, PlayerId, PlayerModel};

verus! {

/// The score of a won game; a lost game scores 0.
pub const WIN_SCORE: u32 = 12000;

/// The threat of a coup: five for seven coins or more, eight for ten or more.
pub open spec fn coup_pressure(coins: int) -> int {
    if coins >= 10 {
        8
    } else if coins >= 7 {
        5
    } else {
        0
    }
}

/// The material of a player: ten per face-down card, plus coins, plus coup
/// pressure.
pub open spec fn material(p: PlayerModel) -> int {
    p.hidden_count() * 10 + p.coins + coup_pressure(p.coins as int)
}

/// The material of the living players other than `root` among the first `n`.
pub open spec fn opponent_material(players: Seq<PlayerModel>, root: int, n: nat) -> int
    decreases n,
{
    if n == 0 {
        0
    } else {
        opponent_material(players, root, (n - 1) as nat) + if n - 1 != root && players[n - 1].alive() {
            material(players[n - 1])
        } else {
            0
        }
    }
}

/// How many players other than `root` among the first `n` are alive.
pub open spec fn living_opponents(players: Seq<PlayerModel>, root: int, n: nat) -> nat
    decreases n,
{
    if n == 0 {
        0
    } else {
        living_opponents(players, root, (n - 1) as nat) + if n - 1 != root && players[n - 1].alive() {
            1nat
        } else {
            0nat
        }
    }
}

/// One hundred and twenty times the average material of the living
/// opponents of `root` (rounded down; 0 without living opponents).
pub open spec fn average_opponent_material_120(players: Seq<PlayerModel>, root: int) -> int {
    let count = living_opponents(players, root, players.len());
    if count == 0 {
        0
    } else {
        (120 * opponent_material(players, root, players.len())) / (count as int)
    }
}

/// The evaluation of a position for `root`, out of `WIN_SCORE`: all of it
/// for a win, 0 for a loss, and otherwise one half plus the root's material
/// less the average material of a living opponent, per hundred, clamped to
/// the scale.
pub open spec fn evaluation(g: GameModel, root: usize) -> int {
    match winner(g) {
        Some(w) => if w == root { WIN_SCORE as int } else { 0 },
        None => if root >= g.players.len() {
            0
        } else {
            let raw = 6000 + 120 * material(g.players[root as int]) - average_opponent_material_120(g.players, root as int);
            if raw < 0 {
                0
            } else if raw > 12000 {
                12000
            } else {
                raw
            }
        },
    }
}

proof fn lemma_opponent_material_bounds(players: Seq<PlayerModel>, root: int, n: nat)
    requires
        n <= players.len(),
        forall|i: int| 0 <= i < players.len() ==> (#[trigger] players[i]).influence.len() <= 64,
    ensures
        0 <= opponent_material(players, root, n) <= n * 903,
        living_opponents(players, root, n) <= n,
    decreases n,
{
    if n > 0 {
        lemma_opponent_material_bounds(players, root, (n - 1) as nat);
        crate::rules::lemma_hidden_count_is_len(players[n - 1].influence);
    }
}

/// A table small enough to score in 64-bit arithmetic: at most 64 seats
/// and 64 influence cards a hand.
pub open spec fn evaluable(g: GameModel) -> bool {
    &&& g.players.len() <= 64
    &&& forall|i: int| 0 <= i < g.players.len() ==> (#[trigger] g.players[i]).influence.len() <= 64
}

/// The coup pressure of `coins` (see `coup_pressure`).
fn pressure_of(coins: u8) -> (p: i64)
    ensures
        p == coup_pressure(coins as int),
{
    if coins >= 10 {
        8
    } else if coins >= 7 {
        5
    } else {
        0
    }
}

/// Scores a position for `root`, out of `WIN_SCORE` (see `evaluation`).
pub fn evaluate(state: &GameState, root_player: PlayerId) -> (score: u32)
    requires
        evaluable(state@),
    ensures
        score == evaluation(state@, root_player),
        score <= WIN_SCORE,
{
    if let Some(w) = state.winner() {
        return if w == root_player { WIN_SCORE } else { 0 };
    }
    if root_player >= state.players.len() {
        return 0;
    }
    let root = &state.players[root_player];
    proof {
        crate::rules::lemma_hidden_count_is_len(state@.players[root_player as int].influence);
    }
    let root_score: i64 = root.hidden_count() as i64 * 10 + root.coins as i64 + pressure_of(root.coins);
    let mut opponent_score: i64 = 0;
    let mut opponents: i64 = 0;
    let mut i: usize = 0;
    while i < state.players.len()
        invariant
            0 <= i <= state.players.len(),
            evaluable(state@),
            opponent_score == opponent_material(state@.players, root_player as int, i as nat),
            opponents == living_opponents(state@.players, root_player as int, i as nat),
            0 <= opponent_score <= i * 903,
            0 <= opponents <= i,
        decreases state.players.len() - i,
    {
        proof {
            lemma_opponent_material_bounds(state@.players, root_player as int, (i + 1) as nat);
            crate::rules::lemma_hidden_count_is_len(state@.players[i as int].influence);
        }
        let player = &state.players[i];
        if i != root_player && player.is_alive() {
            opponent_score = opponent_score + player.hidden_count() as i64 * 10 + player.coins as i64 + pressure_of(player.coins);
            opponents = opponents + 1;
        }
        i = i + 1;
    }
    let average_120: i64 = if opponents == 0 {
        0
    } else {
        let total: i64 = 120 * opponent_score;
        proof {
            assert(0 <= total / opponents <= total) by (nonlinear_arith)
                requires
                    opponents >= 1,
                    total >= 0,
            ;
        }
        total / opponents
    };
    let raw = 6000 + 120 * root_score - average_120;
    if raw < 0 {
        0
    } else if raw > 12000 {
        WIN_SCORE
    } else {
        raw as u32
    }
}

} // verus!

//! Information-set Monte Carlo tree search at the root: each iteration
//! samples a full state consistent with the observation, picks a root move
//! by UCB1 with availability counts, plays a rollout and records the reward.
//!
//! Rewards are integer scores out of `WIN_SCORE`. Mean rewards are compared
//! exactly; the UCB1 value is computed in fixed point (units of 10^-12 of
//! a win) with an integer square root and a natural logarithm in units of
//! 10^-15, good to a few of those units.
use rand::rngs::StdRng;
use vstd::prelude::*;

use crate::engine::bot::{sample_state, Bot};
use crate::engine::eval::WIN_SCORE;
use crate::engine::eval::evaluation;
use crate::engine::rollout::{accepted_step, is_play, play_stops, played_under, rollout, RolloutPolicyKind};
use crate::cards::Card;
use crate::game::{contains_move, same_move};
use crate::random::random_below_usize;
use crate::setup::{always_playable, consistent_deal, determinized, observation_ok, plausible_move};
use crate::rules::{active_player, legal_moves};
use crate::state::{moves_model, GameModel, Move, MoveModel, Observation, ObservationModel};

verus! {

/// Search settings: iterations per decision, rollout depth, the UCB
/// exploration constant in thousandths, and the rollout policy.
#[derive(Debug, Clone, Copy)]
pub struct SearchConfig {
    pub iterations: usize,
    pub max_depth: usize,
    pub exploration_milli: u64,
    pub rollout_policy: RolloutPolicyKind,
}

impl Default for SearchConfig {
    fn default() -> (config: Self)
        ensures
            config.iterations == 1000,
            config.max_depth == 80,
            config.exploration_milli == 1400,
            config.rollout_policy == RolloutPolicyKind::Random,
    {
        SearchConfig {
            iterations: 1_000,
            max_depth: 80,
            exploration_milli: 1400,
            rollout_policy: RolloutPolicyKind::Random,
        }
    }
}

/// A bot that searches with ISMCTS.
#[derive(Debug, Clone, Copy)]
pub struct IsmctsBot {
    pub config: SearchConfig,
}

impl IsmctsBot {
    pub fn new(config: SearchConfig) -> (bot: Self)
        ensures
            bot.config == config,
    {
        Self { config }
    }
}

impl Default for IsmctsBot {
    fn default() -> (bot: Self)
        ensures
            bot.config.iterations == 1000,
            bot.config.max_depth == 80,
            bot.config.exploration_milli == 1400,
            bot.config.rollout_policy == RolloutPolicyKind::Random,
    {
        Self::new(SearchConfig::default())
    }
}

// ---------------------------------------------------------------------------
// Fixed-point arithmetic

pub open spec fn pow2(k: nat) -> nat
    decreases k,
{
    if k == 0 {
        1
    } else {
        2 * pow2((k - 1) as nat)
    }
}

/// The largest `k` with `2^k <= a` (0 for `a <= 1`).
pub open spec fn log2_floor(a: nat) -> nat
    decreases a,
{
    if a <= 1 {
        0
    } else {
        1 + log2_floor(a / 2)
    }
}

/// The fixed-point scale of the logarithm: units of 10^-15.
pub const LN_SCALE: u128 = 1_000_000_000_000_000;

/// The natural logarithm of 2 in units of 10^-15, rounded down.
pub const LN2_FIXED: u128 = 693_147_180_559_945;

/// The terms `i..n` of the series of `atanh`, `z + z^3/3 + z^5/5 + ...`, in
/// fixed point: `term` is the current odd power of `z`, and each next power
/// is the previous one times `z2` (the square of `z`), rounded down.
pub open spec fn atanh_terms(term: nat, z2: nat, i: nat, n: nat) -> nat
    decreases n - i,
{
    if i >= n {
        0
    } else {
        term / (2 * i + 1) + atanh_terms(term * z2 / (LN_SCALE as nat), z2, i + 1, n)
    }
}

/// The natural logarithm of `a` (at least 1) in units of 10^-15: writing
/// `a = 2^k * m` with `1 <= m < 2`, it is `k ln 2 + 2 atanh((m - 1) / (m + 1))`,
/// the series cut after twenty terms (its remainder is below 10^-19) and
/// every step rounded down, so that the result is below the true value by
/// at most a hundred units.
pub open spec fn ln_fixed(a: nat) -> nat {
    let k = log2_floor(a);
    let p = pow2(k);
    let z = ((a - p) as nat) * (LN_SCALE as nat) / (a + p);
    k * (LN2_FIXED as nat) + 2 * atanh_terms(z, z * z / (LN_SCALE as nat), 0, 20)
}

/// The floor of the square root.
pub open spec fn is_isqrt(x: nat, r: nat) -> bool {
    r * r <= x < (r + 1) * (r + 1)
}

proof fn lemma_isqrt_unique(x: nat, r1: nat, r2: nat)
    requires
        is_isqrt(x, r1),
        is_isqrt(x, r2),
    ensures
        r1 == r2,
{
    if r1 < r2 {
        assert((r1 + 1) * (r1 + 1) <= r2 * r2) by (nonlinear_arith)
            requires r1 < r2;
    } else if r2 < r1 {
        assert((r2 + 1) * (r2 + 1) <= r1 * r1) by (nonlinear_arith)
            requires r2 < r1;
    }
}

proof fn lemma_pow2_positive(k: nat)
    ensures
        pow2(k) >= 1,
    decreases k,
{
    if k > 0 {
        lemma_pow2_positive((k - 1) as nat);
    }
}

proof fn lemma_pow2_monotone(j: nat, k: nat)
    requires
        j <= k,
    ensures
        pow2(j) <= pow2(k),
    decreases k,
{
    if j < k {
        lemma_pow2_monotone(j, (k - 1) as nat);
        lemma_pow2_positive((k - 1) as nat);
    }
}

proof fn lemma_pow2_add(a: nat, b: nat)
    ensures
        pow2(a + b) == pow2(a) * pow2(b),
    decreases b,
{
    if b == 0 {
        assert(pow2(0) == 1);
        assert(a + b == a);
    } else {
        lemma_pow2_add(a, (b - 1) as nat);
        assert((a + b - 1) as nat == a + (b - 1) as nat);
        assert(pow2(a + b) == 2 * pow2((a + b - 1) as nat));
        assert(pow2(a) * pow2(b) == pow2(a) * (2 * pow2((b - 1) as nat)));
        assert(pow2(a) * (2 * pow2((b - 1) as nat)) == 2 * (pow2(a) * pow2((b - 1) as nat))) by (nonlinear_arith);
    }
}

proof fn lemma_pow2_64()
    ensures
        pow2(64) == 0x1_0000_0000_0000_0000,
{
    reveal_with_fuel(pow2, 17);
    assert(pow2(16) == 65536);
    lemma_pow2_add(16, 16);
    assert(pow2(32) == 65536 * 65536);
    lemma_pow2_add(32, 32);
    assert(pow2(64) == pow2(32) * pow2(32));
    assert(4294967296 * 4294967296 == 0x1_0000_0000_0000_0000) by (nonlinear_arith);
}

proof fn lemma_halve(p: int, rest: int, a: int)
    requires
        p >= 1,
        rest >= 2,
        p * rest <= a < p * (rest + 1),
    ensures
        (2 * p) * (rest / 2) <= a < (2 * p) * (rest / 2 + 1),
{
    let q = rest / 2;
    let r = rest % 2;
    assert(rest == 2 * q + r);
    assert((2 * p) * q <= p * rest) by (nonlinear_arith)
        requires rest == 2 * q + r, 0 <= r <= 1, p >= 1;
    assert(p * (rest + 1) <= (2 * p) * (q + 1)) by (nonlinear_arith)
        requires rest == 2 * q + r, 0 <= r <= 1, p >= 1;
}

/// The natural logarithm of `a` in units of 10^-15 (see `ln_fixed`).
fn ln_fixed_of(a: u64) -> (r: u128)
    requires
        a >= 1,
    ensures
        r == ln_fixed(a as nat),
        r <= 64 * LN2_FIXED + 40 * LN_SCALE,
{
    let mut k: u64 = 0;
    let mut p: u128 = 1;
    let mut rest: u64 = a;
    proof {
        lemma_pow2_64();
    }
    while rest > 1
        invariant
            1 <= rest <= a,
            k < 64,
            p == pow2(k as nat),
            log2_floor(a as nat) == k + log2_floor(rest as nat),
            p * rest <= a < p * (rest + 1),
            pow2(64) == 0x1_0000_0000_0000_0000,
        decreases rest,
    {
        proof {
            lemma_pow2_positive(k as nat);
            lemma_halve(p as int, rest as int, a as int);
            assert(p * 2 <= a) by (nonlinear_arith)
                requires p * rest <= a, rest >= 2, p >= 1;
        }
        rest = rest / 2;
        p = p * 2;
        k = k + 1;
        proof {
            if k >= 64 {
                lemma_pow2_monotone(64, k as nat);
            }
        }
    }
    proof {
        lemma_pow2_positive(k as nat);
    }
    assert(rest == 1);
    let wide: u128 = a as u128;
    assert(wide - p < wide + p);
    assert((wide - p) * LN_SCALE < (wide + p) * LN_SCALE) by (nonlinear_arith)
        requires wide - p < wide + p;
    let z: u128 = (wide - p) * LN_SCALE / (wide + p);
    assert(z < LN_SCALE) by (nonlinear_arith)
        requires z == (wide - p) * LN_SCALE / ((wide + p) as int), wide - p < wide + p, wide + p > 0;
    assert(z * z < LN_SCALE * LN_SCALE) by (nonlinear_arith)
        requires z < LN_SCALE;
    let z2: u128 = z * z / LN_SCALE;
    assert(z2 < LN_SCALE) by (nonlinear_arith)
        requires z2 == z * z / (LN_SCALE as int), z * z < LN_SCALE * LN_SCALE;
    let mut term: u128 = z;
    let mut sum: u128 = 0;
    let mut i: u128 = 0;
    while i < 20
        invariant
            0 <= i <= 20,
            term <= LN_SCALE,
            z2 < LN_SCALE,
            sum <= i * LN_SCALE,
            sum + atanh_terms(term as nat, z2 as nat, i as nat, 20) == atanh_terms(z as nat, z2 as nat, 0, 20),
        decreases 20 - i,
    {
        assert((term as int) / (2 * i + 1) <= term) by (nonlinear_arith)
            requires i >= 0, term >= 0;
        assert(term * z2 <= LN_SCALE * LN_SCALE) by (nonlinear_arith)
            requires term <= LN_SCALE, z2 < LN_SCALE;
        let next: u128 = term * z2 / LN_SCALE;
        assert(next <= term) by (nonlinear_arith)
            requires next == term * z2 / (LN_SCALE as int), z2 < LN_SCALE;
        sum = sum + term / (2 * i + 1);
        term = next;
        i = i + 1;
    }
    (k as u128) * LN2_FIXED + 2 * sum
}

/// The floor of the square root of `x`.
fn isqrt(x: u128) -> (r: u128)
    requires
        x < 100_000_000_000_000_000_000_000_000,
    ensures
        is_isqrt(x as nat, r as nat),
        r <= 10_000_000_000_000,
{
    let mut lo: u128 = 0;
    let mut hi: u128 = 10_000_000_000_001;
    assert(hi * hi > x) by (nonlinear_arith)
        requires hi == 10_000_000_000_001, x < 100_000_000_000_000_000_000_000_000;
    while hi - lo > 1
        invariant
            lo < hi <= 10_000_000_000_001,
            lo * lo <= x,
            x < hi * hi,
        decreases hi - lo,
    {
        let mid = lo + (hi - lo) / 2;
        assert(mid * mid <= 10_000_000_000_001 * 10_000_000_000_001) by (nonlinear_arith)
            requires mid <= 10_000_000_000_001;
        if mid * mid <= x {
            lo = mid;
        } else {
            hi = mid;
        }
    }
    assert(hi == lo + 1);
    if lo > 10_000_000_000_000 {
        assert(lo * lo > x) by (nonlinear_arith)
            requires lo > 10_000_000_000_000, x < 100_000_000_000_000_000_000_000_000;
    }
    lo
}

/// The UCB1 value of a visited move in units of 10^-12 of a win: the mean
/// reward plus `c * sqrt(ln(available) / visits)`, `c` given in
/// thousandths, each part rounded down.
pub open spec fn ucb_fixed(total: nat, visits: nat, available: nat, exploration_milli: nat) -> int {
    let ln = ln_fixed(if available == 0 { 1 } else { available });
    let root = choose|r: nat| #[trigger] is_isqrt(ln * 1_000_000_000 / visits, r);
    (total * 1_000_000_000_000 / (12000 * visits) + exploration_milli * root / 1000) as int
}

// ---------------------------------------------------------------------------
// Root statistics

/// The first position of `m` among the first `n` moves of `s`.
pub open spec fn first_position(s: Seq<MoveModel>, m: MoveModel, n: nat) -> Option<nat>
    decreases n,
{
    if n == 0 {
        None
    } else {
        match first_position(s, m, (n - 1) as nat) {
            Some(k) => Some(k),
            None => if s[n - 1] == m {
                Some((n - 1) as nat)
            } else {
                None
            },
        }
    }
}

proof fn lemma_first_position(s: Seq<MoveModel>, m: MoveModel, n: nat)
    ensures
        first_position(s, m, n) matches Some(k) ==> k < n && s[k as int] == m,
        first_position(s, m, n) is None ==> forall|j: int| 0 <= j < n ==> s[j] != m,
    decreases n,
{
    if n > 0 {
        lemma_first_position(s, m, (n - 1) as nat);
    }
}

proof fn lemma_first_position_stable(s: Seq<MoveModel>, m: MoveModel, k: nat, n: nat)
    requires
        k <= n,
        first_position(s, m, k) is Some,
    ensures
        first_position(s, m, n) == first_position(s, m, k),
    decreases n,
{
    if n > k {
        lemma_first_position_stable(s, m, k, (n - 1) as nat);
    }
}

/// How many of the first `n` offered moves are, at their first position
/// among the root moves, the root move at `k`.
pub open spec fn occurrences(root: Seq<MoveModel>, offered: Seq<MoveModel>, k: nat, n: nat) -> nat
    decreases n,
{
    if n == 0 {
        0
    } else {
        occurrences(root, offered, k, (n - 1) as nat) + if first_position(root, offered[n - 1], root.len()) == Some(k) {
            1nat
        } else {
            0nat
        }
    }
}

/// A count capped at the largest `u64`.
pub open spec fn saturated(x: int) -> int {
    if x > u64::MAX {
        u64::MAX as int
    } else {
        x
    }
}

/// A UCB value as the search compares it: capped at the largest `i128`.
pub open spec fn capped(x: int) -> int {
    if x > i128::MAX {
        i128::MAX as int
    } else {
        x
    }
}

/// Visits, availability and total reward (out of `WIN_SCORE` a visit) of a root move.
#[derive(Debug, Clone, Copy)]
pub struct MoveStats {
    pub visits: u64,
    pub available: u64,
    pub total_reward: u128,
}

/// No root move visited or offered yet.
pub open spec fn fresh_stats(n: nat) -> Seq<MoveStats> {
    Seq::new(n, |i: int| MoveStats { visits: 0, available: 0, total_reward: 0 })
}

/// The statistics after the root moves among `offered` were counted as
/// available once more (saturating at the largest `u64`).
pub open spec fn marked_stats(root: Seq<MoveModel>, stats: Seq<MoveStats>, offered: Seq<MoveModel>) -> Seq<MoveStats> {
    Seq::new(
        stats.len(),
        |i: int| MoveStats {
            visits: stats[i].visits,
            available: saturated(stats[i].available + occurrences(root, offered, i as nat, offered.len())) as u64,
            total_reward: stats[i].total_reward,
        },
    )
}

/// The statistics after a visit of `m` that earned `reward`.
pub open spec fn recorded_stats(root: Seq<MoveModel>, stats: Seq<MoveStats>, m: MoveModel, reward: nat) -> Seq<MoveStats> {
    match first_position(root, m, root.len()) {
        Some(k) => stats.update(
            k as int,
            MoveStats {
                visits: (stats[k as int].visits + 1) as u64,
                available: stats[k as int].available,
                total_reward: (stats[k as int].total_reward + reward) as u128,
            },
        ),
        None => stats,
    }
}

/// Whether `m` is a root move not visited yet.
pub open spec fn root_unvisited(root: Seq<MoveModel>, stats: Seq<MoveStats>, m: MoveModel) -> bool {
    &&& first_position(root, m, root.len()) matches Some(k)
    &&& stats[k as int].visits == 0
}

/// How selection ranks a legal move: -1 for a move that is no root move,
/// the largest `i128` for an unvisited root move, and otherwise its capped
/// UCB1 value (see `ucb_fixed`).
pub open spec fn root_score(root: Seq<MoveModel>, stats: Seq<MoveStats>, m: MoveModel, exploration_milli: nat) -> int {
    match first_position(root, m, root.len()) {
        None => -1,
        Some(k) => if stats[k as int].visits == 0 {
            i128::MAX as int
        } else {
            capped(
                ucb_fixed(
                    stats[k as int].total_reward as nat,
                    stats[k as int].visits as nat,
                    stats[k as int].available as nat,
                    exploration_milli,
                ),
            )
        },
    }
}

/// A move selection may try among `legal`: an unvisited root move if any
/// is legal, else a legal move of highest rank.
pub open spec fn selected(root: Seq<MoveModel>, stats: Seq<MoveStats>, legal: Seq<MoveModel>, exploration_milli: nat, m: MoveModel) -> bool {
    &&& legal.contains(m)
    &&& (exists|j: int| 0 <= j < legal.len() && root_unvisited(root, stats, #[trigger] legal[j])) ==> root_unvisited(root, stats, m)
    &&& !(exists|j: int| 0 <= j < legal.len() && root_unvisited(root, stats, #[trigger] legal[j])) ==> forall|j: int|
        0 <= j < legal.len() ==> root_score(root, stats, #[trigger] legal[j], exploration_milli)
            <= root_score(root, stats, m, exploration_milli)
}

/// The statistics of each root move, in the order the moves were legal at
/// the root.
struct RootStats {
    moves: Vec<Move>,
    stats: Vec<MoveStats>,
}

impl RootStats {
    spec fn inv(&self, bound: nat) -> bool {
        &&& self.moves@.len() == self.stats@.len()
        &&& forall|i: int| 0 <= i < self.stats@.len() ==> (#[trigger] self.stats@[i]).visits <= bound
            && self.stats@[i].total_reward <= 12000 * self.stats@[i].visits
    }

    fn new(moves: Vec<Move>) -> (root: RootStats)
        ensures
            root.inv(0),
            root.moves@ == moves@,
            root.stats@ == fresh_stats(moves@.len()),
    {
        let mut stats: Vec<MoveStats> = Vec::new();
        let mut i: usize = 0;
        while i < moves.len()
            invariant
                0 <= i <= moves.len(),
                stats@.len() == i,
                forall|j: int| 0 <= j < i ==> (#[trigger] stats@[j]).visits == 0 && stats@[j].total_reward == 0
                    && stats@[j].available == 0,
            decreases moves.len() - i,
        {
            stats.push(MoveStats { visits: 0, available: 0, total_reward: 0 });
            i = i + 1;
        }
        assert(stats@ =~= fresh_stats(moves@.len()));
        RootStats { moves, stats }
    }

    /// The index of the statistics of `mv`, if it is a root move.
    fn find(&self, mv: &Move) -> (index: Option<usize>)
        requires
            self.moves@.len() == self.stats@.len(),
        ensures
            index matches Some(i) ==> i < self.moves@.len() && self.moves@[i as int]@ == mv@
                && first_position(moves_model(self.moves@), mv@, self.moves@.len()) == Some(i as nat),
            index is None ==> !moves_model(self.moves@).contains(mv@)
                && first_position(moves_model(self.moves@), mv@, self.moves@.len()) is None,
    {
        let ghost model = moves_model(self.moves@);
        let mut i: usize = 0;
        while i < self.moves.len()
            invariant
                0 <= i <= self.moves.len(),
                model == moves_model(self.moves@),
                forall|j: int| 0 <= j < i ==> self.moves@[j]@ != mv@,
                first_position(model, mv@, i as nat) is None,
            decreases self.moves.len() - i,
        {
            if same_move(&self.moves[i], mv) {
                proof {
                    assert(model[i as int] == mv@);
                    assert(first_position(model, mv@, (i + 1) as nat) == Some(i as nat));
                    lemma_first_position_stable(model, mv@, (i + 1) as nat, self.moves@.len());
                }
                return Some(i);
            }
            proof {
                assert(model[i as int] != mv@);
            }
            i = i + 1;
        }
        assert forall|j: int| 0 <= j < moves_model(self.moves@).len() implies moves_model(self.moves@)[j] != mv@ by {
            assert(moves_model(self.moves@)[j] == self.moves@[j]@);
        }
        None
    }

    /// Counts each root move legal in this sample as available once more
    /// (saturating at the largest `u64`).
    fn mark_available(&mut self, legal: &Vec<Move>)
        requires
            old(self).moves@.len() == old(self).stats@.len(),
        ensures
            final(self).moves@ == old(self).moves@,
            final(self).stats@.len() == old(self).stats@.len(),
            forall|i: int| 0 <= i < old(self).stats@.len() ==> (#[trigger] final(self).stats@[i]).visits == old(self).stats@[i].visits
                && final(self).stats@[i].total_reward == old(self).stats@[i].total_reward
                && final(self).stats@[i].available == saturated(
                    old(self).stats@[i].available + occurrences(
                        moves_model(old(self).moves@),
                        moves_model(legal@),
                        i as nat,
                        legal@.len(),
                    ),
                ),
            final(self).stats@ == marked_stats(moves_model(old(self).moves@), old(self).stats@, moves_model(legal@)),
    {
        let ghost root = moves_model(self.moves@);
        let ghost offered = moves_model(legal@);
        let mut i: usize = 0;
        while i < legal.len()
            invariant
                0 <= i <= legal.len(),
                self.moves@ == old(self).moves@,
                root == moves_model(self.moves@),
                offered == moves_model(legal@),
                self.moves@.len() == self.stats@.len(),
                self.stats@.len() == old(self).stats@.len(),
                forall|j: int| 0 <= j < old(self).stats@.len() ==> (#[trigger] self.stats@[j]).visits == old(self).stats@[j].visits
                    && self.stats@[j].total_reward == old(self).stats@[j].total_reward
                    && self.stats@[j].available == saturated(
                        old(self).stats@[j].available + occurrences(root, offered, j as nat, i as nat),
                    ),
            decreases legal.len() - i,
        {
            assert(offered[i as int] == legal@[i as int]@);
            if let Some(index) = self.find(&legal[i]) {
                let mut entry = self.stats[index];
                if entry.available < u64::MAX {
                    entry.available = entry.available + 1;
                }
                self.stats.set(index, entry);
            }
            i = i + 1;
        }
        assert(self.stats@ =~= marked_stats(root, old(self).stats@, offered));
    }

    /// The UCB1 value of the root move at `index`, which has been visited.
    fn ucb_score(&self, index: usize, exploration_milli: u64) -> (score: u128)
        requires
            index < self.stats@.len(),
            self.stats@[index as int].visits > 0,
            self.stats@[index as int].total_reward <= 12000 * self.stats@[index as int].visits,
        ensures
            score == ucb_fixed(
                self.stats@[index as int].total_reward as nat,
                self.stats@[index as int].visits as nat,
                self.stats@[index as int].available as nat,
                exploration_milli as nat,
            ),
    {
        let entry = self.stats[index];
        let available: u64 = if entry.available == 0 { 1 } else { entry.available };
        let ln = ln_fixed_of(available);
        assert(entry.total_reward * 1_000_000_000_000 <= 12000 * 0x1_0000_0000_0000_0000 * 1_000_000_000_000) by (nonlinear_arith)
            requires entry.total_reward <= 12000 * entry.visits, entry.visits < 0x1_0000_0000_0000_0000;
        let exploitation: u128 = entry.total_reward * 1_000_000_000_000 / (12000 * (entry.visits as u128));
        proof {
            let t: int = entry.total_reward as int;
            let v: int = entry.visits as int;
            assert((t * 1_000_000_000_000) / (12000 * v) <= 1_000_000_000_000) by (nonlinear_arith)
                requires 0 <= t <= 12000 * v, v > 0;
        }
        let scaled: u128 = ln * 1_000_000_000 / (entry.visits as u128);
        assert(scaled <= ln * 1_000_000_000) by (nonlinear_arith)
            requires scaled == ln * 1_000_000_000 / (entry.visits as int), entry.visits >= 1;
        let root = isqrt(scaled);
        proof {
            let ln_spec = ln_fixed(if entry.available == 0 { 1 } else { entry.available as nat });
            let x = ln_spec * 1_000_000_000 / (entry.visits as nat);
            let r = choose|r: nat| #[trigger] is_isqrt(x, r);
            assert(is_isqrt(x, root as nat));
            lemma_isqrt_unique(x, r, root as nat);
        }
        assert((exploration_milli as u128) * root <= 0x1_0000_0000_0000_0000 * 10_000_000_000_000) by (nonlinear_arith)
            requires root <= 10_000_000_000_000, exploration_milli < 0x1_0000_0000_0000_0000;
        exploitation + (exploration_milli as u128) * root / 1000
    }
}


impl RootStats {
    spec fn unvisited(&self, m: MoveModel) -> bool {
        root_unvisited(moves_model(self.moves@), self.stats@, m)
    }

    spec fn select_score(&self, m: MoveModel, exploration_milli: nat) -> int {
        root_score(moves_model(self.moves@), self.stats@, m, exploration_milli)
    }

    /// The move to try in this sample: a root move never visited yet, chosen
    /// at random, if any is legal; otherwise the legal move of highest UCB1
    /// value (the last one on a tie; a move that is no root move ranks
    /// lowest). `None` when nothing is legal.
    fn select(&self, legal: &Vec<Move>, exploration_milli: u64, rng: &mut StdRng) -> (choice: Option<Move>)
        requires
            self.inv(0xFFFF_FFFF_FFFF_FFFF),
        ensures
            choice is None <==> legal@.len() == 0,
            choice matches Some(m) ==> moves_model(legal@).contains(m@),
            (exists|j: int| 0 <= j < legal@.len() && self.unvisited(#[trigger] legal@[j]@)) ==> (choice matches Some(m)
                && self.unvisited(m@)),
            !(exists|j: int| 0 <= j < legal@.len() && self.unvisited(#[trigger] legal@[j]@)) ==> (choice matches Some(m)
                ==> exists|b: int|
                0 <= b < legal@.len() && legal@[b]@ == m@ && forall|j: int|
                    0 <= j < legal@.len() ==> self.select_score(#[trigger] legal@[j]@, exploration_milli as nat)
                        <= self.select_score(legal@[b]@, exploration_milli as nat)),
    {
        let mut unvisited: Vec<Move> = Vec::new();
        let mut i: usize = 0;
        while i < legal.len()
            invariant
                0 <= i <= legal.len(),
                self.inv(0xFFFF_FFFF_FFFF_FFFF),
                forall|j: int| 0 <= j < unvisited@.len() ==> moves_model(legal@).contains(#[trigger] unvisited@[j]@)
                    && self.unvisited(unvisited@[j]@),
                unvisited@.len() > 0 <==> exists|j: int| 0 <= j < i && self.unvisited(#[trigger] legal@[j]@),
            decreases legal.len() - i,
        {
            match self.find(&legal[i]) {
                Some(index) => {
                    if self.stats[index].visits == 0 {
                        let copy = legal[i].duplicate();
                        assert(moves_model(legal@)[i as int] == copy@);
                        unvisited.push(copy);
                        assert(self.unvisited(legal@[i as int]@));
                    } else {
                        assert(!self.unvisited(legal@[i as int]@));
                    }
                },
                None => {
                    assert(!self.unvisited(legal@[i as int]@));
                },
            }
            i = i + 1;
        }
        if unvisited.len() > 0 {
            let index = random_below_usize(rng, unvisited.len());
            let choice = unvisited[index].duplicate();
            assert(moves_model(legal@).contains(unvisited@[index as int]@));
            return Some(choice);
        }
        if legal.len() == 0 {
            return None;
        }
        let ghost e = exploration_milli as nat;
        let mut best: usize = 0;
        let mut best_score: i128 = 0;
        let mut i: usize = 0;
        while i < legal.len()
            invariant
                0 <= i <= legal.len(),
                legal@.len() > 0,
                best < legal.len(),
                self.inv(0xFFFF_FFFF_FFFF_FFFF),
                e == exploration_milli as nat,
                i > 0 ==> best_score == self.select_score(legal@[best as int]@, e),
                forall|j: int| 0 <= j < i ==> self.select_score(#[trigger] legal@[j]@, e) <= best_score,
            decreases legal.len() - i,
        {
            let score: i128 = match self.find(&legal[i]) {
                None => -1,
                Some(index) => {
                    if self.stats[index].visits == 0 {
                        i128::MAX
                    } else {
                        let ucb = self.ucb_score(index, exploration_milli);
                        if ucb > (i128::MAX as u128) { i128::MAX } else { ucb as i128 }
                    }
                },
            };
            assert(score == self.select_score(legal@[i as int]@, e));
            if i == 0 || score >= best_score {
                best = i;
                best_score = score;
            }
            i = i + 1;
        }
        assert(moves_model(legal@)[best as int] == legal@[best as int]@);
        Some(legal[best].duplicate())
    }

    /// Records a reward (out of `WIN_SCORE`) for a visit of `mv`.
    fn record(&mut self, mv: &Move, reward: u32, Ghost(bound): Ghost<nat>)
        requires
            old(self).inv(bound),
            bound < 0xFFFF_FFFF_FFFF_FFFF,
            reward <= WIN_SCORE,
        ensures
            final(self).inv(bound + 1),
            final(self).moves@ == old(self).moves@,
            match first_position(moves_model(old(self).moves@), mv@, old(self).moves@.len()) {
                Some(k) => final(self).stats@ == old(self).stats@.update(
                    k as int,
                    MoveStats {
                        visits: (old(self).stats@[k as int].visits + 1) as u64,
                        available: old(self).stats@[k as int].available,
                        total_reward: (old(self).stats@[k as int].total_reward + reward) as u128,
                    },
                ),
                None => final(self).stats@ == old(self).stats@,
            },
    {
        if let Some(index) = self.find(mv) {
            let mut entry = self.stats[index];
            entry.visits = entry.visits + 1;
            entry.total_reward = entry.total_reward + reward as u128;
            self.stats.set(index, entry);
        }
    }

    /// The visited move of highest mean reward (the last one on a tie), or
    /// the first root move when none was visited. Means are compared
    /// exactly, by cross-multiplying totals and visits.
    fn best_move(&self) -> (choice: Option<Move>)
        requires
            self.inv(0xFFFF_FFFF_FFFF_FFFF),
        ensures
            choice is None <==> self.moves@.len() == 0,
            choice matches Some(m) ==> moves_model(self.moves@).contains(m@),
            choice matches Some(m) ==> exists|b: int|
                0 <= b < self.moves@.len() && self.moves@[b]@ == m@ && ({
                    ||| self.stats@[b].visits > 0 && forall|j: int|
                        0 <= j < self.stats@.len() && (#[trigger] self.stats@[j]).visits > 0 ==> mean_at_most(
                            self.stats@[j],
                            self.stats@[b],
                        )
                    ||| b == 0 && forall|j: int| 0 <= j < self.stats@.len() ==> (#[trigger] self.stats@[j]).visits == 0
                }),
            choice matches Some(m) ==> exists|b: int|
                0 <= b < self.moves@.len() && self.moves@[b]@ == m@ && ((exists|k: int|
                    0 <= k < self.stats@.len() && (#[trigger] self.stats@[k]).visits > 0) ==> self.stats@[b].visits > 0
                    && forall|j: int|
                    0 <= j < self.stats@.len() && (#[trigger] self.stats@[j]).visits > 0 ==> self.stats@[j].total_reward
                        * self.stats@[b].visits <= self.stats@[b].total_reward * self.stats@[j].visits),
    {
        if self.moves.len() == 0 {
            return None;
        }
        let mut best: usize = 0;
        let mut found = false;
        let mut i: usize = 0;
        while i < self.stats.len()
            invariant
                0 <= i <= self.stats.len(),
                self.inv(0xFFFF_FFFF_FFFF_FFFF),
                self.moves@.len() > 0,
                best < self.moves@.len(),
                found ==> self.stats@[best as int].visits > 0,
                found ==> forall|j: int| 0 <= j < i && (#[trigger] self.stats@[j]).visits > 0 ==> mean_at_most(
                    self.stats@[j],
                    self.stats@[best as int],
                ),
                !found ==> best == 0 && forall|j: int| 0 <= j < i ==> (#[trigger] self.stats@[j]).visits == 0,
            decreases self.stats.len() - i,
        {
            let entry = self.stats[i];
            if entry.visits > 0 {
                let better = if found { mean_not_below(&entry, &self.stats[best]) } else { true };
                if better {
                    proof {
                        if found {
                            let e = entry;
                            let old_best = self.stats@[best as int];
                            assert forall|j: int| 0 <= j < i && (#[trigger] self.stats@[j]).visits > 0 implies mean_at_most(
                                self.stats@[j],
                                e,
                            ) by {
                                lemma_mean_at_most_trans(self.stats@[j], old_best, e);
                            }
                        }
                    }
                    best = i;
                    found = true;
                }
            }
            i = i + 1;
        }
        assert(moves_model(self.moves@)[best as int] == self.moves@[best as int]@);
        proof {
            if !found {
                assert(!(exists|k: int| 0 <= k < self.stats@.len() && (#[trigger] self.stats@[k]).visits > 0));
            }
        }
        Some(self.moves[best].duplicate())
    }
}

/// The mean reward of `a` is at most that of `b` (both visited).
pub open spec fn mean_at_most(a: MoveStats, b: MoveStats) -> bool {
    a.total_reward * b.visits <= b.total_reward * a.visits
}

proof fn lemma_mean_at_most_trans(a: MoveStats, b: MoveStats, c: MoveStats)
    requires
        a.visits > 0,
        b.visits > 0,
        c.visits > 0,
        mean_at_most(a, b),
        mean_at_most(b, c),
    ensures
        mean_at_most(a, c),
{
    let (ta, va, tb, vb, tc, vc) = (
        a.total_reward as int,
        a.visits as int,
        b.total_reward as int,
        b.visits as int,
        c.total_reward as int,
        c.visits as int,
    );
    assert(ta * vc <= tc * va) by (nonlinear_arith)
        requires
            va > 0,
            vb > 0,
            vc > 0,
            ta >= 0,
            tb >= 0,
            tc >= 0,
            ta * vb <= tb * va,
            tb * vc <= tc * vb,
    {
        assert(ta * vb * vc <= tb * va * vc);
        assert(tb * vc * va <= tc * vb * va);
        assert(ta * vc * vb <= tc * va * vb);
    }
}

/// `x * d` as a high part (in units of 2^64) and a low part below 2^64.
fn wide_mul(x: u128, d: u64) -> (r: (u128, u128))
    requires
        x < 0x1_0000_0000_0000_0000_0000,
    ensures
        r.0 * 0x1_0000_0000_0000_0000 + r.1 == x * d,
        r.1 < 0x1_0000_0000_0000_0000,
{
    let x_hi = x / 0x1_0000_0000_0000_0000;
    let x_lo = x % 0x1_0000_0000_0000_0000;
    assert(x_lo * (d as u128) < 0x1_0000_0000_0000_0000 * 0x1_0000_0000_0000_0000) by (nonlinear_arith)
        requires
            x_lo < 0x1_0000_0000_0000_0000,
            d < 0x1_0000_0000_0000_0000,
    ;
    let low_product = x_lo * (d as u128);
    assert(x_hi < 0x1_0000) by (nonlinear_arith)
        requires
            x < 0x1_0000_0000_0000_0000_0000,
            x_hi == x / 0x1_0000_0000_0000_0000,
    ;
    assert(x_hi * (d as u128) < 0x1_0000 * 0x1_0000_0000_0000_0000) by (nonlinear_arith)
        requires
            x_hi < 0x1_0000,
            d < 0x1_0000_0000_0000_0000,
    ;
    let high = x_hi * (d as u128) + low_product / 0x1_0000_0000_0000_0000;
    let low = low_product % 0x1_0000_0000_0000_0000;
    assert(high * 0x1_0000_0000_0000_0000 + low == x * d) by (nonlinear_arith)
        requires
            x == x_hi * 0x1_0000_0000_0000_0000 + x_lo,
            low_product == x_lo * d,
            high == x_hi * d + low_product / 0x1_0000_0000_0000_0000,
            low == low_product % 0x1_0000_0000_0000_0000,
    ;
    (high, low)
}

/// Whether the mean reward of `a` is at least that of `b`, compared exactly.
fn mean_not_below(a: &MoveStats, b: &MoveStats) -> (r: bool)
    requires
        a.total_reward <= 12000 * a.visits,
        b.total_reward <= 12000 * b.visits,
    ensures
        r == mean_at_most(*b, *a),
{
    assert(a.total_reward < 0x1_0000_0000_0000_0000_0000);
    assert(b.total_reward < 0x1_0000_0000_0000_0000_0000);
    let (ah, al) = wide_mul(a.total_reward, b.visits);
    let (bh, bl) = wide_mul(b.total_reward, a.visits);
    let r = bh < ah || (bh == ah && bl <= al);
    proof {
        let m: int = 0x1_0000_0000_0000_0000;
        assert((bh * m + bl <= ah * m + al) == (bh < ah || (bh == ah && bl <= al))) by (nonlinear_arith)
            requires
                m == 0x1_0000_0000_0000_0000,
                0 <= al < m,
                0 <= bl < m,
                ah >= 0,
                bh >= 0,
        ;
    }
    r
}

// ---------------------------------------------------------------------------
// The search

/// How many iterations a search runs: the configured number, at least one.
pub open spec fn search_rounds(config: SearchConfig) -> nat {
    if config.iterations < 1 { 1 } else { config.iterations as nat }
}

/// `reward` scores, for `root_player`, the position a rollout under the
/// configured policy reaches from `g` within the configured depth.
pub open spec fn rollout_reward(g: GameModel, root_player: usize, config: SearchConfig, reward: nat) -> bool {
    exists|path: Seq<GameModel>|
        #[trigger] is_play(path) && played_under(path, config.rollout_policy) && 1 <= path.len() <= config.max_depth + 1
            && path[0] == g && (path.len() <= config.max_depth ==> play_stops(path.last())) && reward == evaluation(
            path.last(),
            root_player,
        )
}

/// One iteration of the search turns `before` into `after`: a full state
/// consistent with the observation is sampled; unless it awaits the root
/// player it changes nothing; otherwise the root moves legal there are
/// counted available, a move is selected among them and made, a rollout
/// plays on, and its reward is recorded for that move.
pub open spec fn search_round(
    o: ObservationModel,
    root: Seq<MoveModel>,
    root_player: usize,
    config: SearchConfig,
    before: Seq<MoveStats>,
    after: Seq<MoveStats>,
) -> bool {
    exists|shuffled: Seq<Card>| #[trigger] consistent_deal(o, shuffled) && {
        let d = determinized(o, shuffled);
        if active_player(d) != Some(root_player) {
            after == before
        } else {
            let legal = legal_moves(d, root_player);
            let marked = marked_stats(root, before, legal);
            exists|m: MoveModel, sh: Seq<Card>, next: GameModel|
                selected(root, marked, legal, config.exploration_milli as nat, m) && #[trigger] accepted_step(
                    d,
                    root_player,
                    m,
                    sh,
                    next,
                ) && exists|reward: nat|
                    #[trigger] rollout_reward(next, root_player, config, reward) && after == recorded_stats(
                        root,
                        marked,
                        m,
                        reward,
                    )
        }
    }
}

/// A run of the search from the sample `shuffled`: its root moves are the
/// legal moves of the player it awaits, and `trace` holds the statistics
/// before the first iteration and after each of the `search_rounds`.
pub open spec fn search_trace(o: ObservationModel, shuffled: Seq<Card>, config: SearchConfig, trace: Seq<Seq<MoveStats>>) -> bool {
    let d = determinized(o, shuffled);
    let root_player = active_player(d)->Some_0;
    let root = legal_moves(d, root_player);
    &&& active_player(d) is Some
    &&& root.len() > 0
    &&& trace.len() == search_rounds(config) + 1
    &&& trace[0] == fresh_stats(root.len())
    &&& forall|t: int| 0 <= t < trace.len() - 1 ==> #[trigger] search_round(o, root, root_player, config, trace[t], trace[t + 1])
}

/// The move the search settles on: the root move of highest mean reward
/// among the visited ones (by exact comparison), or the first root move
/// when none was visited.
pub open spec fn best_choice(root: Seq<MoveModel>, stats: Seq<MoveStats>, m: MoveModel) -> bool {
    exists|b: int|
        0 <= b < root.len() && root[b] == m && ({
            ||| stats[b].visits > 0 && forall|j: int|
                0 <= j < stats.len() && (#[trigger] stats[j]).visits > 0 ==> mean_at_most(stats[j], stats[b])
            ||| b == 0 && forall|j: int| 0 <= j < stats.len() ==> (#[trigger] stats[j]).visits == 0
        })
}

/// The search settles on a move of highest mean reward: when some root move
/// was visited, the chosen one was visited too, and no visited root move
/// earned more per visit (`total_j / visits_j <= total_b / visits_b`,
/// compared by cross-multiplying).
pub proof fn law_best_choice_highest_mean(root: Seq<MoveModel>, stats: Seq<MoveStats>, m: MoveModel)
    requires
        best_choice(root, stats, m),
        exists|k: int| 0 <= k < stats.len() && (#[trigger] stats[k]).visits > 0,
    ensures
        exists|b: int|
            0 <= b < root.len() && root[b] == m && stats[b].visits > 0 && forall|j: int|
                0 <= j < stats.len() && (#[trigger] stats[j]).visits > 0 ==> stats[j].total_reward * stats[b].visits
                    <= stats[b].total_reward * stats[j].visits,
{
    let k = choose|k: int| 0 <= k < stats.len() && (#[trigger] stats[k]).visits > 0;
    let b = choose|b: int|
        0 <= b < root.len() && root[b] == m && ({
            ||| stats[b].visits > 0 && forall|j: int|
                0 <= j < stats.len() && (#[trigger] stats[j]).visits > 0 ==> mean_at_most(stats[j], stats[b])
            ||| b == 0 && forall|j: int| 0 <= j < stats.len() ==> (#[trigger] stats[j]).visits == 0
        });
    assert(stats[k].visits > 0);
    assert(stats[b].visits > 0);
}

/// A move the search may return for the observation: the best choice after
/// a full run of the search from some consistent sample.
pub open spec fn searched_choice(o: ObservationModel, m: MoveModel, config: SearchConfig) -> bool {
    exists|shuffled: Seq<Card>, trace: Seq<Seq<MoveStats>>|
        #![trigger search_trace(o, shuffled, config, trace)]
        consistent_deal(o, shuffled) && search_trace(o, shuffled, config, trace) && best_choice(
            legal_moves(determinized(o, shuffled), active_player(determinized(o, shuffled))->Some_0),
            trace.last(),
            m,
        )
}

impl Bot for IsmctsBot {
    fn choose_move(&mut self, observation: &Observation, rng: &mut StdRng) -> (choice: Option<Move>)
        ensures
            always_playable(observation@) ==> choice is Some,
            choice matches Some(m) ==> searched_choice(observation@, m@, old(self).config),
    {
        let ghost o = observation@;
        let ghost config = self.config;
        let (root_state, root_shuffled) = match sample_state(observation, rng) {
            Some(sample) => sample,
            None => {
                return None;
            },
        };
        let root_player = match root_state.active_player() {
            Some(player) => player,
            None => {
                return None;
            },
        };
        let root_moves = root_state.legal_moves(root_player);
        if root_moves.len() == 0 {
            return None;
        }
        let ghost root_model = moves_model(root_moves@);
        let mut root = RootStats::new(root_moves);
        let iterations: usize = if self.config.iterations < 1 { 1 } else { self.config.iterations };
        let ghost mut trace: Seq<Seq<MoveStats>> = seq![root.stats@];
        let mut iteration: usize = 0;
        while iteration < iterations
            invariant
                0 <= iteration <= iterations,
                iterations == search_rounds(config),
                config == self.config,
                o == observation@,
                observation_ok(observation@),
                root.inv(iteration as nat),
                moves_model(root.moves@) == root_model,
                root_model.len() > 0,
                consistent_deal(o, root_shuffled@),
                active_player(determinized(o, root_shuffled@)) == Some(root_player),
                root_model == legal_moves(determinized(o, root_shuffled@), root_player),
                trace.len() == iteration + 1,
                trace[0] == fresh_stats(root_model.len()),
                trace.last() == root.stats@,
                forall|t: int| 0 <= t < trace.len() - 1 ==> #[trigger] search_round(o, root_model, root_player, config, trace[t], trace[t + 1]),
            decreases iterations - iteration,
        {
            let ghost before = root.stats@;
            let (mut state, shuffled) = match sample_state(observation, rng) {
                Some(sample) => sample,
                None => {
                    return None;
                },
            };
            let player = match state.active_player() {
                Some(player) => player,
                None => {
                    proof {
                        assert(search_round(o, root_model, root_player, config, before, before));
                        extend_trace(o, root_model, root_player, config, trace, before);
                        trace = trace.push(before);
                    }
                    iteration = iteration + 1;
                    continue;
                },
            };
            if player != root_player {
                proof {
                    assert(search_round(o, root_model, root_player, config, before, before));
                    extend_trace(o, root_model, root_player, config, trace, before);
                    trace = trace.push(before);
                }
                iteration = iteration + 1;
                continue;
            }
            let ghost d = state@;
            let legal = state.legal_moves(player);
            root.mark_available(&legal);
            let ghost marked = root.stats@;
            let mv = match root.select(&legal, self.config.exploration_milli, rng) {
                Some(mv) => mv,
                None => {
                    return None;
                },
            };
            let ghost m = mv@;
            proof {
                assert(selected(root_model, marked, legal_moves(d, root_player), config.exploration_milli as nat, m));
            }
            match state.apply_move(player, mv.duplicate()) {
                Ok(()) => {},
                Err(_) => {
                    proof {
                        crate::laws::law_legal_moves_accepted(d, player, m, d.deck);
                    }
                    return None;
                },
            }
            let ghost next = state@;
            proof {
                reveal(accepted_step);
                let sh = choose|sh: Seq<Card>| crate::rules::shuffle_ok(d, player, m, sh)
                    && #[trigger] crate::rules::apply(d, player, m, sh) == Ok::<GameModel, crate::state::GameError>(next);
                assert(accepted_step(d, root_player, m, sh, next));
            }
            let reward = rollout(&mut state, root_player, self.config.max_depth, self.config.rollout_policy, rng);
            proof {
                assert(rollout_reward(next, root_player, config, reward as nat));
            }
            root.record(&mv, reward, Ghost(iteration as nat));
            proof {
                assert(root.stats@ == recorded_stats(root_model, marked, m, reward as nat));
                assert(search_round(o, root_model, root_player, config, before, root.stats@));
                extend_trace(o, root_model, root_player, config, trace, root.stats@);
                trace = trace.push(root.stats@);
            }
            iteration = iteration + 1;
        }
        let choice = root.best_move();
        proof {
            if choice is Some {
                assert(consistent_deal(observation@, root_shuffled@));
                assert(root_model == legal_moves(determinized(observation@, root_shuffled@), root_player));
                let m = choice->Some_0;
                let b = choose|b: int|
                    0 <= b < root.moves@.len() && root.moves@[b]@ == m@ && ({
                        ||| root.stats@[b].visits > 0 && forall|j: int|
                            0 <= j < root.stats@.len() && (#[trigger] root.stats@[j]).visits > 0 ==> mean_at_most(
                                root.stats@[j],
                                root.stats@[b],
                            )
                        ||| b == 0 && forall|j: int| 0 <= j < root.stats@.len() ==> (#[trigger] root.stats@[j]).visits == 0
                    });
                assert(root_model[b] == m@);
                assert(best_choice(root_model, trace.last(), m@));
                assert(search_trace(o, root_shuffled@, config, trace));
            }
        }
        choice
    }
}

proof fn extend_trace(
    o: ObservationModel,
    root: Seq<MoveModel>,
    root_player: usize,
    config: SearchConfig,
    trace: Seq<Seq<MoveStats>>,
    after: Seq<MoveStats>,
)
    requires
        trace.len() >= 1,
        forall|t: int| 0 <= t < trace.len() - 1 ==> #[trigger] search_round(o, root, root_player, config, trace[t], trace[t + 1]),
        search_round(o, root, root_player, config, trace.last(), after),
    ensures
        forall|t: int| 0 <= t < trace.push(after).len() - 1 ==> #[trigger] search_round(
            o,
            root,
            root_player,
            config,
            trace.push(after)[t],
            trace.push(after)[t + 1],
        ),
{
    let t2 = trace.push(after);
    assert forall|t: int| 0 <= t < t2.len() - 1 implies #[trigger] search_round(o, root, root_player, config, t2[t], t2[t + 1]) by {
        if t < trace.len() - 1 {
            assert(t2[t] == trace[t] && t2[t + 1] == trace[t + 1]);
        } else {
            assert(t2[t] == trace.last());
        }
    }
}

} // verus!

//! Rollout policies: uniform random play and Coup-aware heuristic play,
//! and playing a game out from a position.
use rand::rngs::StdRng;
use vstd::prelude::*;

use crate::cards::Card;
use crate::engine::eval::{evaluate, evaluation, WIN_SCORE};
use crate::random::{choose_one, random_below_i32};
use crate::rules::{active_player, apply, hidden_count_of, legal_moves, shuffle_ok, spec_claim, table_cards, wf, winner};
use crate::state::{
    moves_model, ActionKind, GameError, GameModel, GameState, InfluenceCard, Move, MoveModel, Phase, PhaseModel,
    PlayerId, PlayerModel,
};

verus! {

/// How rollouts choose moves.
#[derive(Debug, Clone, Copy, PartialEq, Eq, Structural)]
pub enum RolloutPolicyKind {
    Random,
    Heuristic(HeuristicProfile),
}

/// The personality of a heuristic player.
#[derive(Debug, Clone, Copy, PartialEq, Eq, Structural)]
pub enum HeuristicProfile {
    Balanced,
    Aggressive,
    Conservative,
    ChallengeHeavy,
    BlockHeavy,
    Economic,
}

impl Default for RolloutPolicyKind {
    fn default() -> (kind: Self)
        ensures
            kind == RolloutPolicyKind::Random,
    {
        RolloutPolicyKind::Random
    }
}

impl Default for HeuristicProfile {
    fn default() -> (profile: Self)
        ensures
            profile == HeuristicProfile::Balanced,
    {
        HeuristicProfile::Balanced
    }
}

pub open spec fn spec_attack_bonus(p: HeuristicProfile) -> int {
    match p {
        HeuristicProfile::Aggressive => 18,
        HeuristicProfile::Conservative => -12,
        _ => 0,
    }
}

pub open spec fn spec_economy_bonus(p: HeuristicProfile) -> int {
    match p {
        HeuristicProfile::Economic => 16,
        HeuristicProfile::Conservative => 8,
        HeuristicProfile::Aggressive => -4,
        _ => 0,
    }
}

pub open spec fn spec_exchange_bonus(p: HeuristicProfile) -> int {
    match p {
        HeuristicProfile::Conservative => 10,
        HeuristicProfile::Economic => 6,
        HeuristicProfile::Aggressive => -4,
        _ => 0,
    }
}

pub open spec fn spec_income_bonus(p: HeuristicProfile) -> int {
    match p {
        HeuristicProfile::Conservative => 8,
        HeuristicProfile::Economic => 4,
        HeuristicProfile::Aggressive => -4,
        _ => 0,
    }
}

pub open spec fn spec_challenge_bonus(p: HeuristicProfile) -> int {
    match p {
        HeuristicProfile::ChallengeHeavy => 25,
        HeuristicProfile::Conservative => -12,
        _ => 0,
    }
}

pub open spec fn spec_block_bonus(p: HeuristicProfile) -> int {
    match p {
        HeuristicProfile::BlockHeavy => 25,
        HeuristicProfile::Conservative => 8,
        HeuristicProfile::Aggressive => -8,
        _ => 0,
    }
}

impl HeuristicProfile {
    /// Bonus for coups, assassinations and (half of it) steals.
    pub fn attack_bonus(self) -> (b: i32)
        ensures
            b == spec_attack_bonus(self),
    {
        match self {
            HeuristicProfile::Aggressive => 18,
            HeuristicProfile::Conservative => -12,
            _ => 0,
        }
    }

    /// Bonus for foreign aid and tax.
    pub fn economy_bonus(self) -> (b: i32)
        ensures
            b == spec_economy_bonus(self),
    {
        match self {
            HeuristicProfile::Economic => 16,
            HeuristicProfile::Conservative => 8,
            HeuristicProfile::Aggressive => -4,
            _ => 0,
        }
    }

    /// Bonus for exchanges.
    pub fn exchange_bonus(self) -> (b: i32)
        ensures
            b == spec_exchange_bonus(self),
    {
        match self {
            HeuristicProfile::Conservative => 10,
            HeuristicProfile::Economic => 6,
            HeuristicProfile::Aggressive => -4,
            _ => 0,
        }
    }

    /// Bonus for income.
    pub fn income_bonus(self) -> (b: i32)
        ensures
            b == spec_income_bonus(self),
    {
        match self {
            HeuristicProfile::Conservative => 8,
            HeuristicProfile::Economic => 4,
            HeuristicProfile::Aggressive => -4,
            _ => 0,
        }
    }

    /// Bonus for challenges.
    pub fn challenge_bonus(self) -> (b: i32)
        ensures
            b == spec_challenge_bonus(self),
    {
        match self {
            HeuristicProfile::ChallengeHeavy => 25,
            HeuristicProfile::Conservative => -12,
            _ => 0,
        }
    }

    /// Bonus for blocks.
    pub fn block_bonus(self) -> (b: i32)
        ensures
            b == spec_block_bonus(self),
    {
        match self {
            HeuristicProfile::BlockHeavy => 25,
            HeuristicProfile::Conservative => 8,
            HeuristicProfile::Aggressive => -8,
            _ => 0,
        }
    }
}

/// What each character is worth to keep.
pub open spec fn spec_card_value(card: Card) -> int {
    match card {
        Card::Duke => 30,
        Card::Captain => 24,
        Card::Assassin => 22,
        Card::Ambassador => 18,
        Card::Contessa => 16,
    }
}

pub open spec fn hand_value(keep: Seq<Card>) -> int
    decreases keep.len(),
{
    if keep.len() == 0 {
        0
    } else {
        hand_value(keep.drop_last()) + spec_card_value(keep.last())
    }
}

/// Copies of `card` among these influence cards that are face down
/// (`hidden`) or face up (`!hidden`).
pub open spec fn copies_of(s: Seq<InfluenceCard>, card: Card, hidden: bool) -> nat
    decreases s.len(),
{
    if s.len() == 0 {
        0
    } else {
        copies_of(s.drop_last(), card, hidden) + if s.last().card == card && s.last().revealed != hidden {
            1nat
        } else {
            0nat
        }
    }
}

/// Face-up copies of `card` at the first `n` seats.
pub open spec fn revealed_copies(players: Seq<PlayerModel>, card: Card, n: nat) -> nat
    decreases n,
{
    if n == 0 {
        0
    } else {
        revealed_copies(players, card, (n - 1) as nat) + copies_of(players[n - 1].influence, card, false)
    }
}

/// The copies of `card` that `player` can see: their own face-down ones
/// and every face-up one.
pub open spec fn visible_copies(g: GameModel, player: usize, card: Card) -> nat {
    copies_of(g.players[player as int].influence, card, true) + revealed_copies(g.players, card, g.players.len())
}

pub open spec fn spec_target_score(g: GameModel, target: usize) -> int {
    (if g.players[target as int].hidden_count() == 1 { 30int } else { 10int }) + g.players[target as int].coins
}

pub open spec fn spec_claim_truth_score(g: GameModel, player: usize, claim: Card) -> int {
    if g.players[player as int].has_hidden(claim) {
        18
    } else if visible_copies(g, player, claim) >= 3 {
        -100
    } else {
        -18
    }
}

pub open spec fn challenge_impact(kind: ActionKind) -> int {
    match kind {
        ActionKind::Assassinate { .. } => 25,
        ActionKind::Steal { .. } => 15,
        ActionKind::Tax => 10,
        ActionKind::Exchange => 6,
        ActionKind::ForeignAid => 4,
    }
}

pub open spec fn spec_claim_challenge_score(
    g: GameModel,
    player: usize,
    claim: Card,
    kind: ActionKind,
    profile: HeuristicProfile,
) -> int {
    let visible = visible_copies(g, player, claim);
    if visible >= 3 {
        100
    } else {
        42 + challenge_impact(kind) + (if visible == 2 { 10int } else { 0int })
            - (if g.players[player as int].hidden_count() == 1 { 20int } else { 0int })
            + spec_challenge_bonus(profile)
    }
}

pub open spec fn spec_challenge_score(g: GameModel, player: usize, profile: HeuristicProfile) -> int {
    match g.phase {
        PhaseModel::AwaitingChallenge { action, .. } => match spec_claim(action.kind) {
            Some(claim) => spec_claim_challenge_score(g, player, claim, action.kind, profile),
            None => 0,
        },
        PhaseModel::AwaitingBlockChallenge { block_card, .. } => spec_claim_challenge_score(
            g,
            player,
            block_card,
            ActionKind::ForeignAid,
            profile,
        ),
        _ => 0,
    }
}

pub open spec fn block_impact(phase: PhaseModel) -> int {
    match phase {
        PhaseModel::AwaitingBlock { action, .. } => match action.kind {
            ActionKind::Assassinate { .. } => 45,
            ActionKind::Steal { .. } => 30,
            ActionKind::ForeignAid => 12,
            _ => 0,
        },
        _ => 0,
    }
}

pub open spec fn spec_block_score(g: GameModel, player: usize, claim: Card, profile: HeuristicProfile) -> int {
    if g.players[player as int].has_hidden(claim) {
        25 + block_impact(g.phase) + spec_block_bonus(profile)
    } else {
        block_impact(g.phase) / 3 + spec_block_bonus(profile) / 2
    }
}

pub open spec fn spec_reveal_score(g: GameModel, player: usize, card_index: usize) -> int {
    let infl = g.players[player as int].influence;
    if card_index >= infl.len() || infl[card_index as int].revealed {
        i32::MIN as int
    } else {
        -spec_card_value(infl[card_index as int].card)
    }
}

/// The heuristic value of a move, before the random jitter.
pub open spec fn base_score(g: GameModel, player: usize, mv: MoveModel, profile: HeuristicProfile) -> int {
    match mv {
        MoveModel::Income => 20 + spec_income_bonus(profile),
        MoveModel::ForeignAid => 28 + spec_economy_bonus(profile),
        MoveModel::Tax => 45 + spec_economy_bonus(profile) + spec_claim_truth_score(g, player, Card::Duke),
        MoveModel::Exchange => 32 + spec_exchange_bonus(profile) + spec_claim_truth_score(g, player, Card::Ambassador),
        MoveModel::Coup { target } => 80 + spec_target_score(g, target) + spec_attack_bonus(profile),
        MoveModel::Assassinate { target } => 55 + spec_target_score(g, target) + spec_attack_bonus(profile)
            + spec_claim_truth_score(g, player, Card::Assassin),
        MoveModel::Steal { target } => 35 + (if g.players[target as int].coins < 2 {
            g.players[target as int].coins as int
        } else {
            2int
        }) * 8 + spec_attack_bonus(profile) / 2 + spec_claim_truth_score(g, player, Card::Captain),
        MoveModel::Challenge => spec_challenge_score(g, player, profile),
        MoveModel::PassChallenge => 25,
        MoveModel::Block { claim } => spec_block_score(g, player, claim, profile),
        MoveModel::PassBlock => 18,
        MoveModel::RevealInfluence { card_index } => spec_reveal_score(g, player, card_index),
        MoveModel::ExchangeReturn { keep } => hand_value(keep),
    }
}

/// A move the heuristic can score without overflow or a missing seat: its
/// target sits at the table and a kept hand is not absurdly large.
pub open spec fn scorable(g: GameModel, mv: MoveModel) -> bool {
    match mv {
        MoveModel::Coup { target } => target < g.players.len(),
        MoveModel::Assassinate { target } => target < g.players.len(),
        MoveModel::Steal { target } => target < g.players.len(),
        MoveModel::ExchangeReturn { keep } => keep.len() <= 1000,
        _ => true,
    }
}

/// The inputs a rollout policy works on: a well-formed state, a seated
/// player, and moves the heuristic can score.
pub open spec fn policy_inputs_ok(g: GameModel, player: usize, legal: Seq<MoveModel>) -> bool {
    &&& wf(g)
    &&& player < g.players.len()
    &&& forall|i: int| 0 <= i < legal.len() ==> scorable(g, #[trigger] legal[i])
}

/// The value of a card to keep.
pub fn card_value(card: Card) -> (v: i32)
    ensures
        v == spec_card_value(card),
{
    match card {
        Card::Duke => 30,
        Card::Captain => 24,
        Card::Assassin => 22,
        Card::Ambassador => 18,
        Card::Contessa => 16,
    }
}

fn exchange_return_score(keep: &Vec<Card>) -> (v: i32)
    requires
        keep@.len() <= 1000,
    ensures
        v == hand_value(keep@),
        0 <= v <= 30000,
{
    let mut total: i32 = 0;
    let mut i: usize = 0;
    while i < keep.len()
        invariant
            0 <= i <= keep.len(),
            keep@.len() <= 1000,
            total == hand_value(keep@.take(i as int)),
            0 <= total <= 30 * i,
        decreases keep.len() - i,
    {
        proof {
            assert(keep@.take(i + 1).drop_last() =~= keep@.take(i as int));
        }
        total = total + card_value(keep[i]);
        i = i + 1;
    }
    assert(keep@.take(i as int) =~= keep@);
    total
}

fn copies_in(influence: &Vec<InfluenceCard>, card: Card, hidden: bool) -> (count: usize)
    ensures
        count == copies_of(influence@, card, hidden),
        count <= influence@.len(),
{
    let mut count: usize = 0;
    let mut i: usize = 0;
    while i < influence.len()
        invariant
            0 <= i <= influence.len(),
            count == copies_of(influence@.take(i as int), card, hidden),
            count <= i,
        decreases influence.len() - i,
    {
        proof {
            crate::players::lemma_take_last(influence@, i as int);
        }
        if influence[i].card == card && influence[i].revealed != hidden {
            count = count + 1;
        }
        i = i + 1;
    }
    assert(influence@.take(i as int) =~= influence@);
    count
}

/// The copies of `card` that `player` can see.
fn visible_card_count(state: &GameState, player: PlayerId, card: Card) -> (count: usize)
    requires
        state.wf(),
        player < state.players.len(),
    ensures
        count == visible_copies(state@, player, card),
{
    let own_hidden = copies_in(&state.players[player].influence, card, true);
    let mut revealed: usize = 0;
    let mut i: usize = 0;
    while i < state.players.len()
        invariant
            0 <= i <= state.players.len(),
            state.wf(),
            revealed == revealed_copies(state@.players, card, i as nat),
            revealed <= 64 * i,
        decreases state.players.len() - i,
    {
        let c = copies_in(&state.players[i].influence, card, false);
        assert(state@.players[i as int].influence.len() <= 64);
        revealed = revealed + c;
        i = i + 1;
    }
    assert(own_hidden <= 64) by {
        assert(state@.players[player as int].influence.len() <= 64);
    }
    own_hidden + revealed
}

fn target_score(state: &GameState, target: PlayerId) -> (s: i32)
    requires
        state.wf(),
        target < state.players.len(),
    ensures
        s == spec_target_score(state@, target),
{
    let target_state = &state.players[target];
    let influence_bonus: i32 = if target_state.hidden_count() == 1 { 30 } else { 10 };
    influence_bonus + target_state.coins as i32
}

fn claim_truth_score(state: &GameState, player: PlayerId, claim: Card) -> (s: i32)
    requires
        state.wf(),
        player < state.players.len(),
    ensures
        s == spec_claim_truth_score(state@, player, claim),
{
    if state.players[player].has_hidden_card(claim) {
        18
    } else if visible_card_count(state, player, claim) >= 3 {
        -100
    } else {
        -18
    }
}

fn claim_challenge_score(
    state: &GameState,
    player: PlayerId,
    claim: Card,
    action: ActionKind,
    profile: HeuristicProfile,
) -> (s: i32)
    requires
        state.wf(),
        player < state.players.len(),
    ensures
        s == spec_claim_challenge_score(state@, player, claim, action, profile),
{
    let visible_count = visible_card_count(state, player, claim);
    if visible_count >= 3 {
        return 100;
    }
    let scarcity_bonus: i32 = if visible_count == 2 { 10 } else { 0 };
    let impact: i32 = match action {
        ActionKind::Assassinate { .. } => 25,
        ActionKind::Steal { .. } => 15,
        ActionKind::Tax => 10,
        ActionKind::Exchange => 6,
        ActionKind::ForeignAid => 4,
    };
    let risk_penalty: i32 = if state.players[player].hidden_count() == 1 { 20 } else { 0 };
    42 + impact + scarcity_bonus - risk_penalty + profile.challenge_bonus()
}

fn challenge_score(state: &GameState, player: PlayerId, profile: HeuristicProfile) -> (s: i32)
    requires
        state.wf(),
        player < state.players.len(),
    ensures
        s == spec_challenge_score(state@, player, profile),
{
    match &state.phase {
        Phase::AwaitingChallenge { action, .. } => match action.kind.claim() {
            Some(claim) => claim_challenge_score(state, player, claim, action.kind, profile),
            None => 0,
        },
        Phase::AwaitingBlockChallenge { block_card, .. } => {
            claim_challenge_score(state, player, *block_card, ActionKind::ForeignAid, profile)
        },
        _ => 0,
    }
}

fn block_score(state: &GameState, player: PlayerId, claim: Card, profile: HeuristicProfile) -> (s: i32)
    requires
        state.wf(),
        player < state.players.len(),
    ensures
        s == spec_block_score(state@, player, claim, profile),
{
    let has_claim = state.players[player].has_hidden_card(claim);
    let impact: i32 = match &state.phase {
        Phase::AwaitingBlock { action, .. } => match action.kind {
            ActionKind::Assassinate { .. } => 45,
            ActionKind::Steal { .. } => 30,
            ActionKind::ForeignAid => 12,
            ActionKind::Tax | ActionKind::Exchange => 0,
        },
        _ => 0,
    };
    if has_claim {
        25 + impact + profile.block_bonus()
    } else {
        let bonus = profile.block_bonus();
        assert(bonus / 2 == spec_block_bonus(profile) / 2);
        impact / 3 + bonus / 2
    }
}

fn reveal_score(state: &GameState, player: PlayerId, card_index: usize) -> (s: i32)
    requires
        player < state.players.len(),
    ensures
        s == spec_reveal_score(state@, player, card_index),
{
    if card_index >= state.players[player].influence.len() {
        return i32::MIN;
    }
    let influence = state.players[player].influence[card_index];
    if influence.revealed {
        return i32::MIN;
    }
    -card_value(influence.card)
}

/// The heuristic value of a move, before the random jitter.
fn score_move_base(state: &GameState, player: PlayerId, mv: &Move, profile: HeuristicProfile) -> (s: i32)
    requires
        state.wf(),
        player < state.players.len(),
        scorable(state@, mv@),
    ensures
        s == base_score(state@, player, mv@, profile),
        s <= 40000,
{
    proof {
        assert forall|i: int| 0 <= i < state@.players.len() implies #[trigger] state@.players[i].coins <= 250 by {}
    }
    match mv {
        Move::Income => 20 + profile.income_bonus(),
        Move::ForeignAid => 28 + profile.economy_bonus(),
        Move::Tax => 45 + profile.economy_bonus() + claim_truth_score(state, player, Card::Duke),
        Move::Exchange => 32 + profile.exchange_bonus() + claim_truth_score(state, player, Card::Ambassador),
        Move::Coup { target } => 80 + target_score(state, *target) + profile.attack_bonus(),
        Move::Assassinate { target } => {
            55 + target_score(state, *target) + profile.attack_bonus() + claim_truth_score(state, player, Card::Assassin)
        },
        Move::Steal { target } => {
            let coins = state.players[*target].coins;
            let taken: i32 = if coins < 2 { coins as i32 } else { 2 };
            let attack = profile.attack_bonus();
            assert(attack / 2 == spec_attack_bonus(profile) / 2);
            35 + taken * 8 + attack / 2 + claim_truth_score(state, player, Card::Captain)
        },
        Move::Challenge => challenge_score(state, player, profile),
        Move::PassChallenge => 25,
        Move::Block { claim } => block_score(state, player, *claim, profile),
        Move::PassBlock => 18,
        Move::RevealInfluence { card_index } => reveal_score(state, player, *card_index),
        Move::ExchangeReturn { keep } => exchange_return_score(keep),
    }
}

/// A policy that picks one of the legal moves during a rollout.
pub trait RolloutPolicy {
    fn choose_move(&self, state: &GameState, player: PlayerId, legal: &Vec<Move>, rng: &mut StdRng) -> (choice: Option<Move>)
        requires
            policy_inputs_ok(state@, player, moves_model(legal@)),
        ensures
            choice is None <==> legal@.len() == 0,
            choice matches Some(m) ==> moves_model(legal@).contains(m@),
    ;
}

/// Uniform random play.
#[derive(Debug, Clone, Copy, Default)]
pub struct RandomRolloutPolicy;

impl RolloutPolicy for RandomRolloutPolicy {
    fn choose_move(&self, state: &GameState, player: PlayerId, legal: &Vec<Move>, rng: &mut StdRng) -> (choice: Option<Move>) {
        match choose_one(legal, rng) {
            Some(m) => {
                let copy = m.duplicate();
                proof {
                    let k = choose|k: int| 0 <= k < legal@.len() && legal@[k] == *m;
                    assert(moves_model(legal@)[k] == copy@);
                }
                Some(copy)
            },
            None => None,
        }
    }
}

/// Heuristic play with a personality.
#[derive(Debug, Clone, Copy, Default)]
pub struct HeuristicRolloutPolicy {
    profile: HeuristicProfile,
}

impl HeuristicRolloutPolicy {
    pub fn new(profile: HeuristicProfile) -> (policy: Self)
        ensures
            policy.profile() == profile,
    {
        Self { profile }
    }

    pub closed spec fn profile(self) -> HeuristicProfile {
        self.profile
    }

    /// The move with the highest heuristic value plus a jitter in `0..4`
    /// drawn for each move in order; the last such move on a tie (see
    /// `pick_jittered`). So the chosen move's value is within 3 of the best
    /// value.
    pub fn choose_heuristic_move(&self, state: &GameState, player: PlayerId, legal: &Vec<Move>, rng: &mut StdRng) -> (choice: Option<Move>)
        requires
            policy_inputs_ok(state@, player, moves_model(legal@)),
        ensures
            choice is None <==> legal@.len() == 0,
            choice matches Some(m) ==> jittered_choice(state@, player, moves_model(legal@), m@, self.profile()),
            choice matches Some(m) ==> exists|i: int|
                0 <= i < legal@.len() && legal@[i]@ == m@ && forall|j: int|
                    0 <= j < legal@.len() ==> #[trigger] base_score(state@, player, legal@[j]@, self.profile())
                        <= base_score(state@, player, legal@[i]@, self.profile()) + 3,
    {
        if legal.len() == 0 {
            return None;
        }
        let ghost moves = moves_model(legal@);
        let mut bases: Vec<i32> = Vec::new();
        let mut jitters: Vec<i32> = Vec::new();
        let mut i: usize = 0;
        while i < legal.len()
            invariant
                0 <= i <= legal.len(),
                moves == moves_model(legal@),
                policy_inputs_ok(state@, player, moves),
                bases@.len() == i,
                jitters@.len() == i,
                forall|j: int| 0 <= j < i ==> bases@[j] == base_score(state@, player, #[trigger] moves[j], self.profile()),
                forall|j: int| 0 <= j < i ==> 0 <= #[trigger] jitters@[j] < 4,
            decreases legal.len() - i,
        {
            assert(scorable(state@, moves[i as int]));
            let base = score_move_base(state, player, &legal[i], self.profile);
            let jitter = random_below_i32(rng, 4);
            bases.push(base);
            jitters.push(jitter);
            i = i + 1;
        }
        let best = pick_jittered(&bases, &jitters);
        let choice = legal[best].duplicate();
        proof {
            let jit = Seq::new(moves.len(), |j: int| jitters@[j] as int);
            assert(moves[best as int] == choice@);
            assert(jittered_best(state@, player, moves, self.profile(), jit, best as int));
            assert forall|j: int| 0 <= j < legal@.len() implies #[trigger] base_score(state@, player, legal@[j]@, self.profile())
                <= base_score(state@, player, legal@[best as int]@, self.profile()) + 3 by {
                assert(moves[j] == legal@[j]@);
                assert(bases@[j] + jitters@[j] <= bases@[best as int] + jitters@[best as int]);
            }
        }
        Some(choice)
    }
}

/// The last position of highest `bases[i] + jitters[i]`.
pub fn pick_jittered(bases: &Vec<i32>, jitters: &Vec<i32>) -> (best: usize)
    requires
        bases@.len() == jitters@.len(),
        bases@.len() > 0,
    ensures
        best < bases@.len(),
        forall|j: int| 0 <= j < bases@.len() ==> bases@[j] + jitters@[j] <= bases@[best as int] + jitters@[best as int],
        forall|j: int| best < j < bases@.len() ==> bases@[j] + jitters@[j] < bases@[best as int] + jitters@[best as int],
{
    let mut best: usize = 0;
    let mut best_score: i64 = bases[0] as i64 + jitters[0] as i64;
    let mut i: usize = 1;
    while i < bases.len()
        invariant
            1 <= i <= bases@.len(),
            bases@.len() == jitters@.len(),
            best < i,
            best_score == bases@[best as int] + jitters@[best as int],
            forall|j: int| 0 <= j < i ==> bases@[j] + jitters@[j] <= best_score,
            forall|j: int| best < j < i ==> bases@[j] + jitters@[j] < best_score,
        decreases bases@.len() - i,
    {
        let score = bases[i] as i64 + jitters[i] as i64;
        if score >= best_score {
            best = i;
            best_score = score;
        }
        i = i + 1;
    }
    best
}

/// The move at `i` of `moves` is the last one of highest heuristic value
/// plus `jitters`, each jitter in `0..4`.
pub open spec fn jittered_best(
    g: GameModel,
    p: usize,
    moves: Seq<MoveModel>,
    profile: HeuristicProfile,
    jitters: Seq<int>,
    i: int,
) -> bool {
    &&& 0 <= i < moves.len()
    &&& jitters.len() == moves.len()
    &&& forall|j: int| 0 <= j < moves.len() ==> 0 <= #[trigger] jitters[j] < 4
    &&& forall|j: int| 0 <= j < moves.len() ==> base_score(g, p, #[trigger] moves[j], profile) + jitters[j]
        <= base_score(g, p, moves[i], profile) + jitters[i]
    &&& forall|j: int| i < j < moves.len() ==> base_score(g, p, #[trigger] moves[j], profile) + jitters[j]
        < base_score(g, p, moves[i], profile) + jitters[i]
}

/// A move the heuristic may choose among `moves`: the last of highest value
/// plus some jitter in `0..4` for each move.
pub open spec fn jittered_choice(g: GameModel, p: usize, moves: Seq<MoveModel>, m: MoveModel, profile: HeuristicProfile) -> bool {
    exists|jitters: Seq<int>, i: int| #[trigger] jittered_best(g, p, moves, profile, jitters, i) && moves[i] == m
}

impl RolloutPolicy for HeuristicRolloutPolicy {
    fn choose_move(&self, state: &GameState, player: PlayerId, legal: &Vec<Move>, rng: &mut StdRng) -> (choice: Option<Move>)
        ensures
            choice matches Some(m) ==> jittered_choice(state@, player, moves_model(legal@), m@, self.profile()),
    {
        self.choose_heuristic_move(state, player, legal, rng)
    }
}

/// Picks a rollout move under `policy`.
pub fn choose_rollout_move(
    state: &GameState,
    player: PlayerId,
    legal: &Vec<Move>,
    policy: RolloutPolicyKind,
    rng: &mut StdRng,
) -> (choice: Option<Move>)
    requires
        policy_inputs_ok(state@, player, moves_model(legal@)),
    ensures
        choice is None <==> legal@.len() == 0,
        choice matches Some(m) ==> moves_model(legal@).contains(m@),
        policy matches RolloutPolicyKind::Heuristic(profile) ==> (choice matches Some(m) ==> jittered_choice(
            state@,
            player,
            moves_model(legal@),
            m@,
            profile,
        )),
{
    match policy {
        RolloutPolicyKind::Random => RandomRolloutPolicy.choose_move(state, player, legal, rng),
        RolloutPolicyKind::Heuristic(profile) => HeuristicRolloutPolicy::new(profile).choose_move(state, player, legal, rng),
    }
}

/// A move `policy` may make for `p` in `g`: a legal move, and under a
/// heuristic policy the last legal move of highest value plus some jitter
/// in `0..4` for each move.
pub open spec fn policy_move(g: GameModel, p: usize, mv: MoveModel, policy: RolloutPolicyKind) -> bool {
    &&& legal_moves(g, p).contains(mv)
    &&& policy matches RolloutPolicyKind::Heuristic(profile) ==> jittered_choice(g, p, legal_moves(g, p), mv, profile)
}

/// `b` follows from `a` by a move `policy` may make for the player awaited in `a`.
pub open spec fn policy_step(a: GameModel, b: GameModel, policy: RolloutPolicyKind) -> bool {
    exists|p: usize, mv: MoveModel, sh: Seq<Card>|
        active_player(a) == Some(p) && policy_move(a, p, mv, policy) && #[trigger] accepted_step(a, p, mv, sh, b)
}

/// Every step of `path` is a move `policy` may make.
pub open spec fn played_under(path: Seq<GameModel>, policy: RolloutPolicyKind) -> bool {
    forall|i: int| 0 <= i < path.len() - 1 ==> #[trigger] policy_step(path[i], path[i + 1], policy)
}

/// `p` making `mv` in `g` is accepted and leads to `g2`, the deck (where
/// the move shuffles it) coming out as `sh`.
#[verifier::opaque]
pub open spec fn accepted_step(g: GameModel, p: usize, mv: MoveModel, sh: Seq<Card>, g2: GameModel) -> bool {
    shuffle_ok(g, p, mv, sh) && apply(g, p, mv, sh) == Ok::<GameModel, GameError>(g2)
}

/// `b` follows from `a` by one legal move of the player awaited in `a`.
pub open spec fn one_move(a: GameModel, b: GameModel) -> bool {
    exists|p: usize, mv: MoveModel, sh: Seq<Card>|
        active_player(a) == Some(p) && legal_moves(a, p).contains(mv) && #[trigger] accepted_step(a, p, mv, sh, b)
}

/// Each state of `path` follows from the one before by one accepted move.
pub open spec fn is_play(path: Seq<GameModel>) -> bool {
    forall|i: int| 0 <= i < path.len() - 1 ==> #[trigger] one_move(path[i], path[i + 1])
}

/// Play stops here: the game is won, or nobody is awaited, or the awaited
/// player has no legal move.
pub open spec fn play_stops(g: GameModel) -> bool {
    winner(g) is Some || !(active_player(g) matches Some(p) && legal_moves(g, p).len() > 0)
}

/// Plays the game on for at most `max_depth` moves under `policy`, each one
/// a listed legal move of the awaited player that the policy may choose,
/// stopping early only where play stops, and scores the position reached
/// for `root_player`, out of `WIN_SCORE`.
pub fn rollout(
    state: &mut GameState,
    root_player: PlayerId,
    max_depth: usize,
    policy: RolloutPolicyKind,
    rng: &mut StdRng,
) -> (score: u32)
    requires
        old(state).wf(),
    ensures
        final(state).wf(),
        exists|path: Seq<GameModel>| #[trigger] is_play(path) && played_under(path, policy) && 1 <= path.len() <= max_depth + 1
            && path[0] == old(state)@ && path.last() == final(state)@ && (path.len() <= max_depth ==> play_stops(final(state)@)),
        score == evaluation(final(state)@, root_player),
        score <= WIN_SCORE,
{
    let ghost start = state@;
    let ghost mut path: Seq<GameModel> = seq![start];
    let mut depth: usize = 0;
    while depth < max_depth
        invariant
            state.wf(),
            depth <= max_depth,
            is_play(path),
            played_under(path, policy),
            path.len() == depth + 1,
            path[0] == start,
            path.last() == state@,
        ensures
            state.wf(),
            depth <= max_depth,
            is_play(path),
            played_under(path, policy),
            path.len() == depth + 1,
            path[0] == start,
            path.last() == state@,
            depth < max_depth ==> play_stops(state@),
        decreases max_depth - depth,
    {
        if state.is_terminal() {
            break;
        }
        let player = match state.active_player() {
            Some(player) => player,
            None => {
                break;
            },
        };
        let legal = state.legal_moves(player);
        proof {
            crate::invariants::lemma_legal_moves_scorable(state@, player);
            if legal@.len() > 0 {
                assert(moves_model(legal@).contains(moves_model(legal@)[0]));
                crate::invariants::lemma_legal_move_facts(state@, player, moves_model(legal@)[0]);
            }
        }
        if legal.len() == 0 {
            break;
        }
        let mv = match choose_rollout_move(state, player, &legal, policy, rng) {
            Some(mv) => mv,
            None => {
                break;
            },
        };
        let ghost before = state@;
        let ghost mv_model = mv@;
        match state.apply_move(player, mv) {
            Ok(()) => {
                proof {
                    reveal(accepted_step);
                    let sh = choose|sh: Seq<Card>| shuffle_ok(before, player, mv_model, sh)
                        && #[trigger] apply(before, player, mv_model, sh) == Ok::<GameModel, GameError>(state@);
                    assert(accepted_step(before, player, mv_model, sh, state@));
                    assert(one_move(before, state@));
                    assert(moves_model(legal@) == legal_moves(before, player));
                    assert(policy_move(before, player, mv_model, policy));
                    assert(policy_step(before, state@, policy));
                    let old_path = path;
                    path = path.push(state@);
                    assert forall|i: int| 0 <= i < path.len() - 1 implies #[trigger] one_move(path[i], path[i + 1]) by {
                        if i < old_path.len() - 1 {
                            assert(path[i] == old_path[i] && path[i + 1] == old_path[i + 1]);
                        } else {
                            assert(path[i] == before);
                        }
                    }
                    assert forall|i: int| 0 <= i < path.len() - 1 implies #[trigger] policy_step(path[i], path[i + 1], policy) by {
                        if i < old_path.len() - 1 {
                            assert(path[i] == old_path[i] && path[i + 1] == old_path[i + 1]);
                        } else {
                            assert(path[i] == before);
                        }
                    }
                }
            },
            Err(_) => {
                proof {
                    crate::laws::law_legal_moves_accepted(before, player, mv_model, before.deck);
                }
                break;
            },
        }
        depth = depth + 1;
    }
    evaluate(state, root_player)
}

// ---------------------------------------------------------------------------
// Which card the heuristic gives up

/// The moves that turn up one card are exactly those naming a face-down
/// card of the hand.
proof fn lemma_reveal_moves_members(s: Seq<InfluenceCard>)
    requires
        s.len() <= usize::MAX,
    ensures
        forall|k: int| 0 <= k < crate::rules::reveal_moves(s).len() ==> ((#[trigger] crate::rules::reveal_moves(s)[k])
            matches MoveModel::RevealInfluence { card_index } && card_index < s.len() && !s[card_index as int].revealed),
        forall|j: int| 0 <= j < s.len() && !s[j].revealed ==> crate::rules::reveal_moves(s).contains(
            MoveModel::RevealInfluence { card_index: j as usize },
        ),
    decreases s.len(),
{
    if s.len() > 0 {
        let init = s.drop_last();
        lemma_reveal_moves_members(init);
        let prev = crate::rules::reveal_moves(init);
        let r = crate::rules::reveal_moves(s);
        assert forall|k: int| 0 <= k < r.len() implies ((#[trigger] r[k]) matches MoveModel::RevealInfluence { card_index }
            && card_index < s.len() && !s[card_index as int].revealed) by {
            if k < prev.len() {
                assert(r[k] == prev[k]);
                assert(prev[k] matches MoveModel::RevealInfluence { card_index } && card_index < init.len()
                    && !init[card_index as int].revealed);
            }
        }
        assert forall|j: int| 0 <= j < s.len() && !s[j].revealed implies r.contains(
            MoveModel::RevealInfluence { card_index: j as usize },
        ) by {
            if j < init.len() {
                assert(!init[j].revealed);
                let k = choose|k: int| 0 <= k < prev.len() && prev[k] == MoveModel::RevealInfluence { card_index: j as usize };
                assert(r[k] == prev[k]);
            } else {
                assert(r[r.len() - 1] == MoveModel::RevealInfluence { card_index: j as usize });
            }
        }
    }
}

/// Turning up a more valuable face-down card scores lower: the heuristic
/// rather keeps its Duke than its Contessa.
pub proof fn law_reveal_scores_follow_card_values(
    g: GameModel,
    player: usize,
    i: usize,
    j: usize,
    profile: HeuristicProfile,
)
    requires
        player < g.players.len(),
        i < g.players[player as int].influence.len(),
        j < g.players[player as int].influence.len(),
        !g.players[player as int].influence[i as int].revealed,
        !g.players[player as int].influence[j as int].revealed,
        spec_card_value(g.players[player as int].influence[i as int].card) > spec_card_value(
            g.players[player as int].influence[j as int].card,
        ),
    ensures
        base_score(g, player, MoveModel::RevealInfluence { card_index: i }, profile) < base_score(
            g,
            player,
            MoveModel::RevealInfluence { card_index: j },
            profile,
        ),
{
}

/// When the heuristic must turn a card up, it gives up one of its least
/// valuable face-down cards, up to its jitter: the card it turns up is
/// face down and worth at most three more than any other face-down card of
/// the hand. So it never gives up a Duke (worth 30) while it holds a
/// Captain (24), an Assassin (22), an Ambassador (18) or a Contessa (16)
/// face down.
pub proof fn law_heuristic_reveals_least_valuable(g: GameModel, player: usize, card_index: usize, profile: HeuristicProfile)
    requires
        wf(g),
        g.phase matches PhaseModel::AwaitingInfluenceLoss { player: loser, .. } && loser == player,
        jittered_choice(g, player, legal_moves(g, player), MoveModel::RevealInfluence { card_index }, profile),
    ensures
        ({
            let hand = g.players[player as int].influence;
            &&& card_index < hand.len()
            &&& !hand[card_index as int].revealed
            &&& forall|j: int| 0 <= j < hand.len() && !hand[j].revealed ==> spec_card_value(hand[card_index as int].card)
                <= spec_card_value(#[trigger] hand[j].card) + 3
            &&& hand[card_index as int].card == Card::Duke ==> forall|j: int|
                0 <= j < hand.len() && !hand[j].revealed ==> (#[trigger] hand[j]).card == Card::Duke
        }),
{
    let moves = legal_moves(g, player);
    let (jitters, b) = choose|jitters: Seq<int>, b: int| #[trigger] jittered_best(g, player, moves, profile, jitters, b)
        && moves[b] == MoveModel::RevealInfluence { card_index };
    assert(moves.len() > 0);
    let hand = g.players[player as int].influence;
    assert(moves == crate::rules::reveal_moves(hand));
    lemma_reveal_moves_members(hand);
    assert(moves[b] matches MoveModel::RevealInfluence { card_index: c } && c < hand.len() && !hand[c as int].revealed);
    assert forall|j: int| 0 <= j < hand.len() && !hand[j].revealed implies spec_card_value(hand[card_index as int].card)
        <= spec_card_value(#[trigger] hand[j].card) + 3 by {
        let mj = MoveModel::RevealInfluence { card_index: j as usize };
        assert(moves.contains(mj));
        let k = choose|k: int| 0 <= k < moves.len() && moves[k] == mj;
        assert(base_score(g, player, moves[k], profile) + jitters[k] <= base_score(g, player, moves[b], profile) + jitters[b]);
        assert(0 <= jitters[k] < 4 && 0 <= jitters[b] < 4);
    }
}

} // verus!

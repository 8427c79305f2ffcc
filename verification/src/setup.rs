//! Setting up a game, what a player sees of it, and sampling full states
//! consistent with what a player sees.
use vstd::prelude::*;

use crate::cards::{spec_standard_deck, standard_deck, Card};
use crate::random::{seeded_shuffle, shuffle_seeded};
use rand::rngs::StdRng;
use crate::rules::{
    active_player, drawn_cards, hidden_cards_of, hidden_count_of, legal_moves, pending_ok, phase_ok,
    remove_all, revealed_cards_of, wf,
};
use crate::state::{
    copy_cards, players_model, GameError, GameModel, GameState, InfluenceCard, Observation, ObservationModel,
    ObservedPlayer, ObservedPlayerModel, Phase, PhaseModel, PlayerId, PlayerModel, PlayerState,
};

verus! {

/// Dealing from a shuffled court deck: two coins to each player, then two
/// face-down cards each off the top (the end of the sequence); the rest is
/// the deck and player 0 acts first.
pub open spec fn deal(shuffled: Seq<Card>, n: nat) -> GameModel {
    let top = shuffled.len() - 1;
    GameModel {
        players: Seq::new(
            n,
            |i: int| PlayerModel {
                coins: 2,
                influence: seq![
                    InfluenceCard { card: shuffled[top - 2 * i], revealed: false },
                    InfluenceCard { card: shuffled[top - 2 * i - 1], revealed: false },
                ],
            },
        ),
        deck: shuffled.take(shuffled.len() - 2 * n),
        phase: PhaseModel::AwaitingAction { actor: 0 },
    }
}

/// The phase as `viewer` sees it: the cards another player has drawn for
/// an exchange are left out.
pub open spec fn masked_phase(phase: PhaseModel, viewer: usize) -> PhaseModel
    decreases phase,
{
    match phase {
        PhaseModel::AwaitingInfluenceLoss { player, next } => PhaseModel::AwaitingInfluenceLoss {
            player,
            next: Box::new(masked_phase(*next, viewer)),
        },
        PhaseModel::AwaitingExchangeReturn { player, drawn } => PhaseModel::AwaitingExchangeReturn {
            player,
            drawn: if player == viewer { drawn } else { seq![] },
        },
        _ => phase,
    }
}

/// How many drawn cards the phase hides from `viewer`.
pub open spec fn hidden_drawn_count(phase: PhaseModel, viewer: usize) -> nat
    decreases phase,
{
    match phase {
        PhaseModel::AwaitingInfluenceLoss { next, .. } => hidden_drawn_count(*next, viewer),
        PhaseModel::AwaitingExchangeReturn { player, drawn } => if player == viewer { 0 } else { drawn.len() },
        _ => 0,
    }
}

/// Whether an exchanger holds drawn cards now or once a card is turned up.
pub open spec fn exchange_pending(phase: PhaseModel) -> bool
    decreases phase,
{
    match phase {
        PhaseModel::AwaitingInfluenceLoss { next, .. } => exchange_pending(*next),
        PhaseModel::AwaitingExchangeReturn { .. } => true,
        _ => false,
    }
}

/// The phase with `cards` added after an exchanger's drawn cards.
pub open spec fn with_drawn(phase: PhaseModel, cards: Seq<Card>) -> PhaseModel
    decreases phase,
{
    match phase {
        PhaseModel::AwaitingInfluenceLoss { player, next } => PhaseModel::AwaitingInfluenceLoss {
            player,
            next: Box::new(with_drawn(*next, cards)),
        },
        PhaseModel::AwaitingExchangeReturn { player, drawn } => PhaseModel::AwaitingExchangeReturn {
            player,
            drawn: drawn + cards,
        },
        _ => phase,
    }
}

/// What `viewer` sees: every player's coins, number of face-down cards,
/// face-up cards and whether they live; the viewer's own face-down cards;
/// the size of the deck; how many drawn
/// cards are hidden from the viewer; whose decision is awaited; and the
/// phase without those hidden cards.
pub open spec fn observe(g: GameModel, viewer: usize) -> ObservationModel {
    ObservationModel {
        viewer,
        players: g.players.map_values(|p: PlayerModel| ObservedPlayerModel {
            coins: p.coins,
            hidden_influence: p.hidden_count() as usize,
            revealed: revealed_cards_of(p.influence),
            alive: p.alive(),
        }),
        own_hidden_cards: hidden_cards_of(g.players[viewer as int].influence),
        deck_size: g.deck.len() as usize,
        hidden_drawn: hidden_drawn_count(g.phase, viewer) as usize,
        current_player: active_player(g),
        phase: masked_phase(g.phase, viewer),
    }
}

/// Every face-up card of the table, player by player.
pub open spec fn all_revealed(players: Seq<ObservedPlayerModel>) -> Seq<Card>
    decreases players.len(),
{
    if players.len() == 0 {
        seq![]
    } else {
        all_revealed(players.drop_last()) + players.last().revealed
    }
}

/// The cards the viewer cannot place: the court deck without the face-up
/// cards, the viewer's own face-down cards and the drawn cards the viewer
/// sees (`None` when those are not all in the court deck).
pub open spec fn unseen_cards(o: ObservationModel) -> Option<Seq<Card>> {
    remove_all(spec_standard_deck(), all_revealed(o.players) + o.own_hidden_cards + drawn_cards(o.phase))
}

/// How many unseen cards the players before seat `j` other than the viewer hold.
pub open spec fn dealt_before(o: ObservationModel, j: nat) -> nat
    decreases j,
{
    if j == 0 {
        0
    } else if j - 1 == o.viewer {
        dealt_before(o, (j - 1) as nat)
    } else {
        dealt_before(o, (j - 1) as nat) + o.players[j - 1].hidden_influence as nat
    }
}

pub open spec fn face_down(cards: Seq<Card>) -> Seq<InfluenceCard> {
    cards.map_values(|c: Card| InfluenceCard { card: c, revealed: false })
}

pub open spec fn face_up(cards: Seq<Card>) -> Seq<InfluenceCard> {
    cards.map_values(|c: Card| InfluenceCard { card: c, revealed: true })
}

/// `count` cards popped off the top of `stack` after `skip` were popped.
pub open spec fn popped(stack: Seq<Card>, skip: nat, count: nat) -> Seq<Card> {
    Seq::new(count, |k: int| stack[stack.len() - 1 - skip - k])
}

/// A full state consistent with an observation, the unseen cards having been
/// shuffled into `shuffled`: the viewer keeps their own face-down cards,
/// every other player takes as many unseen cards off the top as they hold
/// face down, the deck takes the next ones and the hidden drawn cards the
/// ones after; each hand lists its face-down cards before its face-up ones;
/// coins and phase are as observed.
pub open spec fn determinized(o: ObservationModel, shuffled: Seq<Card>) -> GameModel {
    let dealt = dealt_before(o, o.players.len());
    GameModel {
        players: Seq::new(
            o.players.len(),
            |j: int| PlayerModel {
                coins: o.players[j].coins,
                influence: (if j == o.viewer {
                    face_down(o.own_hidden_cards)
                } else {
                    face_down(popped(shuffled, dealt_before(o, j as nat), o.players[j].hidden_influence as nat))
                }) + face_up(o.players[j].revealed),
            },
        ),
        deck: popped(shuffled, dealt, o.deck_size as nat),
        phase: with_drawn(o.phase, popped(shuffled, (dealt + o.deck_size) as nat, o.hidden_drawn as nat)),
    }
}

/// Whether the unseen cards suffice for the other players' face-down cards,
/// the deck and the hidden drawn cards.
pub open spec fn enough_unseen(o: ObservationModel, unseen: Seq<Card>) -> bool {
    dealt_before(o, o.players.len()) + o.deck_size + o.hidden_drawn <= unseen.len()
}

impl Phase {
    /// This phase as `viewer` sees it.
    fn masked_for(&self, viewer: PlayerId) -> (masked: Phase)
        ensures
            masked@ == masked_phase(self@, viewer),
        decreases self,
    {
        match self {
            Phase::AwaitingInfluenceLoss { player, next } => {
                let inner = (**next).masked_for(viewer);
                Phase::AwaitingInfluenceLoss { player: *player, next: Box::new(inner) }
            },
            Phase::AwaitingExchangeReturn { player, drawn } => {
                let shown = if *player == viewer { copy_cards(drawn) } else { Vec::new() };
                Phase::AwaitingExchangeReturn { player: *player, drawn: shown }
            },
            _ => self.duplicate(),
        }
    }

    /// How many drawn cards this phase hides from `viewer`.
    fn hidden_drawn_for(&self, viewer: PlayerId) -> (count: usize)
        ensures
            count == hidden_drawn_count(self@, viewer),
        decreases self,
    {
        match self {
            Phase::AwaitingInfluenceLoss { next, .. } => (**next).hidden_drawn_for(viewer),
            Phase::AwaitingExchangeReturn { player, drawn } => if *player == viewer { 0 } else { drawn.len() },
            _ => 0,
        }
    }

    /// The cards an exchanger has drawn, now or once a card is turned up.
    fn drawn(&self) -> (cards: Vec<Card>)
        ensures
            cards@ == drawn_cards(self@),
        decreases self,
    {
        match self {
            Phase::AwaitingInfluenceLoss { next, .. } => (**next).drawn(),
            Phase::AwaitingExchangeReturn { drawn, .. } => copy_cards(drawn),
            _ => Vec::new(),
        }
    }

    /// This phase with `cards` added after an exchanger's drawn cards.
    fn with_drawn_cards(&self, cards: &Vec<Card>) -> (filled: Phase)
        ensures
            filled@ == with_drawn(self@, cards@),
        decreases self,
    {
        match self {
            Phase::AwaitingInfluenceLoss { player, next } => {
                let inner = (**next).with_drawn_cards(cards);
                Phase::AwaitingInfluenceLoss { player: *player, next: Box::new(inner) }
            },
            Phase::AwaitingExchangeReturn { player, drawn } => {
                let mut all = copy_cards(drawn);
                let mut i: usize = 0;
                while i < cards.len()
                    invariant
                        0 <= i <= cards.len(),
                        all@ == drawn@ + cards@.take(i as int),
                    decreases cards.len() - i,
                {
                    all.push(cards[i]);
                    assert(drawn@ + cards@.take(i + 1) =~= (drawn@ + cards@.take(i as int)).push(cards@[i as int]));
                    i = i + 1;
                }
                assert(cards@.take(i as int) =~= cards@);
                Phase::AwaitingExchangeReturn { player: *player, drawn: all }
            },
            _ => self.duplicate(),
        }
    }
}

impl GameState {
    /// A new game for `player_count` players (two to six), dealt from the
    /// court deck shuffled by a generator seeded with `seed`, which the game
    /// keeps for its later shuffles: the same arguments deal the same game.
    pub fn new(player_count: usize, seed: u64) -> (r: Result<GameState, GameError>)
        ensures
            r is Err <==> !(2 <= player_count <= 6),
            r matches Err(e) ==> e == GameError::InvalidPlayerCount,
            r matches Ok(game) ==> game@ == deal(seeded_shuffle(seed, spec_standard_deck()), player_count as nat),
            r matches Ok(game) ==> game.wf() && exists|shuffled: Seq<Card>|
                shuffled.to_multiset() == spec_standard_deck().to_multiset()
                    && shuffled.len() == 15
                    && game@ == #[trigger] deal(shuffled, player_count as nat),
            r matches Ok(game) ==> crate::laws::never_stalled(game@),
            r matches Ok(game) ==> crate::laws::play_ok(game@),
    {
        if player_count < 2 || player_count > 6 {
            return Err(GameError::InvalidPlayerCount);
        }
        let mut deck = standard_deck();
        let rng = shuffle_seeded(&mut deck, seed);
        proof {
            vstd::seq_lib::to_multiset_len(deck@);
            vstd::seq_lib::to_multiset_len(spec_standard_deck());
        }
        let ghost shuffled = deck@;
        let r = Self::deal_shuffled(player_count, deck, rng);
        proof {
            if r is Ok {
                crate::laws::law_new_game_play_ok(shuffled, player_count as nat);
            }
        }
        r
    }

    /// A new game for `player_count` players (two to six) dealt from the 15
    /// cards of `shuffled` in their order: two coins each, two face-down
    /// cards each off the top (the end), the rest as the deck; player 0 acts
    /// first and `rng` is the game's generator.
    pub fn deal_shuffled(player_count: usize, shuffled: Vec<Card>, rng: StdRng) -> (r: Result<GameState, GameError>)
        requires
            shuffled@.len() == 15,
        ensures
            r is Err <==> !(2 <= player_count <= 6),
            r matches Err(e) ==> e == GameError::InvalidPlayerCount,
            r matches Ok(game) ==> game@ == deal(shuffled@, player_count as nat) && game.rng == rng && game.wf(),
            r matches Ok(game) ==> crate::laws::never_stalled(game@),
    {
        if player_count < 2 || player_count > 6 {
            return Err(GameError::InvalidPlayerCount);
        }
        let ghost shuffled_cards = shuffled@;
        let mut deck = shuffled;
        let ghost shuffled = shuffled_cards;
        let mut players: Vec<PlayerState> = Vec::with_capacity(player_count);
        let mut i: usize = 0;
        while i < player_count
            invariant
                2 <= player_count <= 6,
                shuffled.len() == 15,
                0 <= i <= player_count,
                deck@ == shuffled.take(15 - 2 * i),
                players@.len() == i,
                players_model(players@) == deal(shuffled, player_count as nat).players.take(i as int),
            decreases player_count - i,
        {
            let first = deck.pop().unwrap();
            let second = deck.pop().unwrap();
            let mut influence: Vec<InfluenceCard> = Vec::new();
            influence.push(InfluenceCard { card: first, revealed: false });
            influence.push(InfluenceCard { card: second, revealed: false });
            let ghost before = players@;
            players.push(PlayerState { coins: 2, influence });
            proof {
                assert(deck@ =~= shuffled.take(15 - 2 * (i + 1)));
                let dp = deal(shuffled, player_count as nat).players;
                assert(influence@ =~= dp[i as int].influence);
                assert(players@[i as int]@ == dp[i as int]);
                assert(players_model(players@) =~= players_model(before).push(players@[i as int]@));
                assert(dp.take(i + 1) =~= dp.take(i as int).push(dp[i as int]));
                assert(players_model(players@) =~= dp.take(i + 1));
            }
            i = i + 1;
        }
        let game = GameState { players, deck, phase: Phase::AwaitingAction { actor: 0 }, rng };
        proof {
            let g = deal(shuffled, player_count as nat);
            assert(g.players.take(player_count as int) =~= g.players);
            assert(game@ == g);
            assert forall|j: int| 0 <= j < g.players.len() implies #[trigger] g.players[j].coins <= 250 by {}
            assert(g.players[0].alive());
            crate::laws::lemma_settled_never_stalled(g);
        }
        Ok(game)
    }

    /// What `viewer` can see of the game; `InvalidPlayer` for an unknown seat.
    pub fn observation_for(&self, viewer: PlayerId) -> (r: Result<Observation, GameError>)
        requires
            phase_ok(self@.players.len(), self@.phase),
        ensures
            r is Err <==> viewer >= self.players.len(),
            r matches Err(e) ==> e == GameError::InvalidPlayer,
            r matches Ok(o) ==> o@ == observe(self@, viewer),
            r matches Ok(o) ==> (self.wf() ==> observation_ok(o@)),
    {
        if viewer >= self.players.len() {
            return Err(GameError::InvalidPlayer);
        }
        let mut players: Vec<ObservedPlayer> = Vec::new();
        let mut i: usize = 0;
        while i < self.players.len()
            invariant
                0 <= i <= self.players.len(),
                players@.len() == i,
                players@.map_values(|p: ObservedPlayer| p@) == observe(self@, viewer).players.take(i as int),
            decreases self.players.len() - i,
        {
            let player = &self.players[i];
            let observed = ObservedPlayer {
                coins: player.coins,
                hidden_influence: player.hidden_count(),
                revealed: player.revealed_cards(),
                alive: player.is_alive(),
            };
            let ghost before = players@;
            players.push(observed);
            proof {
                let op = observe(self@, viewer).players;
                assert(players@.map_values(|p: ObservedPlayer| p@) =~= before.map_values(|p: ObservedPlayer| p@).push(observed@));
                assert(observed@ == op[i as int]);
                assert(op.take(i + 1) =~= op.take(i as int).push(op[i as int]));
            }
            i = i + 1;
        }
        let own_hidden_cards = self.hidden_cards(viewer);
        let current_player = self.active_player();
        let hidden_drawn = self.phase.hidden_drawn_for(viewer);
        let phase = self.phase.masked_for(viewer);
        let observation = Observation {
            viewer,
            players,
            own_hidden_cards,
            deck_size: self.deck.len(),
            hidden_drawn,
            current_player,
            phase,
        };
        proof {
            assert(observe(self@, viewer).players.take(self.players.len() as int) =~= observe(self@, viewer).players);
            assert(observation@.players =~= observe(self@, viewer).players);
            if self.wf() {
                lemma_observation_ok(self@, viewer);
            }
        }
        Ok(observation)
    }
}

pub proof fn lemma_dealt_before_monotone(o: ObservationModel, j: nat, m: nat)
    requires
        j <= m,
    ensures
        dealt_before(o, j) <= dealt_before(o, m),
    decreases m,
{
    if j < m {
        lemma_dealt_before_monotone(o, j, (m - 1) as nat);
    }
}

impl GameState {
    /// A full state consistent with `observation`: the cards the viewer
    /// cannot see are shuffled by a generator seeded with `seed` and dealt to
    /// the other players and the deck. `InvalidPlayer` when the viewer is no
    /// seat of the observation, `InvalidInfluence` when the visible cards are
    /// not all in the court deck or too few cards remain unseen.
    #[verifier::loop_isolation(false)]
    pub fn determinize(observation: &Observation, seed: u64) -> (r: Result<GameState, GameError>)
        ensures
            observation.viewer >= observation.players.len() ==> (r matches Err(e) && e == GameError::InvalidPlayer),
            observation.viewer < observation.players.len() ==> match unseen_cards(observation@) {
                None => (r matches Err(e) && e == GameError::InvalidInfluence),
                Some(unseen) => (r is Ok <==> enough_unseen(observation@, unseen))
                    && (r matches Err(e) ==> e == GameError::InvalidInfluence)
                    && (r matches Ok(d) ==> d@ == determinized(observation@, seeded_shuffle(seed, unseen)))
                    && (r matches Ok(d) ==> exists|shuffled: Seq<Card>|
                        shuffled.to_multiset() == unseen.to_multiset()
                            && d@ == #[trigger] determinized(observation@, shuffled)),
            },
    {
        let ghost o = observation@;
        if observation.viewer >= observation.players.len() {
            return Err(GameError::InvalidPlayer);
        }
        let mut unknown = standard_deck();

        // The visible cards, in the order they are taken out of the court deck.
        let mut seen: Vec<Card> = Vec::new();
        let mut j: usize = 0;
        while j < observation.players.len()
            invariant
                0 <= j <= observation.players.len(),
                o == observation@,
                seen@ == all_revealed(o.players.take(j as int)),
            decreases observation.players.len() - j,
        {
            let revealed = &observation.players[j].revealed;
            let ghost before = seen@;
            let mut c: usize = 0;
            while c < revealed.len()
                invariant
                    0 <= c <= revealed.len(),
                    seen@ == before + revealed@.take(c as int),
                decreases revealed.len() - c,
            {
                seen.push(revealed[c]);
                assert(before + revealed@.take(c + 1) =~= (before + revealed@.take(c as int)).push(revealed@[c as int]));
                c = c + 1;
            }
            proof {
                assert(revealed@.take(c as int) =~= revealed@);
                let t = o.players.take(j + 1);
                assert(t.drop_last() =~= o.players.take(j as int));
                assert(t.last() == o.players[j as int]);
                assert(o.players[j as int].revealed == revealed@);
            }
            j = j + 1;
        }
        assert(o.players.take(j as int) =~= o.players);
        let ghost revealed_all = seen@;
        let mut c: usize = 0;
        while c < observation.own_hidden_cards.len()
            invariant
                0 <= c <= observation.own_hidden_cards.len(),
                o == observation@,
                seen@ == revealed_all + observation.own_hidden_cards@.take(c as int),
            decreases observation.own_hidden_cards.len() - c,
        {
            seen.push(observation.own_hidden_cards[c]);
            assert(revealed_all + observation.own_hidden_cards@.take(c + 1)
                =~= (revealed_all + observation.own_hidden_cards@.take(c as int)).push(observation.own_hidden_cards@[c as int]));
            c = c + 1;
        }
        assert(observation.own_hidden_cards@.take(c as int) =~= observation.own_hidden_cards@);
        let ghost before_drawn = seen@;
        let shown = observation.phase.drawn();
        let mut c: usize = 0;
        while c < shown.len()
            invariant
                0 <= c <= shown.len(),
                seen@ == before_drawn + shown@.take(c as int),
            decreases shown.len() - c,
        {
            seen.push(shown[c]);
            assert(before_drawn + shown@.take(c + 1) =~= (before_drawn + shown@.take(c as int)).push(shown@[c as int]));
            c = c + 1;
        }
        assert(shown@.take(c as int) =~= shown@);
        let ghost keep = seen@;
        assert(keep == all_revealed(o.players) + o.own_hidden_cards + drawn_cards(o.phase));

        let mut k: usize = 0;
        assert(keep.skip(0) =~= keep);
        while k < seen.len()
            invariant
                0 <= k <= seen.len(),
                seen@ == keep,
                unseen_cards(o) == remove_all(unknown@, keep.skip(k as int)),
            decreases seen.len() - k,
        {
            let ghost before = unknown@;
            let removed = crate::cards::remove_one(&mut unknown, seen[k]);
            proof {
                assert(keep.skip(k as int)[0] == keep[k as int]);
                assert(keep.skip(k as int).drop_first() =~= keep.skip(k + 1));
            }
            if removed.is_none() {
                assert(remove_all(before, keep.skip(k as int)) is None);
                return Err(GameError::InvalidInfluence);
            }
            k = k + 1;
        }
        assert(keep.skip(k as int) =~= Seq::<Card>::empty());
        let ghost unseen = unknown@;
        assert(unseen_cards(o) == Some(unseen));

        let rng = shuffle_seeded(&mut unknown, seed);
        proof {
            vstd::seq_lib::to_multiset_len(unknown@);
            vstd::seq_lib::to_multiset_len(unseen);
        }
        Self::deal_unseen(observation, unknown, rng)
    }

    /// A full state consistent with `observation`, the cards the viewer
    /// cannot see coming in the order of `shuffled`: the viewer keeps their
    /// face-down cards, every other player takes as many cards off the top
    /// (the end) as they hold face down, the deck takes the next ones and the
    /// drawn cards hidden from the viewer the ones after; face-up cards,
    /// coins and phase are as observed, and `rng` is the game's generator.
    /// `InvalidPlayer` when the viewer is no seat of the observation,
    /// `InvalidInfluence` when `shuffled` holds too few cards.
    #[verifier::loop_isolation(false)]
    pub fn deal_unseen(observation: &Observation, shuffled: Vec<Card>, rng: StdRng) -> (r: Result<GameState, GameError>)
        ensures
            observation.viewer >= observation.players.len() ==> (r matches Err(e) && e == GameError::InvalidPlayer),
            observation.viewer < observation.players.len() ==> (r is Ok <==> dealt_before(observation@, observation@.players.len())
                + observation.deck_size + observation.hidden_drawn <= shuffled@.len()),
            observation.viewer < observation.players.len() ==> (r matches Err(e) ==> e == GameError::InvalidInfluence),
            r matches Ok(d) ==> d@ == determinized(observation@, shuffled@) && d.rng == rng,
    {
        let ghost o = observation@;
        if observation.viewer >= observation.players.len() {
            return Err(GameError::InvalidPlayer);
        }
        let mut unknown = shuffled;
        let ghost shuffled = unknown@;
        let ghost goal = determinized(o, shuffled);
        let n = observation.players.len();
        let mut players: Vec<PlayerState> = Vec::new();
        let mut j: usize = 0;
        while j < n
            invariant
                0 <= j <= n,
                n == observation.players.len(),
                o == observation@,
                o.viewer < n,
                goal == determinized(o, shuffled),
                dealt_before(o, j as nat) <= shuffled.len(),
                unknown@ == shuffled.take(shuffled.len() - dealt_before(o, j as nat)),
                players@.len() == j,
                players_model(players@) == goal.players.take(j as int),
            decreases n - j,
        {
            let observed = &observation.players[j];
            let mut influence: Vec<InfluenceCard> = Vec::new();
            let ghost d0 = dealt_before(o, j as nat);
            if j == observation.viewer {
                let mut c: usize = 0;
                while c < observation.own_hidden_cards.len()
                    invariant
                        0 <= c <= observation.own_hidden_cards.len(),
                        influence@ == face_down(observation.own_hidden_cards@.take(c as int)),
                    decreases observation.own_hidden_cards.len() - c,
                {
                    influence.push(InfluenceCard { card: observation.own_hidden_cards[c], revealed: false });
                    assert(influence@ =~= face_down(observation.own_hidden_cards@.take(c + 1)));
                    c = c + 1;
                }
                assert(observation.own_hidden_cards@.take(c as int) =~= observation.own_hidden_cards@);
            } else {
                let mut c: usize = 0;
                while c < observed.hidden_influence
                    invariant
                        0 <= c <= observed.hidden_influence,
                        d0 + c <= shuffled.len(),
                        unknown@ == shuffled.take(shuffled.len() - d0 - c),
                        influence@ == face_down(popped(shuffled, d0, c as nat)),
                        o == observation@,
                        o.viewer < n,
                        j < n,
                        j != o.viewer,
                        observed@ == o.players[j as int],
                        dealt_before(o, (j + 1) as nat) == d0 + observed.hidden_influence,
                    decreases observed.hidden_influence - c,
                {
                    match unknown.pop() {
                        Some(card) => {
                            influence.push(InfluenceCard { card, revealed: false });
                            assert(influence@ =~= face_down(popped(shuffled, d0, (c + 1) as nat)));
                            assert(unknown@ =~= shuffled.take(shuffled.len() - d0 - c - 1));
                        },
                        None => {
                            proof {
                                lemma_dealt_before_monotone(o, (j + 1) as nat, o.players.len());
                            }
                            return Err(GameError::InvalidInfluence);
                        },
                    }
                    c = c + 1;
                }
            }
            let ghost hidden_part = influence@;
            let mut c: usize = 0;
            while c < observed.revealed.len()
                invariant
                    0 <= c <= observed.revealed.len(),
                    influence@ == hidden_part + face_up(observed.revealed@.take(c as int)),
                decreases observed.revealed.len() - c,
            {
                influence.push(InfluenceCard { card: observed.revealed[c], revealed: true });
                assert(influence@ =~= hidden_part + face_up(observed.revealed@.take(c + 1)));
                c = c + 1;
            }
            assert(observed.revealed@.take(c as int) =~= observed.revealed@);
            let ghost before = players@;
            players.push(PlayerState { coins: observed.coins, influence });
            proof {
                assert(players@[j as int]@ == goal.players[j as int]);
                assert(players_model(players@) =~= players_model(before).push(players@[j as int]@));
                assert(goal.players.take(j + 1) =~= goal.players.take(j as int).push(goal.players[j as int]));
            }
            j = j + 1;
        }
        let ghost dealt = dealt_before(o, n as nat);
        let mut deck: Vec<Card> = Vec::new();
        let mut c: usize = 0;
        while c < observation.deck_size
            invariant
                0 <= c <= observation.deck_size,
                o == observation@,
                dealt + c <= shuffled.len(),
                dealt == dealt_before(o, o.players.len()),
                unknown@ == shuffled.take(shuffled.len() - dealt - c),
                deck@ == popped(shuffled, dealt, c as nat),
            decreases observation.deck_size - c,
        {
            match unknown.pop() {
                Some(card) => {
                    deck.push(card);
                    assert(deck@ =~= popped(shuffled, dealt, (c + 1) as nat));
                    assert(unknown@ =~= shuffled.take(shuffled.len() - dealt - c - 1));
                },
                None => {
                    return Err(GameError::InvalidInfluence);
                },
            }
            c = c + 1;
        }
        let ghost used: nat = (dealt + observation.deck_size) as nat;
        let mut extra: Vec<Card> = Vec::new();
        let mut c: usize = 0;
        while c < observation.hidden_drawn
            invariant
                0 <= c <= observation.hidden_drawn,
                o == observation@,
                used + c <= shuffled.len(),
                used == dealt_before(o, o.players.len()) + o.deck_size,
                unknown@ == shuffled.take(shuffled.len() - used - c),
                extra@ == popped(shuffled, used, c as nat),
            decreases observation.hidden_drawn - c,
        {
            match unknown.pop() {
                Some(card) => {
                    extra.push(card);
                    assert(extra@ =~= popped(shuffled, used, (c + 1) as nat));
                    assert(unknown@ =~= shuffled.take(shuffled.len() - used - c - 1));
                },
                None => {
                    return Err(GameError::InvalidInfluence);
                },
            }
            c = c + 1;
        }
        let phase = observation.phase.with_drawn_cards(&extra);
        let state = GameState { players, deck, phase, rng };
        proof {
            assert(goal.players.take(n as int) =~= goal.players);
            assert(state@ == goal);
        }
        Ok(state)
    }
}

/// The observed players as players holding only their coins.
pub open spec fn observed_coins(o: ObservationModel) -> Seq<PlayerModel> {
    o.players.map_values(|p: ObservedPlayerModel| PlayerModel { coins: p.coins, influence: seq![] })
}

/// An observation every determinization of which the rules can run on:
/// one to 64 seats including the viewer's, coins that cannot overflow, at
/// most 64 influence cards a player, a phase naming seats at the table,
/// hidden drawn cards only while an exchange is under way, and two cards
/// to draw while play goes on.
pub open spec fn observation_ok(o: ObservationModel) -> bool {
    &&& 1 <= o.players.len() <= 64
    &&& o.viewer < o.players.len()
    &&& forall|j: int| 0 <= j < o.players.len() ==> (#[trigger] o.players[j]).coins <= 250
        && o.players[j].hidden_influence + o.players[j].revealed.len() <= 64
    &&& o.own_hidden_cards.len() + o.players[o.viewer as int].revealed.len() <= 64
    &&& phase_ok(o.players.len(), o.phase)
    &&& pending_ok(observed_coins(o), o.phase)
    &&& o.hidden_drawn > 0 ==> exchange_pending(o.phase)
    &&& !(o.phase is Terminal) ==> o.deck_size + drawn_cards(o.phase).len() + o.hidden_drawn >= 2
}

/// Adding drawn cards changes nothing but the drawn cards.
pub proof fn lemma_with_drawn(phase: PhaseModel, cards: Seq<Card>, n: nat, players: Seq<PlayerModel>)
    ensures
        drawn_cards(with_drawn(phase, cards)) == if exchange_pending(phase) {
            drawn_cards(phase) + cards
        } else {
            drawn_cards(phase)
        },
        phase_ok(n, with_drawn(phase, cards)) == phase_ok(n, phase),
        pending_ok(players, with_drawn(phase, cards)) == pending_ok(players, phase),
        (with_drawn(phase, cards) is Terminal) == (phase is Terminal),
        cards.len() == 0 ==> with_drawn(phase, cards) == phase,
    decreases phase,
{
    match phase {
        PhaseModel::AwaitingInfluenceLoss { next, .. } => {
            lemma_with_drawn(*next, cards, n, players);
        },
        PhaseModel::AwaitingExchangeReturn { drawn, .. } => {
            if cards.len() == 0 {
                assert(drawn + cards =~= drawn);
            }
        },
        _ => {},
    }
}

/// Hiding drawn cards changes nothing but the drawn cards: either the
/// viewer sees them all or sees none and is told how many there are.
pub proof fn lemma_masked_phase(phase: PhaseModel, viewer: usize, n: nat, players: Seq<PlayerModel>)
    ensures
        phase_ok(n, masked_phase(phase, viewer)) == phase_ok(n, phase),
        pending_ok(players, masked_phase(phase, viewer)) == pending_ok(players, phase),
        (masked_phase(phase, viewer) is Terminal) == (phase is Terminal),
        exchange_pending(masked_phase(phase, viewer)) == exchange_pending(phase),
        hidden_drawn_count(phase, viewer) > 0 ==> exchange_pending(phase),
        (drawn_cards(masked_phase(phase, viewer)) == drawn_cards(phase) && hidden_drawn_count(phase, viewer) == 0)
            || (drawn_cards(masked_phase(phase, viewer)).len() == 0 && hidden_drawn_count(phase, viewer)
            == drawn_cards(phase).len()),
    decreases phase,
{
    match phase {
        PhaseModel::AwaitingInfluenceLoss { next, .. } => {
            lemma_masked_phase(*next, viewer, n, players);
        },
        _ => {},
    }
}

/// Hiding again the drawn cards a determinization dealt gives back what
/// the viewer saw, with as many hidden cards.
pub proof fn lemma_mask_refill(phase: PhaseModel, viewer: usize, cards: Seq<Card>)
    requires
        cards.len() == hidden_drawn_count(phase, viewer),
    ensures
        masked_phase(with_drawn(masked_phase(phase, viewer), cards), viewer) == masked_phase(phase, viewer),
        hidden_drawn_count(with_drawn(masked_phase(phase, viewer), cards), viewer) == cards.len(),
    decreases phase,
{
    match phase {
        PhaseModel::AwaitingInfluenceLoss { next, .. } => {
            lemma_mask_refill(*next, viewer, cards);
        },
        PhaseModel::AwaitingExchangeReturn { player, drawn } => {
            if player == viewer {
                assert(drawn + cards =~= drawn);
            }
        },
        _ => {},
    }
}

/// Every determinization of a sound observation is well formed.
pub proof fn lemma_determinized_wf(o: ObservationModel, shuffled: Seq<Card>)
    requires
        observation_ok(o),
    ensures
        wf(determinized(o, shuffled)),
{
    let d = determinized(o, shuffled);
    let extra = popped(shuffled, (dealt_before(o, o.players.len()) + o.deck_size) as nat, o.hidden_drawn as nat);
    assert forall|j: int| 0 <= j < d.players.len() implies (#[trigger] d.players[j]).coins <= 250
        && d.players[j].influence.len() <= 64 by {
        assert(o.players[j].coins <= 250);
    }
    lemma_with_drawn(o.phase, extra, o.players.len(), observed_coins(o));
    lemma_with_drawn(o.phase, extra, o.players.len(), d.players);
    crate::invariants::lemma_pending_ok_same_coins(observed_coins(o), d.players, o.phase);
}

/// A move some full state consistent with the observation allows its
/// decision-maker.
pub open spec fn plausible_move(o: ObservationModel, mv: crate::state::MoveModel) -> bool {
    exists|shuffled: Seq<Card>| #[trigger] consistent_deal(o, shuffled) && {
        let d = determinized(o, shuffled);
        active_player(d) matches Some(p) && legal_moves(d, p).contains(mv)
    }
}

/// Every full state consistent with the observation can be built, and in
/// each of them some player is awaited and has a legal move.
pub open spec fn always_playable(o: ObservationModel) -> bool {
    &&& unseen_cards(o) matches Some(unseen) && enough_unseen(o, unseen)
    &&& forall|shuffled: Seq<Card>| #[trigger] consistent_deal(o, shuffled) ==> {
        let d = determinized(o, shuffled);
        active_player(d) matches Some(p) && legal_moves(d, p).len() > 0
    }
}

/// `shuffled` orders exactly the cards the viewer cannot see, and they suffice.
pub open spec fn consistent_deal(o: ObservationModel, shuffled: Seq<Card>) -> bool {
    &&& unseen_cards(o) matches Some(unseen)
    &&& shuffled.to_multiset() == unseen.to_multiset()
    &&& enough_unseen(o, unseen)
}

/// What a player sees of a well-formed game is a sound observation.
pub proof fn lemma_observation_ok(g: GameModel, viewer: usize)
    requires
        wf(g),
        viewer < g.players.len(),
        g.deck.len() <= usize::MAX,
        hidden_drawn_count(g.phase, viewer) <= usize::MAX,
    ensures
        observation_ok(observe(g, viewer)),
{
    let o = observe(g, viewer);
    assert(o.players.len() == g.players.len());
    lemma_masked_phase(g.phase, viewer, g.players.len(), g.players);
    lemma_masked_phase(g.phase, viewer, g.players.len(), observed_coins(o));
    assert forall|j: int| 0 <= j < o.players.len() implies (#[trigger] o.players[j]).coins <= 250
        && o.players[j].hidden_influence + o.players[j].revealed.len() <= 64 by {
        assert(g.players[j].coins <= 250 && g.players[j].influence.len() <= 64);
        crate::rules::lemma_hidden_count_is_len(g.players[j].influence);
    }
    crate::rules::lemma_hidden_count_is_len(g.players[viewer as int].influence);
    assert(g.players[viewer as int].influence.len() <= 64);
    assert forall|i: int| 0 <= i < g.players.len() implies g.players[i].coins == observed_coins(o)[i].coins by {}
    crate::invariants::lemma_pending_ok_same_coins(g.players, observed_coins(o), g.phase);
}

} // verus!

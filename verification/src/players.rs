//! Queries on players, influence and declared actions.
use vstd::prelude::*;

use crate::cards::Card;
use crate::rules::{
    hidden_cards_of, hidden_count_of, lemma_hidden_count_is_len, revealed_cards_of, spec_claim,
    spec_target,
};
use crate::state::{ActionKind, InfluenceCard, PlayerId, PlayerState};

verus! {

pub proof fn lemma_take_last<A>(s: Seq<A>, i: int)
    requires
        0 <= i < s.len(),
    ensures
        s.take(i + 1).drop_last() == s.take(i),
        s.take(i + 1).last() == s[i],
{
    assert(s.take(i + 1).drop_last() =~= s.take(i));
}

impl PlayerState {
    /// A player is alive while some influence card is face down.
    pub fn is_alive(&self) -> (alive: bool)
        ensures
            alive == self@.alive(),
    {
        self.hidden_count() > 0
    }

    /// How many influence cards are still face down.
    pub fn hidden_count(&self) -> (count: usize)
        ensures
            count == hidden_count_of(self.influence@),
            count <= self.influence@.len(),
    {
        let mut count: usize = 0;
        let mut i: usize = 0;
        while i < self.influence.len()
            invariant
                0 <= i <= self.influence.len(),
                count == hidden_count_of(self.influence@.take(i as int)),
                count <= i,
            decreases self.influence.len() - i,
        {
            proof {
                lemma_take_last(self.influence@, i as int);
            }
            if !self.influence[i].revealed {
                count = count + 1;
            }
            i = i + 1;
        }
        assert(self.influence@.take(i as int) =~= self.influence@);
        count
    }

    /// The face-up cards, in seat order.
    pub fn revealed_cards(&self) -> (cards: Vec<Card>)
        ensures
            cards@ == revealed_cards_of(self.influence@),
    {
        let mut cards: Vec<Card> = Vec::new();
        let mut i: usize = 0;
        while i < self.influence.len()
            invariant
                0 <= i <= self.influence.len(),
                cards@ == revealed_cards_of(self.influence@.take(i as int)),
            decreases self.influence.len() - i,
        {
            proof {
                lemma_take_last(self.influence@, i as int);
            }
            if self.influence[i].revealed {
                cards.push(self.influence[i].card);
            }
            i = i + 1;
        }
        assert(self.influence@.take(i as int) =~= self.influence@);
        cards
    }

    /// The face-down cards, in seat order.
    pub fn hidden_cards(&self) -> (cards: Vec<Card>)
        ensures
            cards@ == hidden_cards_of(self.influence@),
            cards@.len() == hidden_count_of(self.influence@),
    {
        let mut cards: Vec<Card> = Vec::new();
        let mut i: usize = 0;
        while i < self.influence.len()
            invariant
                0 <= i <= self.influence.len(),
                cards@ == hidden_cards_of(self.influence@.take(i as int)),
            decreases self.influence.len() - i,
        {
            proof {
                lemma_take_last(self.influence@, i as int);
            }
            if !self.influence[i].revealed {
                cards.push(self.influence[i].card);
            }
            i = i + 1;
        }
        assert(self.influence@.take(i as int) =~= self.influence@);
        proof {
            lemma_hidden_count_is_len(self.influence@);
        }
        cards
    }

    /// Whether a copy of `card` is among the face-down cards.
    pub fn has_hidden_card(&self, card: Card) -> (has: bool)
        ensures
            has == self@.has_hidden(card),
    {
        let mut i: usize = 0;
        while i < self.influence.len()
            invariant
                0 <= i <= self.influence.len(),
                forall|j: int| 0 <= j < i ==> !(!self.influence@[j].revealed && self.influence@[j].card == card),
            decreases self.influence.len() - i,
        {
            if !self.influence[i].revealed && self.influence[i].card == card {
                return true;
            }
            i = i + 1;
        }
        false
    }
}

impl ActionKind {
    /// The character this action claims to hold, if any.
    pub fn claim(self) -> (claim: Option<Card>)
        ensures
            claim == spec_claim(self),
    {
        match self {
            ActionKind::ForeignAid => None,
            ActionKind::Tax => Some(Card::Duke),
            ActionKind::Assassinate { .. } => Some(Card::Assassin),
            ActionKind::Steal { .. } => Some(Card::Captain),
            ActionKind::Exchange => Some(Card::Ambassador),
        }
    }

    /// The player this action is aimed at, if any.
    pub fn target(self) -> (target: Option<PlayerId>)
        ensures
            target == spec_target(self),
    {
        match self {
            ActionKind::Assassinate { target } => Some(target),
            ActionKind::Steal { target } => Some(target),
            ActionKind::ForeignAid | ActionKind::Tax | ActionKind::Exchange => None,
        }
    }
}

} // verus!

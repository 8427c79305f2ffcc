//! The five Coup characters and the fifteen-card court deck.
use vstd::prelude::*;

verus! {

/// One influence card of the court deck.
#[derive(Debug, Clone, Copy, PartialEq, Eq, Hash, Structural)]
pub enum Card {
    Duke,
    Assassin,
    Captain,
    Ambassador,
    Contessa,
}

/// The position of a card in the court order; cards are kept sorted by it.
pub open spec fn card_rank(card: Card) -> nat {
    match card {
        Card::Duke => 0,
        Card::Assassin => 1,
        Card::Captain => 2,
        Card::Ambassador => 3,
        Card::Contessa => 4,
    }
}

impl Card {
    /// The position of this card in the court order (Duke first, Contessa last).
    pub fn rank(self) -> (r: u8)
        ensures
            r == card_rank(self),
    {
        match self {
            Card::Duke => 0,
            Card::Assassin => 1,
            Card::Captain => 2,
            Card::Ambassador => 3,
            Card::Contessa => 4,
        }
    }
}

/// The court deck: three copies of each of the five characters.
pub open spec fn spec_standard_deck() -> Seq<Card> {
    seq![
        Card::Duke, Card::Duke, Card::Duke,
        Card::Assassin, Card::Assassin, Card::Assassin,
        Card::Captain, Card::Captain, Card::Captain,
        Card::Ambassador, Card::Ambassador, Card::Ambassador,
        Card::Contessa, Card::Contessa, Card::Contessa,
    ]
}

/// Builds the fifteen-card court deck, grouped by character.
pub fn standard_deck() -> (deck: Vec<Card>)
    ensures
        deck@ == spec_standard_deck(),
{
    let mut deck: Vec<Card> = Vec::with_capacity(15);
    let order = [Card::Duke, Card::Assassin, Card::Captain, Card::Ambassador, Card::Contessa];
    let mut i: usize = 0;
    while i < 5
        invariant
            0 <= i <= 5,
            order@ == seq![Card::Duke, Card::Assassin, Card::Captain, Card::Ambassador, Card::Contessa],
            deck@ == spec_standard_deck().take(3 * i as int),
        decreases 5 - i,
    {
        let card = order[i];
        deck.push(card);
        deck.push(card);
        deck.push(card);
        assert(deck@ =~= spec_standard_deck().take(3 * (i + 1) as int));
        i = i + 1;
    }
    assert(deck@ =~= spec_standard_deck());
    deck
}

/// The index of the first occurrence of `card` in `cards` (or `cards.len()`).
pub open spec fn first_index(cards: Seq<Card>, card: Card) -> int
    decreases cards.len(),
{
    if cards.len() == 0 {
        0
    } else if cards[0] == card {
        0
    } else {
        1 + first_index(cards.drop_first(), card)
    }
}

pub proof fn lemma_first_index(cards: Seq<Card>, card: Card)
    ensures
        0 <= first_index(cards, card) <= cards.len(),
        cards.contains(card) ==> first_index(cards, card) < cards.len() && cards[first_index(cards, card)] == card,
        forall|j: int| 0 <= j < first_index(cards, card) ==> cards[j] != card,
        !cards.contains(card) ==> first_index(cards, card) == cards.len(),
    decreases cards.len(),
{
    if cards.len() > 0 && cards[0] != card {
        lemma_first_index(cards.drop_first(), card);
        assert forall|j: int| 0 <= j < first_index(cards, card) implies cards[j] != card by {
            if j > 0 {
                assert(cards[j] == cards.drop_first()[j - 1]);
            }
        }
        if cards.contains(card) {
            let k = choose|k: int| 0 <= k < cards.len() && cards[k] == card;
            assert(cards.drop_first()[k - 1] == card);
        }
        if cards.drop_first().contains(card) {
            let k = choose|k: int| 0 <= k < cards.drop_first().len() && cards.drop_first()[k] == card;
            assert(cards[k + 1] == card);
        }
    }
}

/// Removes the first copy of `target` from `cards`, returning it, or returns
/// `None` and leaves `cards` unchanged when there is none.
pub fn remove_one(cards: &mut Vec<Card>, target: Card) -> (removed: Option<Card>)
    ensures
        old(cards)@.contains(target) ==> removed == Some(target)
            && final(cards)@ == old(cards)@.remove(first_index(old(cards)@, target)),
        !old(cards)@.contains(target) ==> removed == None::<Card> && final(cards)@ == old(cards)@,
        final(cards)@.to_multiset() == old(cards)@.to_multiset().remove(target),
{
    let ghost before = cards@;
    proof {
        lemma_first_index(before, target);
        broadcast use vstd::seq_lib::group_to_multiset_ensures;
    }
    let mut i: usize = 0;
    while i < cards.len()
        invariant
            0 <= i <= cards.len(),
            cards@ == before,
            forall|j: int| 0 <= j < i ==> cards@[j] != target,
        ensures
            0 <= i <= cards.len(),
            cards@ == before,
            forall|j: int| 0 <= j < i ==> cards@[j] != target,
            i < cards.len() ==> cards@[i as int] == target,
        decreases cards.len() - i,
    {
        if cards[i] == target {
            break;
        }
        i = i + 1;
    }
    if i < cards.len() {
        proof {
            lemma_first_index(before, target);
            if first_index(before, target) < i {
                assert(before[first_index(before, target)] == target);
            }
            assert(before[i as int] == target);
            assert(before.contains(target));
            assert(first_index(before, target) == i as int);
            vstd::seq_lib::to_multiset_remove(before, i as int);
        }
        let removed = cards.remove(i);
        Some(removed)
    } else {
        proof {
            vstd::seq_lib::to_multiset_contains(before, target);
            assert(before.to_multiset().remove(target) =~= before.to_multiset());
        }
        None
    }
}

} // verus!

//! The hands an exchanger may keep: distinct rank-sorted selections of
//! cards.
use vstd::prelude::*;

use crate::cards::{card_rank, Card};
use crate::rules::{
    cards_at, choices_from, first_occurrences, insert_sorted, position_choices, sort_cards, spec_combinations,
};

verus! {

pub open spec fn hands_model(hands: Seq<Vec<Card>>) -> Seq<Seq<Card>> {
    hands.map_values(|h: Vec<Card>| h@)
}

/// How the enumeration of `combinations` goes: with the cards `current`
/// chosen so far, the positions from `start` on are tried in order, and
/// every full hand, sorted by rank, is added to `out` unless already there.
pub open spec fn combos_from(
    cards: Seq<Card>,
    k: nat,
    start: nat,
    current: Seq<Card>,
    out: Seq<Seq<Card>>,
) -> Seq<Seq<Card>>
    decreases cards.len() - start, 1nat,
    when start <= cards.len()
{
    if current.len() == k {
        let hand = sort_cards(current);
        if out.contains(hand) {
            out
        } else {
            out.push(hand)
        }
    } else {
        combos_scan(cards, k, start, current, out)
    }
}

pub open spec fn combos_scan(
    cards: Seq<Card>,
    k: nat,
    index: nat,
    current: Seq<Card>,
    out: Seq<Seq<Card>>,
) -> Seq<Seq<Card>>
    decreases cards.len() - index, 0nat,
    when index <= cards.len()
{
    if index >= cards.len() {
        out
    } else {
        let out1 = combos_from(cards, k, index + 1, current.push(cards[index as int]), out);
        combos_scan(cards, k, index + 1, current, out1)
    }
}


/// The index of the first card ranked above `card` (or the length).
pub open spec fn first_above(s: Seq<Card>, card: Card) -> int
    decreases s.len(),
{
    if s.len() == 0 {
        0
    } else if card_rank(card) < card_rank(s[0]) {
        0
    } else {
        1 + first_above(s.drop_first(), card)
    }
}

proof fn lemma_insert_sorted(s: Seq<Card>, card: Card)
    ensures
        0 <= first_above(s, card) <= s.len(),
        insert_sorted(s, card) == s.insert(first_above(s, card), card),
        forall|j: int| 0 <= j < first_above(s, card) ==> card_rank(s[j]) <= card_rank(card),
        first_above(s, card) < s.len() ==> card_rank(card) < card_rank(s[first_above(s, card)]),
    decreases s.len(),
{
    if s.len() > 0 && card_rank(card) >= card_rank(s[0]) {
        lemma_insert_sorted(s.drop_first(), card);
        assert(insert_sorted(s, card) =~= s.insert(first_above(s, card), card));
        assert forall|j: int| 0 <= j < first_above(s, card) implies card_rank(s[j]) <= card_rank(card) by {
            if j > 0 {
                assert(s[j] == s.drop_first()[j - 1]);
            }
        }
    } else if s.len() > 0 {
        assert(insert_sorted(s, card) =~= s.insert(0, card));
    } else {
        assert(insert_sorted(s, card) =~= s.insert(0, card));
    }
}

/// The cards sorted by rank, as a fresh vector.
pub fn sort_hand(cards: &Vec<Card>) -> (sorted: Vec<Card>)
    ensures
        sorted@ == sort_cards(cards@),
{
    let mut sorted: Vec<Card> = Vec::new();
    let mut i: usize = 0;
    while i < cards.len()
        invariant
            0 <= i <= cards.len(),
            sorted@ == sort_cards(cards@.take(i as int)),
            sorted@.len() == i,
        decreases cards.len() - i,
    {
        let card = cards[i];
        let mut j: usize = 0;
        while j < sorted.len()
            invariant
                0 <= j <= sorted.len(),
                forall|m: int| 0 <= m < j ==> card_rank(sorted@[m]) <= card_rank(card),
            ensures
                0 <= j <= sorted.len(),
                forall|m: int| 0 <= m < j ==> card_rank(sorted@[m]) <= card_rank(card),
                j < sorted.len() ==> card_rank(card) < card_rank(sorted@[j as int]),
            decreases sorted.len() - j,
        {
            if card.rank() < sorted[j].rank() {
                break;
            }
            j = j + 1;
        }
        proof {
            lemma_insert_sorted(sorted@, card);
            let f = first_above(sorted@, card);
            if f < j {
                assert(card_rank(card) < card_rank(sorted@[f]));
            }
            if j < f {
                assert(card_rank(sorted@[j as int]) <= card_rank(card));
            }
            assert(f == j);
            assert(cards@.take(i + 1).drop_last() =~= cards@.take(i as int));
        }
        sorted.insert(j, card);
        i = i + 1;
    }
    assert(cards@.take(i as int) =~= cards@);
    sorted
}

/// Whether `hand` is already among `hands`.
fn contains_hand(hands: &Vec<Vec<Card>>, hand: &Vec<Card>) -> (found: bool)
    ensures
        found == hands_model(hands@).contains(hand@),
{
    let mut i: usize = 0;
    while i < hands.len()
        invariant
            0 <= i <= hands.len(),
            forall|j: int| 0 <= j < i ==> hands@[j]@ != hand@,
        decreases hands.len() - i,
    {
        let other = &hands[i];
        let mut same = other.len() == hand.len();
        let mut j: usize = 0;
        while same && j < hand.len()
            invariant
                0 <= j <= hand.len(),
                same ==> other@.len() == hand@.len(),
                same ==> forall|m: int| 0 <= m < j ==> other@[m] == hand@[m],
                !same ==> other@ != hand@,
            decreases hand.len() - j,
        {
            if other[j] != hand[j] {
                same = false;
            }
            j = j + 1;
        }
        if same {
            assert(other@ =~= hand@);
            assert(hands_model(hands@)[i as int] == hand@);
            return true;
        }
        i = i + 1;
    }
    assert forall|j: int| 0 <= j < hands_model(hands@).len() implies hands_model(hands@)[j] != hand@ by {
        assert(hands_model(hands@)[j] == hands@[j]@);
    }
    false
}

fn combos_go(cards: &Vec<Card>, k: usize, start: usize, current: &mut Vec<Card>, out: &mut Vec<Vec<Card>>)
    requires
        start <= cards.len(),
    ensures
        final(current)@ == old(current)@,
        hands_model(final(out)@) == combos_from(cards@, k as nat, start as nat, old(current)@, hands_model(old(out)@)),
    decreases cards.len() - start,
{
    if current.len() == k {
        let hand = sort_hand(current);
        if !contains_hand(out, &hand) {
            out.push(hand);
            assert(hands_model(out@) =~= hands_model(old(out)@).push(sort_cards(current@)));
        }
        return;
    }
    let ghost cur0 = current@;
    let ghost out0 = hands_model(out@);
    let mut index: usize = start;
    while index < cards.len()
        invariant
            start <= index <= cards.len(),
            current@ == cur0,
            current@.len() != k,
            combos_scan(cards@, k as nat, start as nat, cur0, out0) == combos_scan(
                cards@,
                k as nat,
                index as nat,
                cur0,
                hands_model(out@),
            ),
        decreases cards.len() - index,
    {
        current.push(cards[index]);
        combos_go(cards, k, index + 1, current, out);
        current.pop();
        assert(current@ =~= cur0);
        index = index + 1;
    }
}

/// Every distinct hand of `keep_count` cards that can be kept from `cards`,
/// each sorted by rank, in the order their positions are first chosen.
pub fn combinations(cards: &Vec<Card>, keep_count: usize) -> (hands: Vec<Vec<Card>>)
    ensures
        hands_model(hands@) == spec_combinations(cards@, keep_count as nat),
{
    let mut out: Vec<Vec<Card>> = Vec::new();
    let mut current: Vec<Card> = Vec::new();
    assert(hands_model(out@) =~= Seq::<Seq<Card>>::empty());
    combos_go(cards, keep_count, 0, &mut current, &mut out);
    proof {
        lemma_combinations_enumerated(cards@, keep_count as nat);
    }
    out
}

proof fn lemma_insert_sorted_len(s: Seq<Card>, card: Card)
    ensures
        insert_sorted(s, card).len() == s.len() + 1,
    decreases s.len(),
{
    if s.len() > 0 && card_rank(card) >= card_rank(s[0]) {
        lemma_insert_sorted_len(s.drop_first(), card);
    }
}

pub proof fn lemma_sort_cards_len(s: Seq<Card>)
    ensures
        sort_cards(s).len() == s.len(),
    decreases s.len(),
{
    if s.len() > 0 {
        lemma_sort_cards_len(s.drop_last());
        lemma_insert_sorted_len(sort_cards(s.drop_last()), s.last());
    }
}

proof fn lemma_combos_from_len(cards: Seq<Card>, k: nat, start: nat, current: Seq<Card>, out: Seq<Seq<Card>>)
    requires
        start <= cards.len(),
        forall|i: int| 0 <= i < out.len() ==> (#[trigger] out[i]).len() == k,
    ensures
        forall|i: int| 0 <= i < combos_from(cards, k, start, current, out).len()
            ==> (#[trigger] combos_from(cards, k, start, current, out)[i]).len() == k,
    decreases cards.len() - start, 1nat,
{
    let r = combos_from(cards, k, start, current, out);
    if current.len() == k {
        lemma_sort_cards_len(current);
        let hand = sort_cards(current);
        if out.contains(hand) {
            assert(r == out);
        } else {
            assert(r == out.push(hand));
            assert forall|i: int| 0 <= i < r.len() implies (#[trigger] r[i]).len() == k by {
                if i < out.len() {
                    assert(r[i] == out[i]);
                }
            }
        }
    } else {
        assert(r == combos_scan(cards, k, start, current, out));
        lemma_combos_scan_len(cards, k, start, current, out);
    }
}

proof fn lemma_combos_scan_len(cards: Seq<Card>, k: nat, index: nat, current: Seq<Card>, out: Seq<Seq<Card>>)
    requires
        index <= cards.len(),
        forall|i: int| 0 <= i < out.len() ==> (#[trigger] out[i]).len() == k,
    ensures
        forall|i: int| 0 <= i < combos_scan(cards, k, index, current, out).len()
            ==> (#[trigger] combos_scan(cards, k, index, current, out)[i]).len() == k,
    decreases cards.len() - index, 0nat,
{
    if index < cards.len() {
        let out1 = combos_from(cards, k, index + 1, current.push(cards[index as int]), out);
        lemma_combos_from_len(cards, k, index + 1, current.push(cards[index as int]), out);
        lemma_combos_scan_len(cards, k, index + 1, current, out1);
        assert(combos_scan(cards, k, index, current, out) == combos_scan(cards, k, index + 1, current, out1));
    } else {
        assert(combos_scan(cards, k, index, current, out) == out);
    }
}

/// Every hand offered has exactly `k` cards.
pub proof fn lemma_combinations_len(cards: Seq<Card>, k: nat)
    ensures
        forall|i: int| 0 <= i < spec_combinations(cards, k).len() ==> (#[trigger] spec_combinations(cards, k)[i]).len() == k,
{
    lemma_combos_from_len(cards, k, 0, seq![], seq![]);
    lemma_combinations_enumerated(cards, k);
}

/// Every card of `a` occurs in `b` at least as often.
pub open spec fn within(a: Seq<Card>, b: Seq<Card>) -> bool {
    forall|x: Card| #[trigger] a.to_multiset().count(x) <= b.to_multiset().count(x)
}

proof fn lemma_sort_cards_multiset(s: Seq<Card>)
    ensures
        sort_cards(s).to_multiset() == s.to_multiset(),
    decreases s.len(),
{
    broadcast use vstd::seq_lib::group_to_multiset_ensures;
    if s.len() > 0 {
        lemma_sort_cards_multiset(s.drop_last());
        lemma_insert_sorted(sort_cards(s.drop_last()), s.last());
        assert(s =~= s.drop_last().push(s.last()));
    }
}

proof fn lemma_combos_from_within(cards: Seq<Card>, k: nat, start: nat, current: Seq<Card>, out: Seq<Seq<Card>>)
    requires
        start <= cards.len(),
        within(current, cards.take(start as int)),
        forall|i: int| 0 <= i < out.len() ==> within(#[trigger] out[i], cards),
    ensures
        forall|i: int| 0 <= i < combos_from(cards, k, start, current, out).len()
            ==> within(#[trigger] combos_from(cards, k, start, current, out)[i], cards),
    decreases cards.len() - start, 1nat,
{
    broadcast use vstd::seq_lib::group_to_multiset_ensures;
    let r = combos_from(cards, k, start, current, out);
    if current.len() == k {
        let hand = sort_cards(current);
        lemma_sort_cards_multiset(current);
        assert(within(hand, cards)) by {
            assert forall|x: Card| #[trigger] hand.to_multiset().count(x) <= cards.to_multiset().count(x) by {
                lemma_take_within(cards, start, x);
            }
        }
        if out.contains(hand) {
            assert(r == out);
        } else {
            assert(r == out.push(hand));
            assert forall|i: int| 0 <= i < r.len() implies within(#[trigger] r[i], cards) by {
                if i < out.len() {
                    assert(r[i] == out[i]);
                }
            }
        }
    } else {
        assert(r == combos_scan(cards, k, start, current, out));
        lemma_combos_scan_within(cards, k, start, current, out);
    }
}

proof fn lemma_take_within(cards: Seq<Card>, n: nat, x: Card)
    requires
        n <= cards.len(),
    ensures
        cards.take(n as int).to_multiset().count(x) <= cards.to_multiset().count(x),
    decreases cards.len() - n,
{
    broadcast use vstd::seq_lib::group_to_multiset_ensures;
    if n < cards.len() {
        lemma_take_within(cards, n + 1, x);
        assert(cards.take(n as int + 1) =~= cards.take(n as int).push(cards[n as int]));
    } else {
        assert(cards.take(n as int) =~= cards);
    }
}

proof fn lemma_combos_scan_within(cards: Seq<Card>, k: nat, index: nat, current: Seq<Card>, out: Seq<Seq<Card>>)
    requires
        index <= cards.len(),
        within(current, cards.take(index as int)),
        forall|i: int| 0 <= i < out.len() ==> within(#[trigger] out[i], cards),
    ensures
        forall|i: int| 0 <= i < combos_scan(cards, k, index, current, out).len()
            ==> within(#[trigger] combos_scan(cards, k, index, current, out)[i], cards),
    decreases cards.len() - index, 0nat,
{
    broadcast use vstd::seq_lib::group_to_multiset_ensures;
    if index < cards.len() {
        let next = current.push(cards[index as int]);
        assert(cards.take(index as int + 1) =~= cards.take(index as int).push(cards[index as int]));
        assert(within(next, cards.take(index as int + 1))) by {
            assert forall|x: Card| #[trigger] next.to_multiset().count(x) <= cards.take(index as int + 1).to_multiset().count(x) by {
                assert(current.to_multiset().count(x) <= cards.take(index as int).to_multiset().count(x));
            }
        }
        assert(within(current, cards.take(index as int + 1))) by {
            assert forall|x: Card| #[trigger] current.to_multiset().count(x) <= cards.take(index as int + 1).to_multiset().count(x) by {
                assert(current.to_multiset().count(x) <= cards.take(index as int).to_multiset().count(x));
            }
        }
        let out1 = combos_from(cards, k, index + 1, next, out);
        lemma_combos_from_within(cards, k, index + 1, next, out);
        lemma_combos_scan_within(cards, k, index + 1, current, out1);
        assert(combos_scan(cards, k, index, current, out) == combos_scan(cards, k, index + 1, current, out1));
    }
}

/// Every hand offered is made of the given cards.
pub proof fn lemma_combinations_within(cards: Seq<Card>, k: nat)
    ensures
        forall|i: int| 0 <= i < spec_combinations(cards, k).len() ==> within(#[trigger] spec_combinations(cards, k)[i], cards),
{
    broadcast use vstd::seq_lib::group_to_multiset_ensures;
    assert(cards.take(0) =~= Seq::<Card>::empty());
    assert(within(Seq::<Card>::empty(), cards.take(0))) by {
        assert(Seq::<Card>::empty().to_multiset() =~= vstd::multiset::Multiset::<Card>::empty());
    }
    lemma_combos_from_within(cards, k, 0, seq![], seq![]);
    lemma_combinations_enumerated(cards, k);
}

proof fn lemma_combos_from_grows(cards: Seq<Card>, k: nat, start: nat, current: Seq<Card>, out: Seq<Seq<Card>>)
    requires
        start <= cards.len(),
        current.len() <= k,
        out.len() > 0 || k - current.len() <= cards.len() - start,
    ensures
        combos_from(cards, k, start, current, out).len() > 0,
    decreases cards.len() - start, 1nat,
{
    if current.len() == k {
        let hand = sort_cards(current);
        if out.contains(hand) {
            assert(out.len() > 0);
        }
    } else {
        lemma_combos_scan_grows(cards, k, start, current, out);
    }
}

proof fn lemma_combos_scan_grows(cards: Seq<Card>, k: nat, index: nat, current: Seq<Card>, out: Seq<Seq<Card>>)
    requires
        index <= cards.len(),
        current.len() < k,
        out.len() > 0 || k - current.len() <= cards.len() - index,
    ensures
        combos_scan(cards, k, index, current, out).len() > 0,
    decreases cards.len() - index, 0nat,
{
    if index < cards.len() {
        let next = current.push(cards[index as int]);
        let out1 = combos_from(cards, k, index + 1, next, out);
        lemma_combos_from_grows(cards, k, index + 1, next, out);
        lemma_combos_scan_grows(cards, k, index + 1, current, out1);
        assert(combos_scan(cards, k, index, current, out) == combos_scan(cards, k, index + 1, current, out1));
    }
}

/// Some hand can always be kept when there are enough cards to choose from.
pub proof fn lemma_combinations_nonempty(cards: Seq<Card>, k: nat)
    requires
        k <= cards.len(),
    ensures
        spec_combinations(cards, k).len() > 0,
{
    lemma_combos_from_grows(cards, k, 0, seq![], seq![]);
    lemma_combinations_enumerated(cards, k);
}

// ---------------------------------------------------------------------------
// The enumeration lists exactly the hands of `spec_combinations`

/// `out` with `h` added unless already there.
spec fn add_new(out: Seq<Seq<Card>>, h: Seq<Card>) -> Seq<Seq<Card>> {
    if out.contains(h) {
        out
    } else {
        out.push(h)
    }
}

/// `out` with each of `hands` added in turn unless already there.
spec fn add_all(out: Seq<Seq<Card>>, hands: Seq<Seq<Card>>) -> Seq<Seq<Card>>
    decreases hands.len(),
{
    if hands.len() == 0 {
        out
    } else {
        add_all(add_new(out, hands[0]), hands.drop_first())
    }
}

/// The hands sorted from `current` followed by the cards at each choice.
spec fn hands_from(cards: Seq<Card>, current: Seq<Card>, choices: Seq<Seq<nat>>) -> Seq<Seq<Card>> {
    choices.map_values(|t: Seq<nat>| sort_cards(current + cards_at(cards, t)))
}

proof fn lemma_add_all_concat(out: Seq<Seq<Card>>, a: Seq<Seq<Card>>, b: Seq<Seq<Card>>)
    ensures
        add_all(out, a + b) == add_all(add_all(out, a), b),
    decreases a.len(),
{
    if a.len() == 0 {
        assert(a + b =~= b);
    } else {
        assert((a + b)[0] == a[0]);
        assert((a + b).drop_first() =~= a.drop_first() + b);
        lemma_add_all_concat(add_new(out, a[0]), a.drop_first(), b);
    }
}

proof fn lemma_first_occurrences(hands: Seq<Seq<Card>>)
    ensures
        first_occurrences(hands) == add_all(seq![], hands),
    decreases hands.len(),
{
    if hands.len() > 0 {
        let init = hands.drop_last();
        lemma_first_occurrences(init);
        assert(hands =~= init + seq![hands.last()]);
        lemma_add_all_concat(seq![], init, seq![hands.last()]);
        let single = seq![hands.last()];
        assert(single.drop_first() =~= Seq::<Seq<Card>>::empty());
        let before = add_all(seq![], init);
        assert(add_all(add_new(before, single[0]), single.drop_first()) == add_new(before, hands.last()));
        assert(add_all(before, single) == add_new(before, hands.last()));
        assert(hands.drop_last() == init);
    }
}

proof fn lemma_combos_from_direct(cards: Seq<Card>, k: nat, start: nat, current: Seq<Card>, out: Seq<Seq<Card>>)
    requires
        start <= cards.len(),
        current.len() <= k,
    ensures
        combos_from(cards, k, start, current, out) == add_all(
            out,
            hands_from(cards, current, position_choices(cards.len(), (k - current.len()) as nat, start)),
        ),
    decreases cards.len() - start, 1nat,
{
    if current.len() == k {
        let hs = hands_from(cards, current, position_choices(cards.len(), 0, start));
        assert(cards_at(cards, seq![]) =~= Seq::<Card>::empty());
        assert(current + cards_at(cards, seq![]) =~= current);
        assert(position_choices(cards.len(), 0, start) == seq![Seq::<nat>::empty()]);
        assert((k - current.len()) as nat == 0);
        assert(hs =~= seq![sort_cards(current)]);
        assert(hs.drop_first() =~= Seq::<Seq<Card>>::empty());
        assert(add_all(out, hs) == add_all(add_new(out, hs[0]), hs.drop_first()));
        assert(add_all(out, hs) == add_new(out, sort_cards(current)));
    } else {
        lemma_combos_scan_direct(cards, k, start, current, out);
    }
}

proof fn lemma_combos_scan_direct(cards: Seq<Card>, k: nat, index: nat, current: Seq<Card>, out: Seq<Seq<Card>>)
    requires
        index <= cards.len(),
        current.len() < k,
    ensures
        combos_scan(cards, k, index, current, out) == add_all(
            out,
            hands_from(cards, current, choices_from(cards.len(), (k - current.len()) as nat, index)),
        ),
    decreases cards.len() - index, 0nat,
{
    let n = cards.len();
    let r = (k - current.len()) as nat;
    if index >= n {
        assert(hands_from(cards, current, choices_from(n, r, index)) =~= Seq::<Seq<Card>>::empty());
    } else {
        let next = current.push(cards[index as int]);
        let inner = position_choices(n, (r - 1) as nat, index + 1);
        let first = inner.map_values(|t: Seq<nat>| seq![index] + t);
        let rest = choices_from(n, r, index + 1);
        let out1 = combos_from(cards, k, index + 1, next, out);
        lemma_combos_from_direct(cards, k, index + 1, next, out);
        assert((k - next.len()) as nat == (r - 1) as nat);
        assert(hands_from(cards, next, inner) =~= hands_from(cards, current, first)) by {
            assert forall|j: int| 0 <= j < inner.len() implies next + cards_at(cards, #[trigger] inner[j]) =~= current
                + cards_at(cards, first[j]) by {
                assert(first[j] == seq![index] + inner[j]);
            }
        }
        lemma_combos_scan_direct(cards, k, index + 1, current, out1);
        assert(choices_from(n, r, index) == first + rest);
        assert(hands_from(cards, current, first + rest) =~= hands_from(cards, current, first) + hands_from(cards, current, rest));
        lemma_add_all_concat(out, hands_from(cards, current, first), hands_from(cards, current, rest));
    }
}

/// The enumeration that `combinations` runs lists exactly the hands of
/// `spec_combinations`, in its order.
pub proof fn lemma_combinations_enumerated(cards: Seq<Card>, k: nat)
    ensures
        combos_from(cards, k, 0, seq![], seq![]) == spec_combinations(cards, k),
{
    lemma_combos_from_direct(cards, k, 0, seq![], seq![]);
    let choices = position_choices(cards.len(), k, 0);
    let hs = choices.map_values(|t: Seq<nat>| sort_cards(cards_at(cards, t)));
    assert(hands_from(cards, seq![], choices) =~= hs) by {
        assert forall|j: int| 0 <= j < choices.len() implies Seq::<Card>::empty() + cards_at(cards, #[trigger] choices[j])
            =~= cards_at(cards, choices[j]) by {}
    }
    lemma_first_occurrences(hs);
}

} // verus!

//! Categories that are told by how often values occur: pair, two pair,
//! three and four of a kind, and full house.
//!
//! These categories are reported with placeholder cards: what is found is
//! that the hand belongs to the category, not which of its cards show it.

use vstd::prelude::*;
use std::collections::HashMap;
use crate::card::Card;
use crate::hand::{
    count_of_value, frequency_map, lemma_count_at_most_len, lemma_count_positive,
    lemma_count_push, Hand,
};
use crate::valid_hands::ValidHands;

verus! {

/// Some value is held by exactly `n` cards.
pub open spec fn holds_exactly(cards: Seq<Card>, n: nat) -> bool {
    exists|value: nat| #[trigger] count_of_value(cards, value) == n
}

/// The category of `n` equal values, for `n` from 2 to 4, with placeholder
/// cards.
pub open spec fn kind_of(n: nat) -> Option<ValidHands> {
    let blank = Card::blank_card();
    if n == 2 {
        Some(ValidHands::Pair(blank, blank))
    } else if n == 3 {
        Some(ValidHands::ThreeOAK(blank, blank, blank))
    } else if n == 4 {
        Some(ValidHands::FourOAK(blank, blank, blank, blank))
    } else {
        None
    }
}

/// `n` of a kind: some value is held by exactly `n` cards, neither fewer nor
/// more. Four cards of one value are four of a kind, and by themselves
/// neither a pair nor three of a kind.
pub open spec fn n_of_a_kind(cards: Seq<Card>, n: nat) -> Option<ValidHands> {
    if holds_exactly(cards, n) {
        kind_of(n)
    } else {
        None
    }
}

/// Two different values are each held by at least two cards.
pub open spec fn holds_two_pairs(cards: Seq<Card>) -> bool {
    exists|a: nat, b: nat|
        a != b && #[trigger] count_of_value(cards, a) >= 2 && #[trigger] count_of_value(cards, b)
            >= 2
}

/// Two pair, with placeholder cards.
pub open spec fn two_pair(cards: Seq<Card>) -> Option<ValidHands> {
    let blank = Card::blank_card();
    if holds_two_pairs(cards) {
        Some(ValidHands::TwoPair(blank, blank, blank, blank))
    } else {
        None
    }
}

/// One value is held by at least three cards and a different value by at
/// least two.
pub open spec fn holds_full_house(cards: Seq<Card>) -> bool {
    exists|a: nat, b: nat|
        a != b && #[trigger] count_of_value(cards, a) >= 3 && #[trigger] count_of_value(cards, b)
            >= 2
}

/// Full house, with placeholder cards.
pub open spec fn full_house(cards: Seq<Card>) -> Option<ValidHands> {
    let blank = Card::blank_card();
    if holds_full_house(cards) {
        Some(ValidHands::FullHouse(blank, blank, blank, blank, blank))
    } else {
        None
    }
}

/// Two pair needs two different values: where at most one value is held by
/// two cards or more, however many cards hold it, there is no two pair.
pub proof fn lemma_one_value_is_no_two_pair(cards: Seq<Card>, value: nat)
    requires
        forall|other: nat| other != value ==> #[trigger] count_of_value(cards, other) < 2,
    ensures
        two_pair(cards) is None,
{
}

/// A full house is made of two different values: the cards that make its
/// three are none of the cards that make its two, and a hand with a full
/// house holds two pair.
pub proof fn lemma_full_house_has_two_values(cards: Seq<Card>)
    requires
        holds_full_house(cards),
    ensures
        holds_two_pairs(cards),
        cards.len() >= 5,
{
    let (a, b) = choose|a: nat, b: nat|
        a != b && #[trigger] count_of_value(cards, a) >= 3 && #[trigger] count_of_value(cards, b)
            >= 2;
    assert(count_of_value(cards, a) >= 2 && count_of_value(cards, b) >= 2);
    lemma_two_counts(cards, a, b);
}

/// The cards of two different values are different cards.
pub proof fn lemma_two_counts(cards: Seq<Card>, a: nat, b: nat)
    requires
        a != b,
    ensures
        count_of_value(cards, a) + count_of_value(cards, b) <= cards.len(),
    decreases cards.len(),
{
    if cards.len() > 0 {
        let front = cards.drop_last();
        lemma_two_counts(front, a, b);
        lemma_count_push(front, cards.last(), a);
        lemma_count_push(front, cards.last(), b);
        assert(cards =~= front.push(cards.last()));
    } else {
        lemma_count_at_most_len(cards, a);
        lemma_count_at_most_len(cards, b);
    }
}

/// How many cards of the hand have `value`, looked up in the hand's
/// frequency map.
fn held_count(counts: &HashMap<usize, usize>, value: usize, Ghost(cards): Ghost<Seq<Card>>) -> (count:
    usize)
    requires
        counts@ == frequency_map(cards),
        cards.len() <= usize::MAX,
    ensures
        count == count_of_value(cards, value as nat),
{
    broadcast use vstd::std_specs::hash::group_hash_axioms;

    proof {
        lemma_count_at_most_len(cards, value as nat);
    }
    match counts.get(&value) {
        Some(count) => *count,
        None => 0,
    }
}

/// The value of the first card whose value is other than `except` and is
/// held by at least `least` and at most `most` cards.
pub(crate) fn find_held(
    hand: &Hand,
    counts: &HashMap<usize, usize>,
    least: usize,
    most: usize,
    except: Option<usize>,
) -> (found: Option<usize>)
    requires
        counts@ == frequency_map(hand.cards@),
        least >= 1,
    ensures
        match found {
            Some(value) => {
                &&& least <= count_of_value(hand.cards@, value as nat) <= most
                &&& except != Some(value)
            },
            None => forall|value: nat|
                least <= #[trigger] count_of_value(hand.cards@, value) <= most ==> except == Some(
                    value as usize,
                ) && value <= usize::MAX,
        },
{
    let mut i: usize = 0;
    while i < hand.cards.len()
        invariant
            i <= hand.cards.len(),
            counts@ == frequency_map(hand.cards@),
            forall|j: int|
                0 <= j < i ==> {
                    let value = (#[trigger] hand.cards@[j]).value;
                    least <= count_of_value(hand.cards@, value as nat) <= most ==> except == Some(
                        value,
                    )
                },
        decreases hand.cards.len() - i,
    {
        let value = hand.cards[i].value;
        let count = held_count(counts, value, Ghost(hand.cards@));
        let excepted = match except {
            Some(other) => other == value,
            None => false,
        };
        if least <= count && count <= most && !excepted {
            return Some(value);
        }
        i += 1;
    }
    proof {
        assert forall|value: nat|
            least <= #[trigger] count_of_value(hand.cards@, value) <= most implies except == Some(
            value as usize,
        ) && value <= usize::MAX by {
            lemma_count_positive(hand.cards@, value);
            let j = choose|j: int|
                0 <= j < hand.cards@.len() && (#[trigger] hand.cards@[j]).value == value;
            assert(hand.cards@[j].value == value);
        }
    }
    None
}

} // verus!

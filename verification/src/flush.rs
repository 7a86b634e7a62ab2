//! Flushes: five cards of one suit.

use vstd::prelude::*;
use crate::card::Card;
use crate::hand::{cards_of_suit, in_suit};
use crate::sorting::{arranged, lemma_arranged_contains, lemma_arranged_sorted, SortBy};
use crate::suit::{suit_at, Suits};
use crate::valid_hands::ValidHands;

verus! {

/// The first suit, in the order of `suit_at` and from `position` on, of
/// which `cards` holds five cards or more.
pub open spec fn flush_suit_from(cards: Seq<Card>, position: int) -> Option<Suits>
    decreases 4 - position,
{
    if position < 0 || position >= 4 {
        None
    } else if cards_of_suit(cards, suit_at(position)).len() >= 5 {
        Some(suit_at(position))
    } else {
        flush_suit_from(cards, position + 1)
    }
}

/// The suit of the flush of `cards`: the first suit, in the order Spades,
/// Hearts, Clubs, Diamonds, of which `cards` holds five cards or more.
pub open spec fn flush_suit(cards: Seq<Card>) -> Option<Suits> {
    flush_suit_from(cards, 0)
}

/// The five highest cards of `suit`, highest first. Among cards of equal
/// value those that stand first in `cards` are taken first.
pub open spec fn top_five(cards: Seq<Card>, suit: Suits) -> Seq<Card> {
    arranged(SortBy::ValueDescending, cards_of_suit(cards, suit)).take(5)
}

/// The flush of `cards`: the five highest cards of the first suit that has
/// five cards or more.
pub open spec fn flush(cards: Seq<Card>) -> Option<ValidHands> {
    match flush_suit(cards) {
        Some(suit) => {
            let top = top_five(cards, suit);
            Some(ValidHands::Flush(top[0], top[1], top[2], top[3], top[4]))
        },
        None => None,
    }
}

/// The suit of a flush is one of the four suits, it has five cards or
/// more, and no suit before it has.
pub proof fn lemma_flush_suit(cards: Seq<Card>, position: int)
    requires
        0 <= position,
    ensures
        match flush_suit_from(cards, position) {
            Some(suit) => {
                &&& suit.is_set()
                &&& position <= suit.index()
                &&& cards_of_suit(cards, suit).len() >= 5
                &&& forall|before: int|
                    position <= before < suit.index() ==> cards_of_suit(
                        cards,
                        #[trigger] suit_at(before),
                    ).len() < 5
            },
            None => forall|other: int|
                position <= other < 4 ==> cards_of_suit(cards, #[trigger] suit_at(other)).len() < 5,
        },
    decreases 4 - position,
{
    if position < 4 && cards_of_suit(cards, suit_at(position)).len() < 5 {
        lemma_flush_suit(cards, position + 1);
    }
}

/// A hand has a flush exactly when it holds five cards or more of one of
/// the four suits.
pub proof fn lemma_flush_iff(cards: Seq<Card>)
    ensures
        flush(cards) is Some <==> exists|suit: Suits|
            suit.is_set() && (#[trigger] cards_of_suit(cards, suit)).len() >= 5,
{
    lemma_flush_suit(cards, 0);
    if flush(cards) is Some {
        let suit = flush_suit(cards)->Some_0;
        assert(suit.is_set() && cards_of_suit(cards, suit).len() >= 5);
    }
    if exists|suit: Suits| suit.is_set() && (#[trigger] cards_of_suit(cards, suit)).len() >= 5 {
        let suit = choose|suit: Suits|
            suit.is_set() && (#[trigger] cards_of_suit(cards, suit)).len() >= 5;
        assert(suit == suit_at(suit.index() as int));
    }
}

/// The cards of a flush are five cards of the hand, all of the suit that
/// was found, highest first, and no other card of the suit is higher than
/// any of them: the suit's cards in sorted order are a rearrangement of the
/// suit's cards, the flush is the first five of them, and those behind hold
/// no larger value.
pub proof fn lemma_flush_cards(cards: Seq<Card>, suit: Suits)
    requires
        flush_suit(cards) == Some(suit),
    ensures
        top_five(cards, suit).len() == 5,
        flush(cards) == Some(
            ValidHands::Flush(
                top_five(cards, suit)[0],
                top_five(cards, suit)[1],
                top_five(cards, suit)[2],
                top_five(cards, suit)[3],
                top_five(cards, suit)[4],
            ),
        ),
        forall|k: int|
            0 <= k < 5 ==> (#[trigger] top_five(cards, suit)[k]).suit == suit && cards.contains(
                top_five(cards, suit)[k],
            ),
        forall|j: int, k: int|
            0 <= j < k < 5 ==> top_five(cards, suit)[j].value >= top_five(cards, suit)[k].value,
        arranged(SortBy::ValueDescending, cards_of_suit(cards, suit)).to_multiset()
            == cards_of_suit(cards, suit).to_multiset(),
        forall|k: int, rest: int|
            0 <= k < 5 <= rest < cards_of_suit(cards, suit).len() ==> top_five(
                cards,
                suit,
            )[k].value >= arranged(SortBy::ValueDescending, cards_of_suit(cards, suit))[rest].value,
{
    broadcast use vstd::seq_lib::group_filter_ensures;

    lemma_flush_suit(cards, 0);
    let suited = cards_of_suit(cards, suit);
    let sorted = arranged(SortBy::ValueDescending, suited);
    let top = top_five(cards, suit);
    lemma_arranged_sorted(SortBy::ValueDescending, suited);
    assert forall|k: int| 0 <= k < 5 implies (#[trigger] top[k]).suit == suit && cards.contains(
        top[k],
    ) by {
        assert(sorted.contains(sorted[k]));
        lemma_arranged_contains(SortBy::ValueDescending, suited, sorted[k]);
        let at = choose|at: int| 0 <= at < suited.len() && suited[at] == sorted[k];
        assert(in_suit(suit)(suited[at]));
        assert(suited.contains(suited[at]));
        cards.lemma_filter_contains_rev(in_suit(suit), suited[at]);
    }
    assert forall|j: int, k: int| 0 <= j < k < 5 implies top[j].value >= top[k].value by {
        assert(SortBy::ValueDescending.key(sorted[j]) <= SortBy::ValueDescending.key(sorted[k]));
    }
    assert forall|k: int, rest: int| 0 <= k < 5 <= rest < suited.len() implies top[k].value
        >= sorted[rest].value by {
        assert(SortBy::ValueDescending.key(sorted[k]) <= SortBy::ValueDescending.key(
            sorted[rest],
        ));
    }
}

} // verus!

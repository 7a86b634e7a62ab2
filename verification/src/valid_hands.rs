//! The poker categories and their detectors.
//!
//! Every detector takes a hand of at least five cards and gives it back
//! untouched, together with the category it found, or reports that the hand
//! is not of that category. Each detector looks at the hand by itself, so a
//! hand can be of several categories, with cards that count for more than
//! one. What a detector finds is stated over the sequence of the hand's
//! cards: by `n_of_a_kind`, `two_pair` and `full_house` for the detectors
//! that count values, by `flush`, `straight` and `straight_flush` for those
//! that name the five cards they found.

use vstd::prelude::*;
use crate::card::Card;
use crate::counting::{find_held, full_house, n_of_a_kind, two_pair};
use crate::duplicates::lemma_scan_of_distinct;
use crate::flush::{flush, flush_suit, flush_suit_from};
use crate::hand::{
    cards_of_suit, count_of_value, lemma_count_at_most_len, run_keys, run_lengths, values_of_suit,
    Hand,
};
use crate::sorting::{is_sorted, lemma_arranged_sorted, SortBy};
use crate::straight::{
    first_of_value, holds_value, holds_wheel, is_straight, lemma_arranged_playing_cards,
    lemma_first_of_value, lemma_first_steps, lemma_gap_is_no_straight, lemma_low_scan,
    lemma_no_ace, lemma_no_steps, lemma_run_values, lemma_scan_of_arranged,
    lemma_straight_by_values, lemma_straight_low_iff, run_cards, run_from, scan_order,
    scanned_low, steps_at, straight_low,
};
use crate::suit::{suit_at, Suits};
use crate::text::append;

verus! {

/// A poker category together with the cards that show it.
#[derive(Debug, Clone, PartialEq)]
pub enum ValidHands {
    Pair(Card, Card),
    TwoPair(Card, Card, Card, Card),
    ThreeOAK(Card, Card, Card),
    Straight(Card, Card, Card, Card, Card),
    Flush(Card, Card, Card, Card, Card),
    FullHouse(Card, Card, Card, Card, Card),
    FourOAK(Card, Card, Card, Card),
    StraightFlush(Card, Card, Card, Card, Card),
}

/// What a detector returns for what it found: the category with the hand,
/// or nothing.
pub open spec fn with_hand(found: Option<ValidHands>, hand: Hand) -> Option<(ValidHands, Hand)> {
    match found {
        Some(category) => Some((category, hand)),
        None => None,
    }
}

/// The category in what a detector returns.
pub open spec fn category_of(found: Option<(ValidHands, Hand)>) -> Option<ValidHands> {
    match found {
        Some((category, _)) => Some(category),
        None => None,
    }
}

/// The straight that five cards form.
pub open spec fn straight_of(run: Seq<Card>) -> ValidHands
    recommends
        run.len() == 5,
{
    ValidHands::Straight(run[0], run[1], run[2], run[3], run[4])
}

/// The straight that one scan of a sorted hand finds.
pub open spec fn scanned_straight(cards: Seq<Card>, ace_high: bool) -> Option<ValidHands> {
    match scanned_low(cards, ace_high) {
        Some(low) => Some(straight_of(run_cards(cards, low))),
        None => None,
    }
}

/// The straight of `cards`: the highest run of five consecutive values, or,
/// where there is none, the Ace-low straight. Its cards are, of each value,
/// the first that `cards` holds, and they stand lowest value first.
pub open spec fn straight(cards: Seq<Card>) -> Option<ValidHands> {
    match straight_low(cards) {
        Some(low) => Some(straight_of(run_cards(cards, low))),
        None => None,
    }
}

/// A straight found among the cards of one suit, as a straight flush.
pub open spec fn as_straight_flush(found: Option<ValidHands>) -> Option<ValidHands> {
    match found {
        Some(ValidHands::Straight(a, b, c, d, e)) => Some(ValidHands::StraightFlush(a, b, c, d, e)),
        _ => None,
    }
}

/// The straight flush of `suit`: the straight of its cards, if there are
/// five or more.
pub open spec fn straight_flush_in(cards: Seq<Card>, suit: Suits) -> Option<ValidHands> {
    let suited = cards_of_suit(cards, suit);
    if suited.len() >= 5 {
        as_straight_flush(straight(suited))
    } else {
        None
    }
}

/// The straight flush of the first suit, in the order of `suit_at` and from
/// `position` on, that has one.
pub open spec fn straight_flush_from(cards: Seq<Card>, position: int) -> Option<ValidHands>
    decreases 4 - position,
{
    if position < 0 || position >= 4 {
        None
    } else {
        match straight_flush_in(cards, suit_at(position)) {
            Some(category) => Some(category),
            None => straight_flush_from(cards, position + 1),
        }
    }
}

/// The straight flush of `cards`: that of the first suit, in the order
/// Spades, Hearts, Clubs, Diamonds, whose cards hold a straight.
pub open spec fn straight_flush(cards: Seq<Card>) -> Option<ValidHands> {
    straight_flush_from(cards, 0)
}

/// What a detector found, as a sequence of one category or of none.
pub open spec fn present(found: Option<ValidHands>) -> Seq<ValidHands> {
    match found {
        Some(category) => seq![category],
        None => Seq::empty(),
    }
}

/// All categories that `cards` belong to, each found without regard to the
/// others, from the strongest to the weakest: straight flush, four of a
/// kind, full house, flush, straight, three of a kind, two pair, pair.
pub open spec fn categories(cards: Seq<Card>) -> Seq<ValidHands> {
    present(straight_flush(cards)) + present(n_of_a_kind(cards, 4)) + present(full_house(cards))
        + present(flush(cards)) + present(straight(cards)) + present(n_of_a_kind(cards, 3))
        + present(two_pair(cards)) + present(n_of_a_kind(cards, 2))
}

/// One line of text for each of `cards`.
pub open spec fn lines(cards: Seq<Card>) -> Seq<char>
    decreases cards.len(),
{
    if cards.len() == 0 {
        Seq::empty()
    } else {
        lines(cards.drop_last()) + cards.last().text() + "\n"@
    }
}

/// A hand is classified as a straight exactly when it holds five
/// consecutive values or the Ace with 2 to 5.
pub proof fn lemma_straight_iff(cards: Seq<Card>)
    ensures
        straight(cards) is Some <==> is_straight(cards),
        straight(cards) matches Some(found) ==> found is Straight,
{
    lemma_straight_low_iff(cards);
}

/// A hand that holds a card of each of five consecutive values between 2
/// and 14 is classified as a straight, whatever else it holds.
pub proof fn lemma_consecutive_values_are_a_straight(cards: Seq<Card>, low: int)
    requires
        2 <= low <= 10,
        holds_value(cards, low),
        holds_value(cards, low + 1),
        holds_value(cards, low + 2),
        holds_value(cards, low + 3),
        holds_value(cards, low + 4),
    ensures
        straight(cards) is Some,
{
    assert(run_from(cards, low));
    lemma_straight_low_iff(cards);
}

/// A hand that holds an Ace and a card of each value from 2 to 5 is
/// classified as a straight, whatever else it holds.
pub proof fn lemma_ace_low_is_a_straight(cards: Seq<Card>)
    requires
        holds_value(cards, 14),
        holds_value(cards, 2),
        holds_value(cards, 3),
        holds_value(cards, 4),
        holds_value(cards, 5),
    ensures
        straight(cards) is Some,
{
    lemma_straight_low_iff(cards);
}

/// A hand whose values are 2, 3, 4, 5 and 7, each held by however many
/// cards, is not classified as a straight.
pub proof fn lemma_values_with_a_gap_are_no_straight(cards: Seq<Card>)
    requires
        forall|i: int|
            0 <= i < cards.len() ==> {
                let value = (#[trigger] cards[i]).value;
                value == 2 || value == 3 || value == 4 || value == 5 || value == 7
            },
    ensures
        straight(cards) is None,
{
    lemma_gap_is_no_straight(cards);
}

/// Whether a hand is classified as a straight depends on the values that
/// it holds alone: cards that repeat a value neither make nor break one.
pub proof fn lemma_straight_whatever_repeats(a: Seq<Card>, b: Seq<Card>)
    requires
        forall|value: int| #[trigger] holds_value(a, value) <==> holds_value(b, value),
    ensures
        straight(a) is Some <==> straight(b) is Some,
{
    lemma_straight_by_values(a, b);
}

/// The first card of the hand that has `value`.
fn first_card_of_value(hand: &Hand, value: usize) -> (card: Card)
    requires
        holds_value(hand.cards@, value as int),
    ensures
        card == first_of_value(hand.cards@, value as int),
{
    let mut i: usize = 0;
    while i < hand.cards.len()
        invariant
            i <= hand.cards.len(),
            forall|j: int| 0 <= j < i ==> (#[trigger] hand.cards@[j]).value != value,
        decreases hand.cards.len() - i,
    {
        if hand.cards[i].value == value {
            proof {
                lemma_first_of_value(hand.cards@, value as int, i as int);
            }
            return hand.cards[i];
        }
        i += 1;
    }
    proof {
        // Some card has the value, so the search has ended before.
        let j = choose|j: int|
            0 <= j < hand.cards@.len() && crate::hand::run_key(
                (#[trigger] hand.cards@[j]).value,
                true,
            ) == value;
        assert(hand.cards@[j].value != value);
    }
    Card::blank()
}

/// The straight whose low end is `low`, of the cards of the hand.
fn straight_from(hand: &Hand, low: usize) -> (category: ValidHands)
    requires
        1 <= low <= 10,
        if low == 1 {
            holds_wheel(hand.cards@)
        } else {
            run_from(hand.cards@, low as int)
        },
    ensures
        category == straight_of(run_cards(hand.cards@, low as int)),
{
    if low == 1 {
        ValidHands::Straight(
            first_card_of_value(hand, 2),
            first_card_of_value(hand, 3),
            first_card_of_value(hand, 4),
            first_card_of_value(hand, 5),
            first_card_of_value(hand, 14),
        )
    } else {
        ValidHands::Straight(
            first_card_of_value(hand, low),
            first_card_of_value(hand, low + 1),
            first_card_of_value(hand, low + 2),
            first_card_of_value(hand, low + 3),
            first_card_of_value(hand, low + 4),
        )
    }
}

impl ValidHands {
    /// The name of the category as it heads its text.
    pub open spec fn heading(self) -> Seq<char> {
        match self {
            ValidHands::Pair(..) => "Pair"@,
            ValidHands::TwoPair(..) => "Two Pair"@,
            ValidHands::ThreeOAK(..) => "3OAK"@,
            ValidHands::Straight(..) => "Straight"@,
            ValidHands::Flush(..) => "Flush"@,
            ValidHands::FullHouse(..) => "Full House"@,
            ValidHands::FourOAK(..) => "4OAK"@,
            ValidHands::StraightFlush(..) => "Straight Flush"@,
        }
    }

    /// The cards that show the category, in the order in which it holds
    /// them.
    pub open spec fn cards(self) -> Seq<Card> {
        match self {
            ValidHands::Pair(a, b) => seq![a, b],
            ValidHands::TwoPair(a, b, c, d) => seq![a, b, c, d],
            ValidHands::ThreeOAK(a, b, c) => seq![a, b, c],
            ValidHands::Straight(a, b, c, d, e) => seq![a, b, c, d, e],
            ValidHands::Flush(a, b, c, d, e) => seq![a, b, c, d, e],
            ValidHands::FullHouse(a, b, c, d, e) => seq![a, b, c, d, e],
            ValidHands::FourOAK(a, b, c, d) => seq![a, b, c, d],
            ValidHands::StraightFlush(a, b, c, d, e) => seq![a, b, c, d, e],
        }
    }

    /// The category as text: its heading and a colon, then its cards, each
    /// on a line of its own.
    pub open spec fn text(self) -> Seq<char> {
        self.heading() + ":\n"@ + lines(self.cards())
    }

    /// Looks for a value that exactly `n` cards of the hand have. For `n`
    /// other than 2, 3 and 4 there is no category, and nothing is found.
    pub fn has_n_of_a_kind(hand: Hand, n: usize) -> (found: Option<(ValidHands, Hand)>)
        requires
            hand.cards@.len() >= 5,
        ensures
            found == with_hand(n_of_a_kind(hand.cards@, n as nat), hand),
    {
        if n < 2 || n > 4 {
            return None;
        }
        let rle = hand.get_run_length_hashmap();
        match find_held(&hand, &rle, n, n, None) {
            Some(value) => {
                assert(count_of_value(hand.cards@, value as nat) == n);
                let category = if n == 2 {
                    ValidHands::Pair(Card::blank(), Card::blank())
                } else if n == 3 {
                    ValidHands::ThreeOAK(Card::blank(), Card::blank(), Card::blank())
                } else {
                    ValidHands::FourOAK(Card::blank(), Card::blank(), Card::blank(), Card::blank())
                };
                Some((category, hand))
            },
            None => None,
        }
    }

    /// Looks for two different values that at least two cards each have.
    pub fn has_two_pair(hand: Hand) -> (found: Option<(ValidHands, Hand)>)
        requires
            hand.cards@.len() >= 5,
        ensures
            found == with_hand(two_pair(hand.cards@), hand),
    {
        let rle = hand.get_run_length_hashmap();
        let pair_a = find_held(&hand, &rle, 2, usize::MAX, None);
        let pair_b = match pair_a {
            Some(_) => find_held(&hand, &rle, 2, usize::MAX, pair_a),
            None => None,
        };
        proof {
            assert forall|value: nat|
                (#[trigger] count_of_value(hand.cards@, value)) <= usize::MAX by {
                lemma_count_at_most_len(hand.cards@, value);
                assert(hand.cards@.len() == hand.cards.len());
            }
        }
        match (pair_a, pair_b) {
            (Some(a), Some(b)) => {
                assert(count_of_value(hand.cards@, a as nat) >= 2 && count_of_value(
                    hand.cards@,
                    b as nat,
                ) >= 2);
                Some(
                    (
                        ValidHands::TwoPair(
                            Card::blank(),
                            Card::blank(),
                            Card::blank(),
                            Card::blank(),
                        ),
                        hand,
                    ),
                )
            },
            _ => None,
        }
    }

    /// Looks for a value that at least three cards have and a different
    /// value that at least two cards have.
    pub fn has_full_house(hand: Hand) -> (found: Option<(ValidHands, Hand)>)
        requires
            hand.cards@.len() >= 5,
        ensures
            found == with_hand(full_house(hand.cards@), hand),
    {
        let rle = hand.get_run_length_hashmap();
        let found_trio = find_held(&hand, &rle, 3, usize::MAX, None);
        let found_pair = match found_trio {
            Some(_) => find_held(&hand, &rle, 2, usize::MAX, found_trio),
            None => None,
        };
        proof {
            assert forall|value: nat|
                (#[trigger] count_of_value(hand.cards@, value)) <= usize::MAX by {
                lemma_count_at_most_len(hand.cards@, value);
                assert(hand.cards@.len() == hand.cards.len());
            }
        }
        match (found_trio, found_pair) {
            (Some(a), Some(b)) => {
                assert(count_of_value(hand.cards@, a as nat) >= 3 && count_of_value(
                    hand.cards@,
                    b as nat,
                ) >= 2);
                Some(
                    (
                        ValidHands::FullHouse(
                            Card::blank(),
                            Card::blank(),
                            Card::blank(),
                            Card::blank(),
                            Card::blank(),
                        ),
                        hand,
                    ),
                )
            },
            _ => None,
        }
    }

    /// Looks, suit by suit in the order Spades, Hearts, Clubs, Diamonds,
    /// for a straight among the cards of a suit that has five or more, and
    /// names the cards of the first it finds.
    pub fn has_straight_flush(hand: Hand) -> (found: Option<(ValidHands, Hand)>)
        requires
            hand.cards@.len() >= 5,
            hand.wf(),
        ensures
            found == with_hand(straight_flush(hand.cards@), hand),
    {
        let mut position: i32 = 0;
        while position < 4
            invariant
                0 <= position <= 4,
                hand.wf(),
                straight_flush(hand.cards@) == straight_flush_from(hand.cards@, position as int),
            decreases 4 - position,
        {
            let suit = Card::determine_suit(position);
            assert(suit == suit_at(position as int));
            let suited_hand = hand.suited(suit);
            if suited_hand.cards.len() >= 5 {
                match Self::has_straight(suited_hand) {
                    Some((ValidHands::Straight(a, b, c, d, e), _)) => {
                        return Some((ValidHands::StraightFlush(a, b, c, d, e), hand));
                    },
                    _ => {},
                }
            }
            position += 1;
        }
        None
    }

    /// Scans a hand that is sorted by value, highest first (`ace_high`), or
    /// by low-Ace value, lowest first, for five runs whose values follow one
    /// another in steps of one, and names the cards of the first it finds.
    fn detect_straight(hand: Hand, ace_high: bool) -> (found: Option<(ValidHands, Hand)>)
        requires
            hand.wf(),
            is_sorted(scan_order(ace_high), hand.cards@),
        ensures
            found == with_hand(scanned_straight(hand.cards@, ace_high), hand),
    {
        let rle_tuples = hand.get_run_length_tuples(ace_high);
        proof {
            lemma_run_values(hand.cards@, ace_high);
        }
        let mut at: usize = 0;
        while rle_tuples.len() >= 5 && at <= rle_tuples.len() - 5
            invariant
                hand.wf(),
                is_sorted(scan_order(ace_high), hand.cards@),
                rle_tuples@ == run_lengths(run_keys(hand.cards@, ace_high)),
                forall|a: int|
                    0 <= a < rle_tuples@.len() ==> 1 <= (#[trigger] rle_tuples@[a]).1 <= 14,
                forall|j: int| 0 <= j < at ==> !steps_at(rle_tuples@, ace_high, j),
            decreases rle_tuples.len() - at,
        {
            let first = rle_tuples[at].1;
            let in_steps = if ace_high {
                rle_tuples[at + 1].1 + 1 == first && rle_tuples[at + 2].1 + 2 == first
                    && rle_tuples[at + 3].1 + 3 == first && rle_tuples[at + 4].1 + 4 == first
            } else {
                rle_tuples[at + 1].1 == first + 1 && rle_tuples[at + 2].1 == first + 2
                    && rle_tuples[at + 3].1 == first + 3 && rle_tuples[at + 4].1 == first + 4
            };
            if in_steps {
                let low = if ace_high {
                    rle_tuples[at + 4].1
                } else {
                    first
                };
                proof {
                    lemma_first_steps(hand.cards@, ace_high, at as int);
                }
                let category = straight_from(&hand, low);
                return Some((category, hand));
            }
            at += 1;
        }
        proof {
            lemma_no_steps(hand.cards@, ace_high);
        }
        None
    }

    /// Looks for five cards of consecutive values, the Ace counting as 14
    /// or, where that gives no straight, as 1. A copy of the hand is
    /// sorted, the cards whose value it holds already are set aside, and
    /// what is left is scanned. Of several straights the highest is named,
    /// lowest card first; of several cards of one value the first of the
    /// hand.
    pub fn has_straight(hand: Hand) -> (found: Option<(ValidHands, Hand)>)
        requires
            hand.cards@.len() >= 5,
            hand.wf(),
        ensures
            found == with_hand(straight(hand.cards@), hand),
    {
        let mut sorted_high = hand.copy();
        sorted_high.sort_by_rank_ace_high();
        let (distinct, _) = sorted_high.set_aside_duplicates();
        proof {
            lemma_arranged_sorted(SortBy::ValueDescending, hand.cards@);
            lemma_arranged_playing_cards(SortBy::ValueDescending, hand.cards@);
            lemma_scan_of_arranged(hand.cards@, true);
            lemma_scan_of_distinct(sorted_high.cards@, true);
        }
        match Self::detect_straight(distinct, true) {
            Some((category, _)) => Some((category, hand)),
            None => {
                if hand.contains_ace() {
                    let mut sorted_low = hand.copy();
                    sorted_low.sort_by_rank_ace_low();
                    let (distinct, _) = sorted_low.set_aside_duplicates();
                    proof {
                        lemma_arranged_sorted(SortBy::AltValueAscending, hand.cards@);
                        lemma_arranged_playing_cards(SortBy::AltValueAscending, hand.cards@);
                        lemma_scan_of_arranged(hand.cards@, false);
                        lemma_scan_of_distinct(sorted_low.cards@, false);
                        lemma_low_scan(hand.cards@);
                    }
                    match Self::detect_straight(distinct, false) {
                        Some((category, _)) => Some((category, hand)),
                        None => None,
                    }
                } else {
                    proof {
                        lemma_no_ace(hand.cards@);
                    }
                    None
                }
            },
        }
    }

    /// Looks for a suit of which the hand holds five cards or more, in the
    /// order Spades, Hearts, Clubs, Diamonds, and names the five highest
    /// cards of the first such suit, highest first.
    pub fn detect_flush(hand: Hand) -> (found: Option<(ValidHands, Hand)>)
        requires
            hand.cards@.len() >= 5,
        ensures
            found == with_hand(flush(hand.cards@), hand),
    {
        let suit_map = hand.held_suits();
        let mut position: i32 = 0;
        while position < 4
            invariant
                0 <= position <= 4,
                flush_suit(hand.cards@) == flush_suit_from(hand.cards@, position as int),
                forall|suit: Suits|
                    #[trigger] suit_map.values(suit) == values_of_suit(hand.cards@, suit),
            decreases 4 - position,
        {
            let suit = Card::determine_suit(position);
            assert(suit == suit_at(position as int));
            if suit_map.get(suit).len() >= 5 {
                let mut suited = hand.suited(suit);
                proof {
                    lemma_arranged_sorted(SortBy::ValueDescending, suited.cards@);
                }
                suited.sort_by_rank_ace_high();
                let category = ValidHands::Flush(
                    suited.cards[0],
                    suited.cards[1],
                    suited.cards[2],
                    suited.cards[3],
                    suited.cards[4],
                );
                return Some((category, hand));
            }
            position += 1;
        }
        None
    }

    /// The name of the category.
    pub fn name(&self) -> (text: &'static str)
        ensures
            text@ == self.heading(),
    {
        match self {
            ValidHands::Pair(..) => "Pair",
            ValidHands::TwoPair(..) => "Two Pair",
            ValidHands::ThreeOAK(..) => "3OAK",
            ValidHands::Straight(..) => "Straight",
            ValidHands::Flush(..) => "Flush",
            ValidHands::FullHouse(..) => "Full House",
            ValidHands::FourOAK(..) => "4OAK",
            ValidHands::StraightFlush(..) => "Straight Flush",
        }
    }

    /// The cards that show the category.
    pub fn evidence(&self) -> (cards: Vec<Card>)
        ensures
            cards@ == self.cards(),
    {
        let mut cards: Vec<Card> = Vec::new();
        match self {
            ValidHands::Pair(a, b) => {
                cards.push(*a);
                cards.push(*b);
            },
            ValidHands::TwoPair(a, b, c, d) | ValidHands::FourOAK(a, b, c, d) => {
                cards.push(*a);
                cards.push(*b);
                cards.push(*c);
                cards.push(*d);
            },
            ValidHands::ThreeOAK(a, b, c) => {
                cards.push(*a);
                cards.push(*b);
                cards.push(*c);
            },
            ValidHands::Straight(a, b, c, d, e)
            | ValidHands::Flush(a, b, c, d, e)
            | ValidHands::FullHouse(a, b, c, d, e)
            | ValidHands::StraightFlush(a, b, c, d, e) => {
                cards.push(*a);
                cards.push(*b);
                cards.push(*c);
                cards.push(*d);
                cards.push(*e);
            },
        }
        assert(cards@ =~= self.cards());
        cards
    }

    /// The category as text, such as `Pair:`, followed by a line for each
    /// of its cards.
    pub fn to_text(&self) -> (text: String)
        ensures
            text@ == self.text(),
    {
        let cards = self.evidence();
        let mut text = String::new();
        append(&mut text, self.name());
        append(&mut text, ":\n");
        let mut i: usize = 0;
        while i < cards.len()
            invariant
                i <= cards.len(),
                cards@ == self.cards(),
                text@ == self.heading() + ":\n"@ + lines(cards@.take(i as int)),
            decreases cards.len() - i,
        {
            let line = cards[i].to_text();
            proof {
                assert(cards@.take(i + 1).drop_last() =~= cards@.take(i as int));
            }
            append(&mut text, line.as_str());
            append(&mut text, "\n");
            assert(text@ =~= self.heading() + ":\n"@ + lines(cards@.take(i + 1)));
            i += 1;
        }
        assert(cards@.take(i as int) =~= cards@);
        text
    }
}

} // verus!

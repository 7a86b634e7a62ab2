//! A playing card: a suit, a rank and the two numeric values of the rank.

use vstd::prelude::*;
use crate::suit::{Ranks, Suits};
use crate::text::append;

verus! {

/// A card. `value` counts the Ace as 14, `alt_value` counts it as 1; for
/// every other rank the two agree.
#[derive(PartialEq, Eq, PartialOrd, Ord, Clone, Copy, Debug, Structural)]
pub struct Card {
    pub suit: Suits,
    pub rank: Ranks,
    pub value: usize,
    /// The value by which the card is placed where the Ace is low.
    pub alt_value: usize,
}

impl Card {
    /// The two values are those of the rank: `alt_value` is 1 exactly for an
    /// Ace, and equals `value` otherwise.
    pub open spec fn wf(self) -> bool {
        &&& self.value == self.rank.value(false)
        &&& self.alt_value == self.rank.value(true)
    }

    /// The card is one of the 52 of a standard deck: its suit and rank are
    /// set and its values are those of its rank.
    pub open spec fn is_playing_card(self) -> bool {
        &&& self.wf()
        &&& self.suit.is_set()
        &&& self.rank.is_set()
    }

    /// The placeholder card: no suit, no rank, value 0.
    pub open spec fn blank_card() -> Card {
        Card { suit: Suits::Blank, rank: Ranks::Blank, value: 0, alt_value: 0 }
    }

    /// The card that `new` builds: an Ace always gets the values 14 and 1,
    /// any other rank keeps the value it is given.
    pub open spec fn made(suit: Suits, rank: Ranks, value: usize) -> Card {
        if rank == Ranks::Ace {
            Card { suit, rank, value: 14, alt_value: 1 }
        } else {
            Card { suit, rank, value, alt_value: value }
        }
    }

    /// The card of a suit whose rank has the given value; 1 and 14 both give
    /// the Ace.
    pub open spec fn of_value(card_value: usize, suit: Suits) -> Card {
        Card::made(suit, Ranks::of_value(card_value as nat), card_value)
    }

    /// The card as text: the name of its suit's variant, a space, and the
    /// name of its rank.
    pub open spec fn text(self) -> Seq<char> {
        self.suit.variant() + " "@ + self.rank.name()
    }

    /// The card as text, such as `Hearts 10`.
    pub fn to_text(&self) -> (text: String)
        ensures
            text@ == self.text(),
    {
        let mut text = String::new();
        append(&mut text, self.suit.variant_name());
        append(&mut text, " ");
        append(&mut text, self.rank.to_str());
        assert(text@ =~= self.text());
        text
    }

    /// A placeholder that stands where a detector reports a category without
    /// naming the cards that form it. It is no playing card.
    pub fn blank() -> (card: Card)
        ensures
            card == Card::blank_card(),
            card.wf(),
            !card.is_playing_card(),
    {
        Card {
            suit: Suits::Blank,
            rank: Ranks::Blank,
            value: Ranks::Blank.get_value(false),
            alt_value: 0,
        }
    }

    /// A card of the given suit, rank and value. An Ace gets the values 14
    /// and 1 whatever value is given; for any other rank the card is well
    /// formed if the value given is that of the rank.
    pub fn new(suit: Suits, rank: Ranks, mut value: usize) -> (card: Card)
        ensures
            card == Card::made(suit, rank, value),
            rank == Ranks::Ace || value == rank.value(false) ==> card.wf(),
    {
        let mut alt_value = value;

        if rank == Ranks::Ace {
            alt_value = 1;
            value = 14;
        }

        Card { suit, rank, value, alt_value }
    }

    /// The card of the given value, in the given suit or, where none is
    /// given, in Spades. The value is at most 14; 1 and 14 both give the
    /// Ace, 0 gives a card without rank.
    pub fn from_card_value(card_value: usize, mut suit: Option<Suits>) -> (card: Card)
        requires
            card_value <= 14,
        ensures
            card == Card::of_value(
                card_value,
                match suit {
                    Some(s) => s,
                    None => Suits::Spades,
                },
            ),
            card.wf(),
            card_value >= 1 && suit != Some(Suits::Blank) ==> card.is_playing_card(),
    {
        if suit.is_none() {
            suit = Some(Suits::Spades);
        }
        let rank = Ranks::get_by_value(card_value);

        Card::new(suit.unwrap(), rank, card_value)
    }

    /// Whether the card is one of the 52 of a standard deck.
    pub fn is_playing(&self) -> (playing: bool)
        ensures
            playing == self.is_playing_card(),
    {
        self.suit != Suits::Blank && self.rank != Ranks::Blank && self.value
            == self.rank.get_value(false) && self.alt_value == self.rank.get_value(true)
    }

    /// The suit at position `i` modulo 4, in the order Spades, Hearts,
    /// Clubs, Diamonds. `i` is not negative, or else a multiple of 4.
    pub fn determine_suit(i: i32) -> (suit: Suits)
        requires
            i >= 0 || i % 4 == 0,
        ensures
            suit.is_set(),
            suit.index() == i % 4,
    {
        match i % 4 {
            0 => Suits::Spades,
            1 => Suits::Hearts,
            2 => Suits::Clubs,
            _ => Suits::Diamonds,
        }
    }

    /// A playing card is determined by its suit and rank, and is the card
    /// that its suit and its value give.
    pub proof fn lemma_playing_card_from_value(card: Card)
        requires
            card.is_playing_card(),
        ensures
            2 <= card.value <= 14,
            1 <= card.alt_value <= 13,
            card.alt_value == (if card.value == 14 { 1 } else { card.value }),
            card == Card::of_value(card.value, card.suit),
            card == Card::of_value(card.alt_value, card.suit),
    {
    }

    /// Two well-formed cards are equal as soon as suit and rank are equal.
    pub proof fn lemma_equal_by_suit_and_rank(a: Card, b: Card)
        requires
            a.wf(),
            b.wf(),
            a.suit == b.suit,
            a.rank == b.rank,
        ensures
            a == b,
    {
    }
}

} // verus!

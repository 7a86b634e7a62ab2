//! The standard deck of 52 cards, and dealing from it.

use vstd::prelude::*;
use crate::card::Card;
use crate::hand::Hand;
use crate::suit::{suit_at, Ranks};

verus! {

/// A pile of cards. Cards are dealt from its end.
pub struct Deck {
    pub cards: Vec<Card>,
}

/// The cards of a standard deck in the order in which it is built: suit
/// by suit, Spades, Hearts, Clubs, Diamonds, and in each suit from the 2 up
/// to the Ace.
pub open spec fn standard_cards() -> Seq<Card> {
    Seq::new(52, |i: int| Card::of_value((2 + i % 13) as usize, suit_at(i / 13)))
}

/// The last `n` cards of `pile` in the order in which they are dealt, the
/// last card first.
pub open spec fn dealt(pile: Seq<Card>, n: nat) -> Seq<Card>
    recommends
        n <= pile.len(),
{
    Seq::new(n, |i: int| pile[pile.len() - 1 - i])
}

/// How many cards a hand that holds `held` cards lacks to hold `size`.
pub open spec fn lacking(held: nat, size: nat) -> nat {
    if held < size {
        (size - held) as nat
    } else {
        0
    }
}

/// A standard deck holds 52 playing cards, no card twice, and every
/// playing card is in it.
pub proof fn lemma_standard_cards()
    ensures
        standard_cards().len() == 52,
        forall|i: int| 0 <= i < 52 ==> (#[trigger] standard_cards()[i]).is_playing_card(),
        standard_cards().no_duplicates(),
        forall|card: Card| card.is_playing_card() ==> standard_cards().contains(card),
{
    let deck = standard_cards();
    assert forall|i: int| 0 <= i < 52 implies (#[trigger] deck[i]).is_playing_card() by {
        Ranks::lemma_value_round_trip(Ranks::Blank, (2 + i % 13) as nat);
    }
    assert forall|i: int, j: int| 0 <= i < 52 && 0 <= j < 52 && i != j implies deck[i]
        != deck[j] by {
        Ranks::lemma_value_round_trip(Ranks::Blank, (2 + i % 13) as nat);
        Ranks::lemma_value_round_trip(Ranks::Blank, (2 + j % 13) as nat);
        if deck[i] == deck[j] {
            assert(i / 13 == j / 13);
            assert(i % 13 == j % 13);
        }
    }
    assert forall|card: Card| card.is_playing_card() implies deck.contains(card) by {
        Card::lemma_playing_card_from_value(card);
        let i = 13 * (card.suit.index() as int) + (card.value - 2);
        assert(i / 13 == card.suit.index() && i % 13 == card.value - 2);
        assert(deck[i] == card);
    }
}

/// What is dealt from a pile that holds no card twice holds no card twice.
pub proof fn lemma_dealt_no_duplicates(pile: Seq<Card>, n: nat)
    requires
        pile.no_duplicates(),
        n <= pile.len(),
    ensures
        dealt(pile, n).len() == n,
        dealt(pile, n).no_duplicates(),
        forall|i: int| 0 <= i < n ==> pile.contains(#[trigger] dealt(pile, n)[i]),
{
    assert forall|i: int| 0 <= i < n implies pile.contains(#[trigger] dealt(pile, n)[i]) by {
        assert(pile[pile.len() - 1 - i] == dealt(pile, n)[i]);
    }
}

impl Deck {
    /// A standard deck of 52 cards.
    pub fn standard() -> (deck: Deck)
        ensures
            deck.cards@ == standard_cards(),
    {
        let mut deck = Deck { cards: Vec::new() };
        let mut s: i32 = 0;
        while s < 4
            invariant
                0 <= s <= 4,
                deck.cards@ == standard_cards().take(13 * s),
            decreases 4 - s,
        {
            let suit = Card::determine_suit(s);
            let mut value: usize = 2;
            while value < 15
                invariant
                    0 <= s < 4,
                    2 <= value <= 15,
                    suit == suit_at(s as int),
                    deck.cards@ == standard_cards().take(13 * s + value - 2),
                decreases 15 - value,
            {
                let card = Card::new(suit, Ranks::get_by_value(value), value);
                deck.cards.push(card);
                proof {
                    let i = 13 * s + value - 2;
                    assert(i / 13 == s && i % 13 == value - 2);
                    assert(standard_cards()[i] == card);
                    assert(standard_cards().take(i + 1) =~= standard_cards().take(i).push(card));
                }
                value += 1;
            }
            s += 1;
        }
        assert(standard_cards().take(52) =~= standard_cards());
        deck
    }

    /// Deals from the end of the deck until the hand holds as many cards as
    /// it is meant to. The deck must hold as many cards as the hand lacks.
    pub fn deal_to_hand(&mut self, hand: &mut Hand)
        requires
            lacking(old(hand).cards@.len(), old(hand).size as nat) <= old(self).cards@.len(),
        ensures
            final(hand).size == old(hand).size,
            final(hand).cards@ == old(hand).cards@ + dealt(
                old(self).cards@,
                lacking(old(hand).cards@.len(), old(hand).size as nat),
            ),
            final(self).cards@ == old(self).cards@.take(
                old(self).cards@.len() - lacking(old(hand).cards@.len(), old(hand).size as nat),
            ),
    {
        let ghost pile = self.cards@;
        let ghost held = hand.cards@;
        let ghost mut n: nat = 0;
        while hand.cards.len() < hand.size
            invariant
                hand.size == old(hand).size,
                pile == old(self).cards@,
                held == old(hand).cards@,
                n <= lacking(held.len(), hand.size as nat) <= pile.len(),
                hand.cards@ == held + dealt(pile, n),
                self.cards@ == pile.take(pile.len() - n),
            decreases hand.size - hand.cards.len(),
        {
            let card = self.cards.pop().unwrap();
            hand.cards.push(card);
            proof {
                assert(dealt(pile, n + 1) =~= dealt(pile, n).push(card));
                assert(hand.cards@ =~= held + dealt(pile, n + 1));
                assert(self.cards@ =~= pile.take(pile.len() - (n + 1)));
                n = n + 1;
            }
        }
    }

    /// Deals `n` cards from the end of the deck, or all its cards if it
    /// holds fewer.
    pub fn deal_n_cards(&mut self, n: usize) -> (draws: Vec<Card>)
        ensures
            draws@ == dealt(
                old(self).cards@,
                if n <= old(self).cards@.len() {
                    n as nat
                } else {
                    old(self).cards@.len()
                },
            ),
            final(self).cards@ == old(self).cards@.take(old(self).cards@.len() - draws@.len()),
    {
        let ghost pile = self.cards@;
        let mut draws: Vec<Card> = Vec::new();
        let mut dealt_so_far: usize = 0;
        while dealt_so_far < n
            invariant
                pile == old(self).cards@,
                dealt_so_far <= n,
                dealt_so_far <= pile.len(),
                draws@ == dealt(pile, dealt_so_far as nat),
                self.cards@ == pile.take(pile.len() - dealt_so_far),
            decreases n - dealt_so_far,
        {
            if self.cards.len() == 0 {
                return draws;
            } else {
                let card = self.cards.pop().unwrap();
                draws.push(card);
                proof {
                    assert(draws@ =~= dealt(pile, (dealt_so_far + 1) as nat));
                    assert(self.cards@ =~= pile.take(pile.len() - (dealt_so_far + 1)));
                }
            }
            dealt_so_far += 1;
        }
        return draws;
    }
}

} // verus!

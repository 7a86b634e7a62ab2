//! Estimating how often a straight occurs in the first cards dealt from a
//! shuffled deck.

use vstd::prelude::*;
use rand::rngs::ThreadRng;
use rand::seq::SliceRandom;
use crate::card::Card;
use crate::deck::{dealt, lemma_standard_cards, standard_cards, Deck};
use crate::hand::Hand;
use crate::straight::{is_straight, lemma_straight_low_iff};
use crate::valid_hands::ValidHands;

verus! {

/// The number of cards that are dealt for one sample.
pub const FIRST_DRAW: usize = 8;

/// `rand::rngs::ThreadRng`, the random number generator that each thread has
/// for itself. Nothing is known of what is inside it.
#[verifier::external_type_specification]
#[verifier::external_body]
pub struct ExThreadRng(rand::rngs::ThreadRng);

/// Calls `rand::thread_rng`, which hands out the current thread's random
/// number generator. Nothing is claimed of it.
#[verifier::external_body]
fn thread_rng() -> (rng: ThreadRng) {
    rand::thread_rng()
}

/// Calls `rand::seq::SliceRandom::shuffle` on the cards. The shuffle only
/// swaps cards with one another, so the same cards are there afterwards,
/// each as often as before; nothing is claimed of their order.
#[verifier::external_body]
fn shuffle_cards(cards: &mut Vec<Card>, rng: &mut ThreadRng)
    ensures
        final(cards)@.to_multiset() == old(cards)@.to_multiset(),
{
    cards.shuffle(rng);
}

/// Cards that are a rearrangement of a standard deck are 52 playing cards,
/// no card twice.
pub proof fn lemma_rearranged_deck(cards: Seq<Card>)
    requires
        cards.to_multiset() == standard_cards().to_multiset(),
    ensures
        cards.len() == 52,
        forall|i: int| 0 <= i < cards.len() ==> (#[trigger] cards[i]).is_playing_card(),
        cards.no_duplicates(),
{
    lemma_standard_cards();
    standard_cards().lemma_multiset_has_no_duplicates();
    cards.lemma_multiset_has_no_duplicates_conv();
    vstd::seq_lib::to_multiset_len(cards);
    vstd::seq_lib::to_multiset_len(standard_cards());
    assert forall|i: int| 0 <= i < cards.len() implies (#[trigger] cards[i]).is_playing_card() by {
        assert(cards.contains(cards[i]));
        vstd::seq_lib::to_multiset_contains(cards, cards[i]);
        vstd::seq_lib::to_multiset_contains(standard_cards(), cards[i]);
        let j = choose|j: int| 0 <= j < 52 && standard_cards()[j] == cards[i];
        assert(standard_cards()[j].is_playing_card());
    }
}

impl Deck {
    /// Shuffles the deck: the same cards, in an order left to chance.
    pub fn shuffle(&mut self)
        ensures
            final(self).cards@.to_multiset() == old(self).cards@.to_multiset(),
    {
        let mut rng = thread_rng();
        shuffle_cards(&mut self.cards, &mut rng);
    }
}

/// Deals the first `FIRST_DRAW` cards of a deck of playing cards to a hand
/// and says whether they hold a straight.
pub fn first_draw_has_straight(deck: Deck) -> (hit: bool)
    requires
        deck.cards@.len() >= FIRST_DRAW,
        forall|i: int| 0 <= i < deck.cards@.len() ==> (#[trigger] deck.cards@[i]).is_playing_card(),
    ensures
        hit == is_straight(dealt(deck.cards@, FIRST_DRAW as nat)),
{
    let ghost pile = deck.cards@;
    let mut deck = deck;
    let mut hand = Hand::of_size(FIRST_DRAW);
    let first_draw = deck.deal_n_cards(FIRST_DRAW);
    hand.add_to_hand(first_draw);
    proof {
        assert(hand.cards@ =~= dealt(pile, FIRST_DRAW as nat));
        lemma_straight_low_iff(hand.cards@);
    }
    match ValidHands::has_straight(hand) {
        Some(_) => true,
        None => false,
    }
}

/// Shuffles a standard deck `samples` times and counts how often the first
/// `FIRST_DRAW` cards hold a straight.
pub fn count_straights(samples: usize) -> (straights: usize)
    ensures
        straights <= samples,
{
    let mut straights: usize = 0;
    let mut rng = thread_rng();
    let mut taken: usize = 0;
    while taken < samples
        invariant
            taken <= samples,
            straights <= taken,
        decreases samples - taken,
    {
        let mut deck = Deck::standard();
        shuffle_cards(&mut deck.cards, &mut rng);
        proof {
            lemma_rearranged_deck(deck.cards@);
        }
        if first_draw_has_straight(deck) {
            straights += 1;
        }
        taken += 1;
    }
    straights
}

} // verus!

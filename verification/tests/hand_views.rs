use std::collections::HashMap;

use poker_hands::card::Card;
use poker_hands::hand::{Hand, SuitBuckets};
use poker_hands::suit::{Ranks, Suits};

fn hand_with(values: &[(usize, Suits)]) -> Hand {
    Hand {
        cards: values
            .iter()
            .map(|(value, suit)| Card::from_card_value(*value, Some(*suit)))
            .collect(),
        size: values.len(),
    }
}

fn values_of(hand: &Hand) -> Vec<usize> {
    hand.cards.iter().map(|card| card.value).collect()
}

#[test]
pub fn suit_buckets() {
    let mut hand = Hand::of_size(8);
    let cards = vec![
        Card::new(Suits::Spades, Ranks::Ace, 14),
        Card::new(Suits::Spades, Ranks::Ten, 10),
        Card::new(Suits::Spades, Ranks::Nine, 9),
        Card::new(Suits::Hearts, Ranks::Ace, 14),
        Card::new(Suits::Hearts, Ranks::Ten, 10),
        Card::new(Suits::Hearts, Ranks::Nine, 9),
        Card::new(Suits::Clubs, Ranks::Ace, 14),
        Card::new(Suits::Diamonds, Ranks::Ace, 14),
    ];
    hand.cards = cards;
    assert_eq!(hand.cards[0].rank.to_str(), "Ace");
    let mut h = SuitBuckets::new();
    h.insert(Suits::Spades, vec![14, 10, 9]);
    h.insert(Suits::Hearts, vec![14, 10, 9]);
    h.insert(Suits::Clubs, vec![14]);
    h.insert(Suits::Diamonds, vec![14]);
    let suit_map = hand.held_suits();
    assert_eq!(suit_map, h)
}

#[test]
fn suit_buckets_keep_the_order_of_the_hand() {
    let hand = hand_with(&[
        (5, Suits::Clubs),
        (9, Suits::Hearts),
        (2, Suits::Clubs),
        (14, Suits::Clubs),
        (3, Suits::Hearts),
    ]);
    let buckets = hand.held_suits();
    assert_eq!(buckets.get(Suits::Clubs), &vec![5, 2, 14]);
    assert_eq!(buckets.get(Suits::Hearts), &vec![9, 3]);
    assert_eq!(buckets.get(Suits::Spades), &Vec::<usize>::new());
    assert_eq!(buckets.get(Suits::Diamonds), &Vec::<usize>::new());
    assert_eq!(buckets.get(Suits::Blank), &Vec::<usize>::new());
}

#[test]
fn sub_hand_of_a_suit() {
    let hand = hand_with(&[
        (5, Suits::Clubs),
        (9, Suits::Hearts),
        (2, Suits::Clubs),
        (14, Suits::Clubs),
        (3, Suits::Hearts),
    ]);
    assert_eq!(hand.suited(Suits::Clubs), hand_with(&[
        (5, Suits::Clubs),
        (2, Suits::Clubs),
        (14, Suits::Clubs)
    ]));
    assert_eq!(hand.suited(Suits::Spades), Hand { cards: vec![], size: 0 });
}

#[test]
fn frequency_map_counts_every_card() {
    let hand = hand_with(&[
        (14, Suits::Hearts),
        (14, Suits::Spades),
        (14, Suits::Clubs),
        (10, Suits::Spades),
        (12, Suits::Spades),
        (5, Suits::Spades),
        (10, Suits::Hearts),
        (11, Suits::Hearts),
    ]);
    let counts = hand.get_run_length_hashmap();
    let mut expected = HashMap::new();
    expected.insert(14, 3);
    expected.insert(10, 2);
    expected.insert(12, 1);
    expected.insert(5, 1);
    expected.insert(11, 1);
    assert_eq!(counts, expected);
    assert_eq!(counts.values().sum::<usize>(), hand.cards.len());
}

#[test]
fn frequency_map_of_an_empty_hand() {
    assert_eq!(Hand::default().get_run_length_hashmap(), HashMap::new());
}

#[test]
fn frequency_map_counts_in_any_order() {
    let hand = hand_with(&[
        (7, Suits::Hearts),
        (3, Suits::Spades),
        (7, Suits::Clubs),
        (3, Suits::Hearts),
        (7, Suits::Spades),
    ]);
    let counts = hand.get_run_length_hashmap();
    assert_eq!(counts.get(&7), Some(&3));
    assert_eq!(counts.get(&3), Some(&2));
    assert_eq!(counts.len(), 2);
}

#[test]
fn run_length_tuples_of_a_sorted_hand() {
    let mut hand = hand_with(&[
        (2, Suits::Spades),
        (3, Suits::Spades),
        (3, Suits::Hearts),
        (4, Suits::Spades),
        (4, Suits::Hearts),
        (4, Suits::Clubs),
        (5, Suits::Spades),
        (14, Suits::Spades),
    ]);
    hand.sort_by_rank_ace_high();
    assert_eq!(hand.get_run_length_tuples(true), vec![(1, 14), (1, 5), (3, 4), (2, 3), (1, 2)]);
    hand.sort_by_rank_ace_low();
    assert_eq!(hand.get_run_length_tuples(false), vec![(1, 1), (1, 2), (2, 3), (3, 4), (1, 5)]);
    let lengths: usize = hand.get_run_length_tuples(false).iter().map(|run| run.0).sum();
    assert_eq!(lengths, hand.cards.len());
}

#[test]
fn run_length_tuples_follow_the_order_of_the_hand() {
    let hand = hand_with(&[
        (9, Suits::Spades),
        (9, Suits::Hearts),
        (4, Suits::Spades),
        (9, Suits::Clubs),
        (14, Suits::Clubs),
    ]);
    assert_eq!(hand.get_run_length_tuples(true), vec![(2, 9), (1, 4), (1, 9), (1, 14)]);
    assert_eq!(hand.get_run_length_tuples(false), vec![(2, 9), (1, 4), (1, 9), (1, 1)]);
    assert_eq!(Hand::default().get_run_length_tuples(true), vec![]);
}

#[test]
fn run_length_tuples_of_one_value() {
    let hand = hand_with(&[
        (9, Suits::Spades),
        (9, Suits::Hearts),
        (9, Suits::Diamonds),
        (9, Suits::Clubs),
        (9, Suits::Clubs),
    ]);
    assert_eq!(hand.get_run_length_tuples(true), vec![(5, 9)]);
}

#[test]
fn sorts_by_value_with_the_ace_leading() {
    let mut hand = hand_with(&[
        (5, Suits::Clubs),
        (14, Suits::Hearts),
        (9, Suits::Hearts),
        (2, Suits::Clubs),
        (14, Suits::Clubs),
        (9, Suits::Spades),
    ]);
    hand.sort_by_rank_ace_high();
    assert_eq!(hand, hand_with(&[
        (14, Suits::Hearts),
        (14, Suits::Clubs),
        (9, Suits::Hearts),
        (9, Suits::Spades),
        (5, Suits::Clubs),
        (2, Suits::Clubs),
    ]));
    hand.sort_by_rank_ace_low();
    assert_eq!(hand, hand_with(&[
        (14, Suits::Hearts),
        (14, Suits::Clubs),
        (2, Suits::Clubs),
        (5, Suits::Clubs),
        (9, Suits::Hearts),
        (9, Suits::Spades),
    ]));
    assert_eq!(values_of(&hand), vec![14, 14, 2, 5, 9, 9]);
}

#[test]
fn sorts_by_suit() {
    let mut hand = hand_with(&[
        (5, Suits::Clubs),
        (14, Suits::Hearts),
        (9, Suits::Spades),
        (2, Suits::Diamonds),
        (14, Suits::Clubs),
        (9, Suits::Hearts),
    ]);
    hand.sort_by_suit();
    assert_eq!(hand, hand_with(&[
        (2, Suits::Diamonds),
        (5, Suits::Clubs),
        (14, Suits::Clubs),
        (14, Suits::Hearts),
        (9, Suits::Hearts),
        (9, Suits::Spades),
    ]));
}

#[test]
fn sorting_a_sorted_hand_changes_nothing() {
    let mut hand = hand_with(&[(13, Suits::Clubs), (13, Suits::Hearts), (4, Suits::Spades)]);
    let before = hand.clone();
    hand.sort_by_rank_ace_high();
    assert_eq!(hand, before);
    assert_eq!(hand.size, 3);
}

#[test]
fn empty_hands() {
    let hand = Hand::default();
    assert_eq!(hand.cards, vec![]);
    assert_eq!(hand.size, 5);
    let hand = Hand::of_size(8);
    assert_eq!(hand.cards, vec![]);
    assert_eq!(hand.size, 8);
    assert!(!hand.contains_ace());
}

#[test]
fn adds_cards_behind_those_held() {
    let mut hand = hand_with(&[(13, Suits::Clubs), (4, Suits::Spades)]);
    hand.add_to_hand(vec![
        Card::from_card_value(9, Some(Suits::Hearts)),
        Card::from_card_value(2, Some(Suits::Hearts)),
    ]);
    assert_eq!(hand.cards, hand_with(&[
        (13, Suits::Clubs),
        (4, Suits::Spades),
        (9, Suits::Hearts),
        (2, Suits::Hearts)
    ]).cards);
    assert_eq!(hand.size, 2);
    hand.add_to_hand(vec![]);
    assert_eq!(hand.cards.len(), 4);
}

#[test]
fn knows_an_ace() {
    assert!(hand_with(&[(13, Suits::Clubs), (14, Suits::Spades)]).contains_ace());
    assert!(hand_with(&[(1, Suits::Clubs), (4, Suits::Spades)]).contains_ace());
    assert!(!hand_with(&[(13, Suits::Clubs), (4, Suits::Spades)]).contains_ace());
}

#[test]
fn sets_cards_of_repeated_value_aside() {
    let hand = hand_with(&[
        (3, Suits::Hearts),
        (4, Suits::Spades),
        (3, Suits::Spades),
        (4, Suits::Hearts),
        (2, Suits::Clubs),
        (4, Suits::Clubs),
    ]);
    let (kept, leftover) = hand.set_aside_duplicates();
    assert_eq!(kept, hand_with(&[(3, Suits::Hearts), (4, Suits::Spades), (2, Suits::Clubs)]));
    assert_eq!(leftover, hand_with(&[(3, Suits::Spades), (4, Suits::Hearts), (4, Suits::Clubs)]));
    assert_eq!(kept.cards.len() + leftover.cards.len(), hand.cards.len());
    // Where no value repeats nothing is set aside.
    let (kept_again, nothing) = kept.set_aside_duplicates();
    assert_eq!(kept_again, kept);
    assert_eq!(nothing, Hand { cards: vec![], size: 0 });
}

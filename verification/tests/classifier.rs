use poker_hands::card::Card;
use poker_hands::hand::Hand;
use poker_hands::suit::Suits;
use poker_hands::valid_hands::ValidHands;

fn hand_holding(values: &[(usize, Suits)]) -> Hand {
    Hand {
        cards: values
            .iter()
            .map(|(value, suit)| Card::from_card_value(*value, Some(*suit)))
            .collect(),
        size: values.len(),
    }
}

#[test]
fn three_aces_among_five_spades() {
    let hand = hand_holding(&[
        (14, Suits::Spades),
        (14, Suits::Hearts),
        (14, Suits::Clubs),
        (10, Suits::Spades),
        (12, Suits::Spades),
        (5, Suits::Spades),
        (6, Suits::Spades),
        (11, Suits::Hearts),
    ]);
    let found = hand.contains();
    let blank = Card::blank();
    let spade = |value: usize| Card::from_card_value(value, Some(Suits::Spades));
    // Three of a kind, the three Aces; no pair, no straight, no full house.
    // The Ace, Queen, 10, 6 and 5 of Spades are five cards of one suit.
    assert_eq!(
        found,
        vec![
            ValidHands::Flush(spade(14), spade(12), spade(10), spade(6), spade(5)),
            ValidHands::ThreeOAK(blank, blank, blank),
        ]
    );
    assert_eq!(ValidHands::has_n_of_a_kind(hand.clone(), 2), None);
    assert_eq!(ValidHands::has_straight(hand.clone()), None);
    assert_eq!(ValidHands::has_full_house(hand.clone()), None);
    assert_eq!(ValidHands::has_two_pair(hand.clone()), None);
    assert_eq!(ValidHands::has_n_of_a_kind(hand.clone(), 4), None);
    assert_eq!(ValidHands::has_straight_flush(hand), None);
}

#[test]
fn straight_and_flush_at_once() {
    let hand = hand_holding(&[
        (2, Suits::Spades),
        (3, Suits::Spades),
        (4, Suits::Spades),
        (5, Suits::Spades),
        (6, Suits::Spades),
        (3, Suits::Hearts),
        (4, Suits::Hearts),
        (4, Suits::Hearts),
    ]);
    let found = hand.contains();
    let blank = Card::blank();
    let spade = |value: usize| Card::from_card_value(value, Some(Suits::Spades));
    let straight = ValidHands::Straight(spade(2), spade(3), spade(4), spade(5), spade(6));
    let flush = ValidHands::Flush(spade(6), spade(5), spade(4), spade(3), spade(2));
    assert!(found.contains(&straight));
    assert!(found.contains(&flush));
    assert_eq!(
        found,
        vec![
            ValidHands::StraightFlush(spade(2), spade(3), spade(4), spade(5), spade(6)),
            ValidHands::FullHouse(blank, blank, blank, blank, blank),
            flush,
            straight,
            ValidHands::ThreeOAK(blank, blank, blank),
            ValidHands::TwoPair(blank, blank, blank, blank),
            ValidHands::Pair(blank, blank),
        ]
    );
}

#[test]
fn nothing_in_a_mixed_hand() {
    let hand = hand_holding(&[
        (2, Suits::Spades),
        (9, Suits::Hearts),
        (4, Suits::Clubs),
        (13, Suits::Diamonds),
        (6, Suits::Spades),
        (11, Suits::Hearts),
    ]);
    assert_eq!(hand.contains(), Vec::<ValidHands>::new());
}

#[test]
fn four_of_a_kind_stands_alone() {
    let hand = hand_holding(&[
        (8, Suits::Spades),
        (8, Suits::Hearts),
        (8, Suits::Clubs),
        (8, Suits::Diamonds),
        (13, Suits::Diamonds),
        (2, Suits::Hearts),
    ]);
    let blank = Card::blank();
    assert_eq!(hand.contains(), vec![ValidHands::FourOAK(blank, blank, blank, blank)]);
}

#[test]
fn classifying_leaves_the_hand_alone() {
    let hand = hand_holding(&[
        (9, Suits::Spades),
        (14, Suits::Hearts),
        (2, Suits::Spades),
        (14, Suits::Clubs),
        (5, Suits::Spades),
        (3, Suits::Spades),
        (4, Suits::Spades),
    ]);
    let before = hand.clone();
    let _ = hand.contains();
    assert_eq!(hand, before);
}

#[test]
fn categories_as_text() {
    let heart = |value: usize| Card::from_card_value(value, Some(Suits::Hearts));
    let blank = Card::blank();
    assert_eq!(
        ValidHands::Pair(heart(9), Card::from_card_value(9, Some(Suits::Clubs))).to_text(),
        "Pair:\nHearts 9\nClubs 9\n"
    );
    assert_eq!(
        ValidHands::Straight(heart(10), heart(11), heart(12), heart(13), heart(14)).to_text(),
        "Straight:\nHearts 10\nHearts Jack\nHearts Queen\nHearts King\nHearts Ace\n"
    );
    assert_eq!(
        ValidHands::ThreeOAK(blank, blank, blank).to_text(),
        "3OAK:\nBlank No Rank Set.\nBlank No Rank Set.\nBlank No Rank Set.\n"
    );
    assert_eq!(ValidHands::TwoPair(blank, blank, blank, blank).name(), "Two Pair");
    assert_eq!(ValidHands::FourOAK(blank, blank, blank, blank).name(), "4OAK");
    assert_eq!(ValidHands::FullHouse(blank, blank, blank, blank, blank).name(), "Full House");
    assert_eq!(ValidHands::Flush(blank, blank, blank, blank, blank).name(), "Flush");
    assert_eq!(
        ValidHands::StraightFlush(blank, blank, blank, blank, blank).name(),
        "Straight Flush"
    );
    assert_eq!(
        ValidHands::Flush(heart(13), heart(9), heart(7), heart(4), heart(2)).evidence(),
        vec![heart(13), heart(9), heart(7), heart(4), heart(2)]
    );
    assert_eq!(ValidHands::Pair(heart(3), blank).evidence(), vec![heart(3), blank]);
}

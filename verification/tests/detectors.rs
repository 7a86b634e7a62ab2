use poker_hands::card::Card;
use poker_hands::hand::Hand;
use poker_hands::suit::Suits;
use poker_hands::valid_hands::ValidHands;

fn hand_of(values: &[(usize, Suits)]) -> Hand {
    Hand {
        cards: values
            .iter()
            .map(|(value, suit)| Card::from_card_value(*value, Some(*suit)))
            .collect(),
        size: values.len(),
    }
}

fn spades(values: &[usize]) -> Hand {
    Hand {
        cards: values.iter().map(|value| Card::from_card_value(*value, None)).collect(),
        size: values.len(),
    }
}

#[test]
fn finds_n_of_a_kind() {
    let hands = vec![
        // three cards of the highest value
        Hand {
            cards: vec![
                Card::from_card_value(14, Some(Suits::Hearts)),
                Card::from_card_value(14, Some(Suits::Spades)),
                Card::from_card_value(14, Some(Suits::Clubs)),
                Card::from_card_value(10, Some(Suits::Spades)),
                Card::from_card_value(12, Some(Suits::Spades)),
                Card::from_card_value(5, Some(Suits::Spades)),
                Card::from_card_value(6, Some(Suits::Spades)),
                Card::from_card_value(11, Some(Suits::Hearts)),
            ],
            size: 8,
        },
        // a pair in the middle of the values
        Hand {
            cards: vec![
                Card::from_card_value(7, Some(Suits::Hearts)),
                Card::from_card_value(7, Some(Suits::Spades)),
                Card::from_card_value(3, Some(Suits::Spades)),
                Card::from_card_value(4, Some(Suits::Spades)),
                Card::from_card_value(5, Some(Suits::Spades)),
                Card::from_card_value(6, Some(Suits::Spades)),
                Card::from_card_value(12, Some(Suits::Clubs)),
                Card::from_card_value(11, Some(Suits::Hearts)),
            ],
            size: 8,
        },
        // four cards of one value
        Hand {
            cards: vec![
                Card::from_card_value(7, Some(Suits::Hearts)),
                Card::from_card_value(7, Some(Suits::Spades)),
                Card::from_card_value(7, Some(Suits::Spades)),
                Card::from_card_value(7, Some(Suits::Spades)),
                Card::from_card_value(5, Some(Suits::Spades)),
                Card::from_card_value(6, Some(Suits::Spades)),
                Card::from_card_value(12, Some(Suits::Clubs)),
                Card::from_card_value(11, Some(Suits::Hearts)),
            ],
            size: 8,
        },
    ];

    for (idx, mut hand) in hands.into_iter().enumerate() {
        hand.sort_by_rank_ace_high();
        match idx {
            0 => {
                assert_eq!(
                    ValidHands::has_n_of_a_kind(hand.clone(), 3),
                    Some((
                        ValidHands::ThreeOAK(Card::blank(), Card::blank(), Card::blank()),
                        hand
                    )),
                    "Failed on case {}",
                    idx
                )
            }
            1 => {
                assert_eq!(
                    ValidHands::has_n_of_a_kind(hand.clone(), 2),
                    Some((ValidHands::Pair(Card::blank(), Card::blank()), hand)),
                    "Failed on case {}",
                    idx
                )
            }
            2 => {
                assert_eq!(
                    ValidHands::has_n_of_a_kind(hand.clone(), 4),
                    Some((
                        ValidHands::FourOAK(
                            Card::blank(),
                            Card::blank(),
                            Card::blank(),
                            Card::blank()
                        ),
                        hand
                    )),
                    "Failed on case {}",
                    idx
                )
            }
            _ => panic!("Index out of range. Missing test cases."),
        }
    }
}

#[test]
fn finds_two_pair() {
    let hands = vec![
        Hand {
            cards: vec![
                Card::from_card_value(14, Some(Suits::Hearts)),
                Card::from_card_value(14, Some(Suits::Spades)),
                Card::from_card_value(10, Some(Suits::Clubs)),
                Card::from_card_value(10, Some(Suits::Spades)),
                Card::from_card_value(12, Some(Suits::Spades)),
                Card::from_card_value(5, Some(Suits::Spades)),
                Card::from_card_value(6, Some(Suits::Spades)),
                Card::from_card_value(11, Some(Suits::Hearts)),
            ],
            size: 8,
        },
    ];

    for (idx, hand) in hands.into_iter().enumerate() {
        assert_eq!(
            ValidHands::has_two_pair(hand.clone()),
            Some((
                ValidHands::TwoPair(Card::blank(), Card::blank(), Card::blank(), Card::blank(),),
                hand
            )),
            "Failed on case {}",
            idx
        )
    }
}

#[test]
fn finds_flush() {
    let hand = Hand {
        cards: vec![
            Card::from_card_value(14, Some(Suits::Spades)),
            Card::from_card_value(3, Some(Suits::Spades)),
            Card::from_card_value(4, Some(Suits::Spades)),
            Card::from_card_value(5, Some(Suits::Spades)),
            Card::from_card_value(6, Some(Suits::Spades)),
            Card::from_card_value(10, Some(Suits::Hearts)),
            Card::from_card_value(11, Some(Suits::Hearts)),
            Card::from_card_value(12, Some(Suits::Clubs)),
        ],
        size: 8,
    };

    // The five spades, highest first: Ace, 6, 5, 4, 3.
    assert_eq!(
        ValidHands::detect_flush(hand.clone()),
        Some((
            ValidHands::Flush(
                hand.cards[0].clone(),
                hand.cards[4].clone(),
                hand.cards[3].clone(),
                hand.cards[2].clone(),
                hand.cards[1].clone(),
            ),
            hand
        ))
    )
}

#[test]
fn finds_straight() {
    let hands = vec![
        // values that occur more than once must not break the run
        Hand {
            cards: vec![
                Card::from_card_value(2, None),
                Card::from_card_value(3, None),
                Card::from_card_value(3, None),
                Card::from_card_value(4, None),
                Card::from_card_value(4, None),
                Card::from_card_value(4, None),
                Card::from_card_value(5, None),
                Card::from_card_value(6, None),
            ],
            size: 8,
        },
        // the Ace counts as 1 below the 2
        Hand {
            cards: vec![
                Card::from_card_value(14, None),
                Card::from_card_value(2, None),
                Card::from_card_value(3, None),
                Card::from_card_value(4, None),
                Card::from_card_value(5, None),
                Card::from_card_value(7, None),
                Card::from_card_value(8, None),
                Card::from_card_value(9, None),
            ],
            size: 8,
        },
        // the Ace counts as 14 above the King
        Hand {
            cards: vec![
                Card::from_card_value(4, None),
                Card::from_card_value(5, None),
                Card::from_card_value(6, None),
                Card::from_card_value(10, None),
                Card::from_card_value(11, None),
                Card::from_card_value(12, None),
                Card::from_card_value(13, None),
                Card::from_card_value(14, None),
            ],
            size: 8,
        },
    ];
    // The cards of each straight, lowest value first.
    let runs: Vec<[usize; 5]> = vec![[2, 3, 4, 5, 6], [2, 3, 4, 5, 14], [10, 11, 12, 13, 14]];
    for (idx, hand) in hands.into_iter().enumerate() {
        let run = runs[idx];
        assert_eq!(
            ValidHands::has_straight(hand.clone()),
            Some((
                ValidHands::Straight(
                    Card::from_card_value(run[0], None),
                    Card::from_card_value(run[1], None),
                    Card::from_card_value(run[2], None),
                    Card::from_card_value(run[3], None),
                    Card::from_card_value(run[4], None),
                ),
                hand,
            )),
            "Failed on case {}",
            idx
        );
    }
}

#[test]
fn finds_full_house() {
    let hands = vec![
        Hand {
            cards: vec![
                Card::from_card_value(4, Some(Suits::Hearts)),
                Card::from_card_value(4, Some(Suits::Hearts)),
                Card::from_card_value(7, Some(Suits::Hearts)),
                Card::from_card_value(8, Some(Suits::Spades)),
                Card::from_card_value(9, Some(Suits::Spades)),
                Card::from_card_value(14, Some(Suits::Spades)),
                Card::from_card_value(14, Some(Suits::Spades)),
                Card::from_card_value(14, Some(Suits::Spades)),
            ],
            size: 8,
        },
    ];
    for (idx, hand) in hands.into_iter().enumerate() {
        assert_eq!(
            ValidHands::has_full_house(hand.clone()),
            Some((
                ValidHands::FullHouse(
                    Card::blank(),
                    Card::blank(),
                    Card::blank(),
                    Card::blank(),
                    Card::blank(),
                ),
                hand,
            )),
            "Failed on case {}",
            idx
        );
    }
}

#[test]
fn finds_straight_flush() {
    let hands = vec![
        // values that occur more than once must not break the run
        Hand {
            cards: vec![
                Card::from_card_value(2, Some(Suits::Spades)),
                Card::from_card_value(3, Some(Suits::Spades)),
                Card::from_card_value(4, Some(Suits::Spades)),
                Card::from_card_value(5, Some(Suits::Spades)),
                Card::from_card_value(6, Some(Suits::Spades)),
                Card::from_card_value(3, Some(Suits::Hearts)),
                Card::from_card_value(4, Some(Suits::Hearts)),
                Card::from_card_value(4, Some(Suits::Hearts)),
            ],
            size: 8,
        },
        // the Ace counts as 1 below the 2
        Hand {
            cards: vec![
                Card::from_card_value(2, Some(Suits::Spades)),
                Card::from_card_value(3, Some(Suits::Spades)),
                Card::from_card_value(4, Some(Suits::Spades)),
                Card::from_card_value(5, Some(Suits::Spades)),
                Card::from_card_value(14, Some(Suits::Spades)),
                Card::from_card_value(7, Some(Suits::Hearts)),
                Card::from_card_value(8, Some(Suits::Hearts)),
                Card::from_card_value(9, Some(Suits::Hearts)),
            ],
            size: 8,
        },
        // the Ace counts as 14 above the King
        Hand {
            cards: vec![
                Card::from_card_value(10, Some(Suits::Spades)),
                Card::from_card_value(11, Some(Suits::Spades)),
                Card::from_card_value(12, Some(Suits::Spades)),
                Card::from_card_value(13, Some(Suits::Spades)),
                Card::from_card_value(14, Some(Suits::Spades)),
                Card::from_card_value(4, Some(Suits::Hearts)),
                Card::from_card_value(5, Some(Suits::Hearts)),
                Card::from_card_value(6, Some(Suits::Hearts)),
            ],
            size: 8,
        },
    ];
    for (idx, hand) in hands.into_iter().enumerate() {
        assert_eq!(
            ValidHands::has_straight_flush(hand.clone()),
            Some((
                ValidHands::StraightFlush(
                    hand.cards[0],
                    hand.cards[1],
                    hand.cards[2],
                    hand.cards[3],
                    hand.cards[4],
                ),
                hand,
            )),
            "Failed on case {}",
            idx
        );
    }
}

#[test]
fn n_of_a_kind_counts_exactly() {
    // Four sevens are four of a kind, and by themselves neither a pair nor
    // three of a kind.
    let hand = spades(&[7, 7, 7, 7, 5, 6, 12, 11]);
    assert!(ValidHands::has_n_of_a_kind(hand.clone(), 4).is_some());
    assert_eq!(ValidHands::has_n_of_a_kind(hand.clone(), 3), None);
    assert_eq!(ValidHands::has_n_of_a_kind(hand.clone(), 2), None);
    // A pair beside them is found as a pair.
    let hand = spades(&[7, 7, 7, 7, 5, 5, 12, 11]);
    assert_eq!(
        ValidHands::has_n_of_a_kind(hand.clone(), 2),
        Some((ValidHands::Pair(Card::blank(), Card::blank()), hand))
    );
}

#[test]
fn n_of_a_kind_knows_only_two_three_and_four() {
    let hand = spades(&[9, 9, 9, 9, 9, 2, 3, 4]);
    assert_eq!(ValidHands::has_n_of_a_kind(hand.clone(), 5), None);
    assert_eq!(ValidHands::has_n_of_a_kind(hand.clone(), 1), None);
    assert_eq!(ValidHands::has_n_of_a_kind(hand.clone(), 0), None);
    assert_eq!(ValidHands::has_n_of_a_kind(hand, 4), None);
}

#[test]
fn no_pair_among_distinct_values() {
    let hand = spades(&[2, 4, 6, 8, 10, 12]);
    assert_eq!(ValidHands::has_n_of_a_kind(hand.clone(), 2), None);
    assert_eq!(ValidHands::has_two_pair(hand.clone()), None);
    assert_eq!(ValidHands::has_full_house(hand), None);
}

#[test]
fn two_pair_needs_two_different_values() {
    // A triple and a pair are two values that are held twice.
    let hand = spades(&[14, 14, 14, 10, 10]);
    assert_eq!(
        ValidHands::has_two_pair(hand.clone()),
        Some((
            ValidHands::TwoPair(Card::blank(), Card::blank(), Card::blank(), Card::blank()),
            hand
        ))
    );
    // A triple alone is not, nor are four of a kind.
    assert_eq!(ValidHands::has_two_pair(spades(&[14, 14, 14, 10, 9])), None);
    assert_eq!(ValidHands::has_two_pair(spades(&[14, 14, 14, 14, 9])), None);
    assert_eq!(ValidHands::has_two_pair(spades(&[14, 14, 3, 10, 9])), None);
}

#[test]
fn full_house_of_two_triples() {
    let hand = hand_of(&[
        (14, Suits::Spades),
        (14, Suits::Hearts),
        (14, Suits::Clubs),
        (7, Suits::Spades),
        (7, Suits::Hearts),
        (7, Suits::Clubs),
    ]);
    assert_eq!(
        ValidHands::has_full_house(hand.clone()),
        Some((
            ValidHands::FullHouse(
                Card::blank(),
                Card::blank(),
                Card::blank(),
                Card::blank(),
                Card::blank(),
            ),
            hand.clone(),
        ))
    );
    // The classifier reports one full house, not two.
    let full_houses = hand
        .contains()
        .into_iter()
        .filter(|category| matches!(category, ValidHands::FullHouse(..)))
        .count();
    assert_eq!(full_houses, 1);
}

#[test]
fn full_house_needs_a_second_value() {
    assert_eq!(ValidHands::has_full_house(spades(&[9, 9, 9, 2, 3])), None);
    assert_eq!(ValidHands::has_full_house(spades(&[9, 9, 9, 9, 3])), None);
    assert_eq!(ValidHands::has_full_house(spades(&[9, 9, 8, 8, 3])), None);
    assert!(ValidHands::has_full_house(spades(&[9, 9, 8, 8, 8])).is_some());
    assert!(ValidHands::has_full_house(spades(&[9, 9, 9, 9, 8, 8])).is_some());
}

#[test]
fn flush_takes_the_five_highest_of_the_suit() {
    let hand = hand_of(&[
        (3, Suits::Hearts),
        (9, Suits::Hearts),
        (14, Suits::Clubs),
        (2, Suits::Hearts),
        (13, Suits::Hearts),
        (7, Suits::Hearts),
        (11, Suits::Hearts),
        (5, Suits::Hearts),
    ]);
    let heart = |value: usize| Card::from_card_value(value, Some(Suits::Hearts));
    assert_eq!(
        ValidHands::detect_flush(hand.clone()),
        Some((ValidHands::Flush(heart(13), heart(11), heart(9), heart(7), heart(5)), hand))
    );
}

#[test]
fn flush_of_the_first_suit_in_order() {
    // Five clubs and five hearts: Hearts is searched before Clubs.
    let hand = hand_of(&[
        (2, Suits::Clubs),
        (3, Suits::Clubs),
        (4, Suits::Clubs),
        (5, Suits::Clubs),
        (7, Suits::Clubs),
        (8, Suits::Hearts),
        (9, Suits::Hearts),
        (10, Suits::Hearts),
        (12, Suits::Hearts),
        (13, Suits::Hearts),
    ]);
    let heart = |value: usize| Card::from_card_value(value, Some(Suits::Hearts));
    assert_eq!(
        ValidHands::detect_flush(hand.clone()),
        Some((ValidHands::Flush(heart(13), heart(12), heart(10), heart(9), heart(8)), hand))
    );
}

#[test]
fn no_flush_with_four_of_a_suit() {
    let hand = hand_of(&[
        (2, Suits::Clubs),
        (3, Suits::Clubs),
        (4, Suits::Clubs),
        (5, Suits::Clubs),
        (7, Suits::Hearts),
        (8, Suits::Hearts),
        (9, Suits::Diamonds),
        (10, Suits::Spades),
    ]);
    assert_eq!(ValidHands::detect_flush(hand), None);
}

#[test]
fn straight_at_every_height() {
    for low in 2..=10usize {
        let hand = spades(&[low + 2, low, low + 4, low + 1, low + 3]);
        let spade = |value: usize| Card::from_card_value(value, None);
        assert_eq!(
            ValidHands::has_straight(hand.clone()),
            Some((
                ValidHands::Straight(
                    spade(low),
                    spade(low + 1),
                    spade(low + 2),
                    spade(low + 3),
                    spade(low + 4)
                ),
                hand
            )),
            "no straight from {}",
            low
        );
    }
}

#[test]
fn straight_with_the_ace_low() {
    let hand = spades(&[14, 2, 3, 4, 5]);
    let spade = |value: usize| Card::from_card_value(value, None);
    assert_eq!(
        ValidHands::has_straight(hand.clone()),
        Some((ValidHands::Straight(spade(2), spade(3), spade(4), spade(5), spade(14)), hand))
    );
}

#[test]
fn no_straight_across_a_gap() {
    assert_eq!(ValidHands::has_straight(spades(&[2, 3, 4, 5, 7])), None);
    assert_eq!(ValidHands::has_straight(spades(&[2, 2, 3, 4, 5, 7, 7, 7])), None);
    assert_eq!(ValidHands::has_straight(spades(&[7, 5, 4, 3, 2, 2])), None);
}

#[test]
fn no_straight_in_five_equal_values() {
    assert_eq!(ValidHands::has_straight(spades(&[9, 9, 9, 9, 9])), None);
}

#[test]
fn no_straight_round_the_ace() {
    // King, Ace, 2, 3, 4 is no straight: the Ace is either end, not both.
    assert_eq!(ValidHands::has_straight(spades(&[13, 14, 2, 3, 4])), None);
    assert_eq!(ValidHands::has_straight(spades(&[12, 13, 14, 2, 3])), None);
}

#[test]
fn highest_of_several_straights() {
    let hand = spades(&[3, 4, 5, 6, 7, 8, 9]);
    let spade = |value: usize| Card::from_card_value(value, None);
    assert_eq!(
        ValidHands::has_straight(hand.clone()),
        Some((ValidHands::Straight(spade(5), spade(6), spade(7), spade(8), spade(9)), hand))
    );
    // With the Ace and 2 to 6 the run from 2 is taken before the Ace-low one.
    let hand = spades(&[14, 2, 3, 4, 5, 6]);
    assert_eq!(
        ValidHands::has_straight(hand.clone()),
        Some((ValidHands::Straight(spade(2), spade(3), spade(4), spade(5), spade(6)), hand))
    );
}

#[test]
fn straight_names_the_first_card_of_each_value() {
    let hand = hand_of(&[
        (6, Suits::Clubs),
        (4, Suits::Hearts),
        (5, Suits::Diamonds),
        (4, Suits::Spades),
        (3, Suits::Hearts),
        (2, Suits::Clubs),
        (6, Suits::Hearts),
        (2, Suits::Spades),
    ]);
    assert_eq!(
        ValidHands::has_straight(hand.clone()),
        Some((
            ValidHands::Straight(
                Card::from_card_value(2, Some(Suits::Clubs)),
                Card::from_card_value(3, Some(Suits::Hearts)),
                Card::from_card_value(4, Some(Suits::Hearts)),
                Card::from_card_value(5, Some(Suits::Diamonds)),
                Card::from_card_value(6, Some(Suits::Clubs)),
            ),
            hand
        ))
    );
}

#[test]
fn straight_flush_skips_a_suit_without_a_straight() {
    // Six spades without a run, and five hearts in a row.
    let hand = hand_of(&[
        (2, Suits::Spades),
        (4, Suits::Spades),
        (6, Suits::Spades),
        (8, Suits::Spades),
        (10, Suits::Spades),
        (12, Suits::Spades),
        (9, Suits::Hearts),
        (8, Suits::Hearts),
        (7, Suits::Hearts),
        (6, Suits::Hearts),
        (5, Suits::Hearts),
    ]);
    let heart = |value: usize| Card::from_card_value(value, Some(Suits::Hearts));
    assert_eq!(
        ValidHands::has_straight_flush(hand.clone()),
        Some((ValidHands::StraightFlush(heart(5), heart(6), heart(7), heart(8), heart(9)), hand))
    );
}

#[test]
fn straight_and_flush_are_no_straight_flush() {
    // Five spades, and a straight that needs a heart.
    let hand = hand_of(&[
        (2, Suits::Spades),
        (3, Suits::Spades),
        (4, Suits::Spades),
        (5, Suits::Spades),
        (9, Suits::Spades),
        (6, Suits::Hearts),
    ]);
    assert!(ValidHands::has_straight(hand.clone()).is_some());
    assert!(ValidHands::detect_flush(hand.clone()).is_some());
    assert_eq!(ValidHands::has_straight_flush(hand), None);
}

#[test]
fn detectors_give_the_hand_back_as_it_was() {
    let hand = hand_of(&[
        (9, Suits::Spades),
        (14, Suits::Spades),
        (2, Suits::Spades),
        (14, Suits::Clubs),
        (5, Suits::Spades),
        (3, Suits::Spades),
        (4, Suits::Spades),
    ]);
    let (_, after) = ValidHands::has_straight(hand.clone()).unwrap();
    assert_eq!(after, hand);
    let (_, after) = ValidHands::detect_flush(hand.clone()).unwrap();
    assert_eq!(after, hand);
    let (_, after) = ValidHands::has_straight_flush(hand.clone()).unwrap();
    assert_eq!(after, hand);
    let (_, after) = ValidHands::has_n_of_a_kind(hand.clone(), 2).unwrap();
    assert_eq!(after, hand);
}

//! A hand of cards and the views of it that the detectors query: the cards
//! sorted, the values held in each suit, how often each value occurs, and
//! the runs of equal values.

use vstd::prelude::*;
use std::collections::HashMap;
use crate::card::Card;
use crate::sorting::{arranged, sort_cards, SortBy};
use crate::suit::Suits;
use crate::valid_hands::{categories, category_of, present, ValidHands};

verus! {

/// An ordered collection of cards. `size` is the number of cards the hand is
/// meant to hold once it has been dealt to; nothing else depends on it.
#[derive(Debug, Clone, PartialEq)]
pub struct Hand {
    pub cards: Vec<Card>,
    pub size: usize,
}

/// The values held in each suit: for every suit the values of its cards, in
/// the order in which the hand holds them. A suit of which the hand holds no
/// card has no values.
#[derive(Debug, Clone, PartialEq, Eq)]
pub struct SuitBuckets {
    spades: Vec<usize>,
    hearts: Vec<usize>,
    clubs: Vec<usize>,
    diamonds: Vec<usize>,
    unset: Vec<usize>,
}

impl SuitBuckets {
    /// The values held in `suit`.
    pub closed spec fn values(&self, suit: Suits) -> Seq<usize> {
        match suit {
            Suits::Spades => self.spades@,
            Suits::Hearts => self.hearts@,
            Suits::Clubs => self.clubs@,
            Suits::Diamonds => self.diamonds@,
            Suits::Blank => self.unset@,
        }
    }

    /// Buckets without any value.
    pub fn new() -> (buckets: SuitBuckets)
        ensures
            forall|suit: Suits| #[trigger] buckets.values(suit) == Seq::<usize>::empty(),
    {
        SuitBuckets {
            spades: Vec::new(),
            hearts: Vec::new(),
            clubs: Vec::new(),
            diamonds: Vec::new(),
            unset: Vec::new(),
        }
    }

    /// Sets the values held in `suit`; the other suits keep theirs.
    pub fn insert(&mut self, suit: Suits, values: Vec<usize>)
        ensures
            final(self).values(suit) == values@,
            forall|other: Suits|
                other != suit ==> #[trigger] final(self).values(other) == old(self).values(other),
    {
        match suit {
            Suits::Spades => self.spades = values,
            Suits::Hearts => self.hearts = values,
            Suits::Clubs => self.clubs = values,
            Suits::Diamonds => self.diamonds = values,
            Suits::Blank => self.unset = values,
        }
    }

    /// The values held in `suit`.
    pub fn get(&self, suit: Suits) -> (values: &Vec<usize>)
        ensures
            values@ == self.values(suit),
    {
        match suit {
            Suits::Spades => &self.spades,
            Suits::Hearts => &self.hearts,
            Suits::Clubs => &self.clubs,
            Suits::Diamonds => &self.diamonds,
            Suits::Blank => &self.unset,
        }
    }

    /// Adds `value` behind the values held in `suit`.
    fn add(&mut self, suit: Suits, value: usize)
        ensures
            final(self).values(suit) == old(self).values(suit).push(value),
            forall|other: Suits|
                other != suit ==> #[trigger] final(self).values(other) == old(self).values(other),
    {
        match suit {
            Suits::Spades => self.spades.push(value),
            Suits::Hearts => self.hearts.push(value),
            Suits::Clubs => self.clubs.push(value),
            Suits::Diamonds => self.diamonds.push(value),
            Suits::Blank => self.unset.push(value),
        }
    }
}

/// The cards of a value.
pub open spec fn with_value(value: int) -> spec_fn(Card) -> bool {
    |card: Card| card.value == value
}

/// How many of `cards` have the value `value`.
pub open spec fn count_of_value(cards: Seq<Card>, value: nat) -> nat {
    cards.filter(with_value(value as int)).len()
}

/// The frequency map of `cards`: each value that occurs, with the number of
/// cards that have it.
pub open spec fn frequency_map(cards: Seq<Card>) -> Map<usize, usize> {
    Map::new(
        |value: usize| count_of_value(cards, value as nat) > 0,
        |value: usize| count_of_value(cards, value as nat) as usize,
    )
}

/// The sum of the counts of a frequency map.
pub open spec fn total_count(counts: Map<usize, usize>) -> nat
    decreases counts.dom().len(),
    when counts.dom().finite()
{
    if counts.dom().len() == 0 {
        0
    } else {
        let value = counts.dom().choose();
        counts[value] as nat + total_count(counts.remove(value))
    }
}

/// The cards of a suit.
pub open spec fn in_suit(suit: Suits) -> spec_fn(Card) -> bool {
    |card: Card| card.suit == suit
}

/// The cards of `cards` that are of `suit`, in the order in which `cards`
/// holds them.
pub open spec fn cards_of_suit(cards: Seq<Card>, suit: Suits) -> Seq<Card> {
    cards.filter(in_suit(suit))
}

/// The values of the cards of `suit`, in the order in which `cards` holds
/// them.
pub open spec fn values_of_suit(cards: Seq<Card>, suit: Suits) -> Seq<usize> {
    cards_of_suit(cards, suit).map_values(|card: Card| card.value)
}

/// The value by which a card is placed in a run: its value, but 1 for an
/// Ace (value 14) where the Ace is counted low.
pub open spec fn run_key(value: usize, ace_high: bool) -> usize {
    if !ace_high && value == 14 {
        1
    } else {
        value
    }
}

/// The run keys of `cards`, card by card.
pub open spec fn run_keys(cards: Seq<Card>, ace_high: bool) -> Seq<usize> {
    cards.map_values(|card: Card| run_key(card.value, ace_high))
}

/// The run-length encoding of `keys`: one pair of length and key for each
/// maximal stretch of equal neighbours.
pub open spec fn run_lengths(keys: Seq<usize>) -> Seq<(usize, usize)>
    decreases keys.len(),
{
    if keys.len() == 0 {
        Seq::empty()
    } else {
        let runs = run_lengths(keys.drop_last());
        if runs.len() > 0 && runs.last().1 == keys.last() {
            runs.update(runs.len() - 1, ((runs.last().0 + 1) as usize, keys.last()))
        } else {
            runs.push((1usize, keys.last()))
        }
    }
}

/// The keys that `runs` encodes: each key as often as its length says.
pub open spec fn expanded(runs: Seq<(usize, usize)>) -> Seq<usize>
    decreases runs.len(),
{
    if runs.len() == 0 {
        Seq::empty()
    } else {
        expanded(runs.drop_last()) + Seq::new(runs.last().0 as nat, |i: int| runs.last().1)
    }
}

/// One more card is one more card of its value, and of no other.
pub proof fn lemma_count_push(cards: Seq<Card>, card: Card, value: nat)
    ensures
        count_of_value(cards.push(card), value) == count_of_value(cards, value) + if card.value
            == value {
            1nat
        } else {
            0nat
        },
{
    cards.lemma_filter_push(card, with_value(value as int));
}

/// No value occurs more often than there are cards.
pub proof fn lemma_count_at_most_len(cards: Seq<Card>, value: nat)
    ensures
        count_of_value(cards, value) <= cards.len(),
{
    cards.lemma_filter_len(with_value(value as int));
}

/// A value is counted exactly when a card has it.
pub proof fn lemma_count_positive(cards: Seq<Card>, value: nat)
    ensures
        count_of_value(cards, value) > 0 <==> exists|i: int|
            0 <= i < cards.len() && (#[trigger] cards[i]).value == value,
{
    let wanted = with_value(value as int);
    let found = cards.filter(wanted);
    if found.len() > 0 {
        cards.lemma_filter_pred(wanted, 0);
        assert(found.contains(found[0]));
        cards.lemma_filter_contains_rev(wanted, found[0]);
        let i = choose|i: int| 0 <= i < cards.len() && cards[i] == found[0];
        assert(cards[i].value == value);
    }
    if exists|i: int| 0 <= i < cards.len() && (#[trigger] cards[i]).value == value {
        let i = choose|i: int| 0 <= i < cards.len() && (#[trigger] cards[i]).value == value;
        assert(wanted(cards[i]));
        cards.lemma_filter_contains(wanted, i);
    }
}

/// One more card adds one to the count of its value in the frequency map.
proof fn lemma_frequency_map_push(cards: Seq<Card>, card: Card)
    requires
        cards.len() < usize::MAX,
    ensures
        frequency_map(cards.push(card)) == frequency_map(cards).insert(
            card.value,
            (count_of_value(cards, card.value as nat) + 1) as usize,
        ),
        frequency_map(cards).contains_key(card.value) ==> frequency_map(cards)[card.value]
            == count_of_value(cards, card.value as nat),
        !frequency_map(cards).contains_key(card.value) ==> count_of_value(
            cards,
            card.value as nat,
        ) == 0,
{
    lemma_count_at_most_len(cards, card.value as nat);
    assert forall|value: usize|
        count_of_value(cards.push(card), value as nat) == #[trigger] count_of_value(
            cards,
            value as nat,
        ) + if card.value == value {
            1nat
        } else {
            0nat
        } by {
        lemma_count_push(cards, card, value as nat);
    }
    assert(frequency_map(cards.push(card)) =~= frequency_map(cards).insert(
        card.value,
        (count_of_value(cards, card.value as nat) + 1) as usize,
    ));
}

/// The sum of the counts can be taken in any order: it is the count of any
/// one value and the sum of the others.
proof fn lemma_total_count_remove(counts: Map<usize, usize>, value: usize)
    requires
        counts.dom().finite(),
        counts.contains_key(value),
    ensures
        total_count(counts) == counts[value] + total_count(counts.remove(value)),
    decreases counts.dom().len(),
{
    let chosen = counts.dom().choose();
    if chosen != value {
        lemma_total_count_remove(counts.remove(chosen), value);
        lemma_total_count_remove(counts.remove(value), chosen);
        assert(counts.remove(chosen).remove(value) =~= counts.remove(value).remove(chosen));
    }
}

/// The counts of a frequency map add up to the number of cards.
pub proof fn lemma_frequency_total(cards: Seq<Card>)
    requires
        cards.len() <= usize::MAX,
    ensures
        frequency_map(cards).dom().finite(),
        total_count(frequency_map(cards)) == cards.len(),
    decreases cards.len(),
{
    if cards.len() == 0 {
        assert(frequency_map(cards).dom() =~= Set::<usize>::empty());
    } else {
        let front = cards.drop_last();
        let card = cards.last();
        let counts = frequency_map(front);
        let more = (count_of_value(front, card.value as nat) + 1) as usize;
        lemma_frequency_total(front);
        lemma_frequency_map_push(front, card);
        lemma_count_at_most_len(front, card.value as nat);
        assert(cards =~= front.push(card));
        assert(frequency_map(cards) == counts.insert(card.value, more));
        lemma_total_count_remove(counts.insert(card.value, more), card.value);
        assert(counts.insert(card.value, more).remove(card.value) =~= counts.remove(card.value));
        if counts.contains_key(card.value) {
            lemma_total_count_remove(counts, card.value);
        } else {
            assert(counts.remove(card.value) =~= counts);
        }
    }
}

/// The sum of the lengths of `runs`.
pub open spec fn total_length(runs: Seq<(usize, usize)>) -> nat
    decreases runs.len(),
{
    if runs.len() == 0 {
        0
    } else {
        total_length(runs.drop_last()) + runs.last().0 as nat
    }
}

/// The run-length encoding loses nothing and is the shortest there is: it
/// expands to the keys it was made from, every run has a card, neighbouring
/// runs differ in their key, and the lengths add up to the number of keys.
pub proof fn lemma_run_lengths(keys: Seq<usize>)
    requires
        keys.len() <= usize::MAX,
    ensures
        expanded(run_lengths(keys)) == keys,
        total_length(run_lengths(keys)) == keys.len(),
        forall|i: int|
            0 <= i < run_lengths(keys).len() ==> (#[trigger] run_lengths(keys)[i]).0 >= 1,
        forall|i: int|
            0 <= i < run_lengths(keys).len() - 1 ==> (#[trigger] run_lengths(keys)[i]).1
                != run_lengths(keys)[i + 1].1,
    decreases keys.len(),
{
    let runs = run_lengths(keys);
    if keys.len() == 0 {
        assert(expanded(runs) =~= keys);
    } else {
        let front = keys.drop_last();
        let before = run_lengths(front);
        lemma_run_lengths(front);
        assert(keys =~= front.push(keys.last()));
        if before.len() > 0 && before.last().1 == keys.last() {
            assert(runs.drop_last() =~= before.drop_last());
            assert(total_length(before) == total_length(before.drop_last()) + before.last().0);
            assert(expanded(before) == expanded(before.drop_last()) + Seq::new(
                before.last().0 as nat,
                |i: int| before.last().1,
            ));
            assert(expanded(runs) =~= keys);
            assert forall|i: int| 0 <= i < runs.len() - 1 implies (#[trigger] runs[i]).1
                != runs[i + 1].1 by {
                assert(before[i].1 != before[i + 1].1);
            }
        } else {
            assert(runs.drop_last() =~= before);
            assert(expanded(runs) =~= keys);
            assert forall|i: int| 0 <= i < runs.len() - 1 implies (#[trigger] runs[i]).1
                != runs[i + 1].1 by {
                if i < before.len() - 1 {
                    assert(before[i].1 != before[i + 1].1);
                }
            }
        }
    }
}

/// One more card adds its value to the values of its suit, and to those of
/// no other.
proof fn lemma_values_of_suit_push(cards: Seq<Card>, card: Card)
    ensures
        values_of_suit(cards.push(card), card.suit) == values_of_suit(cards, card.suit).push(
            card.value,
        ),
        forall|other: Suits|
            other != card.suit ==> #[trigger] values_of_suit(cards.push(card), other)
                == values_of_suit(cards, other),
{
    cards.lemma_filter_push(card, in_suit(card.suit));
    assert(values_of_suit(cards.push(card), card.suit) =~= values_of_suit(cards, card.suit).push(
        card.value,
    ));
    assert forall|other: Suits| other != card.suit implies #[trigger] values_of_suit(
        cards.push(card),
        other,
    ) == values_of_suit(cards, other) by {
        cards.lemma_filter_push(card, in_suit(other));
    }
}

/// Adds to `valid_hands` the category that a detector found, if it found
/// one.
fn collect(valid_hands: &mut Vec<ValidHands>, found: Option<(ValidHands, Hand)>)
    ensures
        final(valid_hands)@ == old(valid_hands)@ + present(category_of(found)),
{
    match found {
        Some((category, _)) => {
            valid_hands.push(category);
            assert(valid_hands@ =~= old(valid_hands)@ + seq![category]);
        },
        None => {
            assert(valid_hands@ =~= old(valid_hands)@ + Seq::<ValidHands>::empty());
        },
    }
}

impl Hand {
    /// Every card of the hand is a playing card.
    pub open spec fn wf(&self) -> bool {
        forall|i: int| 0 <= i < self.cards@.len() ==> (#[trigger] self.cards@[i]).is_playing_card()
    }

    /// Whether one of `cards` is an Ace.
    pub open spec fn has_ace(cards: Seq<Card>) -> bool {
        exists|i: int| 0 <= i < cards.len() && (#[trigger] cards[i]).value == 14
    }

    /// Whether every card of the hand is a playing card.
    pub fn is_well_formed(&self) -> (well_formed: bool)
        ensures
            well_formed == self.wf(),
    {
        let mut i: usize = 0;
        while i < self.cards.len()
            invariant
                i <= self.cards.len(),
                forall|j: int| 0 <= j < i ==> (#[trigger] self.cards@[j]).is_playing_card(),
            decreases self.cards.len() - i,
        {
            if !self.cards[i].is_playing() {
                return false;
            }
            i += 1;
        }
        true
    }

    /// An empty hand meant for five cards.
    pub fn default() -> (hand: Hand)
        ensures
            hand.cards@ == Seq::<Card>::empty(),
            hand.size == 5,
    {
        Hand { cards: Vec::new(), size: 5 }
    }

    /// An empty hand meant for `hand_size` cards.
    pub fn of_size(hand_size: usize) -> (hand: Hand)
        ensures
            hand.cards@ == Seq::<Card>::empty(),
            hand.size == hand_size,
    {
        Hand { cards: Vec::new(), size: hand_size }
    }

    /// Appends `cards` to the hand, in their order.
    pub fn add_to_hand(&mut self, mut cards: Vec<Card>)
        ensures
            final(self).cards@ == old(self).cards@ + cards@,
            final(self).size == old(self).size,
    {
        let ghost given = cards@;
        while cards.len() > 0
            invariant
                self.cards@ + cards@ == old(self).cards@ + given,
                self.size == old(self).size,
            decreases cards.len(),
        {
            let ghost before = self.cards@;
            let ghost rest = cards@;
            let card = cards.remove(0);
            self.cards.push(card);
            assert(self.cards@ + cards@ =~= before + rest);
        }
        assert(self.cards@ =~= self.cards@ + cards@);
    }

    /// Whether the hand holds an Ace.
    pub fn contains_ace(&self) -> (has_ace: bool)
        ensures
            has_ace == Hand::has_ace(self.cards@),
    {
        let mut i: usize = 0;
        while i < self.cards.len()
            invariant
                i <= self.cards.len(),
                forall|j: int| 0 <= j < i ==> self.cards@[j].value != 14,
            decreases self.cards.len() - i,
        {
            if self.cards[i].value == 14 {
                return true;
            }
            i += 1;
        }
        false
    }

    /// The values held in each suit.
    pub fn held_suits(&self) -> (buckets: SuitBuckets)
        ensures
            forall|suit: Suits|
                #[trigger] buckets.values(suit) == values_of_suit(self.cards@, suit),
    {
        let mut suit_map = SuitBuckets::new();
        let mut i: usize = 0;
        while i < self.cards.len()
            invariant
                i <= self.cards.len(),
                forall|suit: Suits|
                    #[trigger] suit_map.values(suit) == values_of_suit(
                        self.cards@.take(i as int),
                        suit,
                    ),
            decreases self.cards.len() - i,
        {
            let card = self.cards[i];
            proof {
                lemma_values_of_suit_push(self.cards@.take(i as int), card);
                assert(self.cards@.take(i + 1) =~= self.cards@.take(i as int).push(card));
            }
            suit_map.add(card.suit, card.value);
            i += 1;
        }
        assert(self.cards@.take(i as int) =~= self.cards@);
        suit_map
    }

    /// The frequency map of the hand: how many cards have each value that
    /// the hand holds.
    pub fn get_run_length_hashmap(&self) -> (counts: HashMap<usize, usize>)
        ensures
            counts@ == frequency_map(self.cards@),
    {
        broadcast use vstd::std_specs::hash::group_hash_axioms;

        let mut hm: HashMap<usize, usize> = HashMap::new();
        let mut i: usize = 0;
        while i < self.cards.len()
            invariant
                i <= self.cards.len(),
                hm@ == frequency_map(self.cards@.take(i as int)),
            decreases self.cards.len() - i,
        {
            let value = self.cards[i].value;
            let seen: usize = match hm.get(&value) {
                Some(count) => *count,
                None => 0,
            };
            proof {
                lemma_count_at_most_len(self.cards@.take(i as int), value as nat);
                lemma_frequency_map_push(self.cards@.take(i as int), self.cards@[i as int]);
                assert(self.cards@.take(i + 1) =~= self.cards@.take(i as int).push(
                    self.cards@[i as int],
                ));
            }
            hm.insert(value, seen + 1);
            i += 1;
        }
        assert(self.cards@.take(i as int) =~= self.cards@);
        hm
    }

    /// The run-length encoding of the hand as it is ordered: for each
    /// maximal stretch of neighbouring cards of one value, the number of its
    /// cards and the value. With `ace_high` false an Ace counts as 1.
    pub fn get_run_length_tuples(&self, ace_high: bool) -> (runs: Vec<(usize, usize)>)
        ensures
            runs@ == run_lengths(run_keys(self.cards@, ace_high)),
    {
        let mut result: Vec<(usize, usize)> = Vec::new();
        let mut i: usize = 0;
        while i < self.cards.len()
            invariant
                i <= self.cards.len(),
                result@ == run_lengths(run_keys(self.cards@.take(i as int), ace_high)),
                forall|j: int| 0 <= j < result@.len() ==> (#[trigger] result@[j]).0 <= i,
            decreases self.cards.len() - i,
        {
            let value = self.cards[i].value;
            let key: usize = if !ace_high && value == 14 {
                1
            } else {
                value
            };
            proof {
                assert(run_keys(self.cards@.take(i + 1), ace_high) =~= run_keys(
                    self.cards@.take(i as int),
                    ace_high,
                ).push(key));
                assert(run_keys(self.cards@.take(i as int), ace_high).push(key).drop_last()
                    =~= run_keys(self.cards@.take(i as int), ace_high));
            }
            let n = result.len();
            if n > 0 && result[n - 1].1 == key {
                let run_length = result[n - 1].0;
                result[n - 1] = (run_length + 1, key);
            } else {
                result.push((1, key));
            }
            i += 1;
        }
        assert(self.cards@.take(i as int) =~= self.cards@);
        result
    }

    /// The cards of `suit`, as a hand of their own that is meant to hold
    /// just these.
    pub fn suited(&self, suit: Suits) -> (hand: Hand)
        ensures
            hand.cards@ == cards_of_suit(self.cards@, suit),
            hand.size == hand.cards@.len(),
            self.wf() ==> hand.wf(),
    {
        let mut cards: Vec<Card> = Vec::new();
        let mut i: usize = 0;
        while i < self.cards.len()
            invariant
                i <= self.cards.len(),
                cards@ == cards_of_suit(self.cards@.take(i as int), suit),
                cards@.len() <= i,
                self.wf() ==> forall|j: int|
                    0 <= j < cards@.len() ==> (#[trigger] cards@[j]).is_playing_card(),
            decreases self.cards.len() - i,
        {
            proof {
                assert(self.cards@.take(i + 1) =~= self.cards@.take(i as int).push(
                    self.cards@[i as int],
                ));
                self.cards@.take(i as int).lemma_filter_push(self.cards@[i as int], in_suit(suit));
            }
            if self.cards[i].suit == suit {
                cards.push(self.cards[i]);
            }
            i += 1;
        }
        assert(self.cards@.take(i as int) =~= self.cards@);
        let size = cards.len();
        Hand { cards, size }
    }

    /// A hand of the same cards and size.
    pub(crate) fn copy(&self) -> (copy: Hand)
        ensures
            copy.cards@ == self.cards@,
            copy.size == self.size,
    {
        let mut cards: Vec<Card> = Vec::new();
        let mut i: usize = 0;
        while i < self.cards.len()
            invariant
                i <= self.cards.len(),
                cards@ == self.cards@.take(i as int),
            decreases self.cards.len() - i,
        {
            cards.push(self.cards[i]);
            assert(self.cards@.take(i + 1) =~= self.cards@.take(i as int).push(
                self.cards@[i as int],
            ));
            i += 1;
        }
        assert(self.cards@.take(i as int) =~= self.cards@);
        Hand { cards, size: self.size }
    }

    /// Classifies the hand: runs every detector on the hand as it is and
    /// collects what they find, the strongest category first. A hand can
    /// belong to several categories at once, and cards can count for more
    /// than one of them.
    pub fn contains(&self) -> (valid_hands: Vec<ValidHands>)
        requires
            self.cards@.len() >= 5,
            self.wf(),
        ensures
            valid_hands@ == categories(self.cards@),
    {
        let mut valid_hands: Vec<ValidHands> = Vec::new();
        collect(&mut valid_hands, ValidHands::has_straight_flush(self.copy()));
        collect(&mut valid_hands, ValidHands::has_n_of_a_kind(self.copy(), 4));
        collect(&mut valid_hands, ValidHands::has_full_house(self.copy()));
        collect(&mut valid_hands, ValidHands::detect_flush(self.copy()));
        collect(&mut valid_hands, ValidHands::has_straight(self.copy()));
        collect(&mut valid_hands, ValidHands::has_n_of_a_kind(self.copy(), 3));
        collect(&mut valid_hands, ValidHands::has_two_pair(self.copy()));
        collect(&mut valid_hands, ValidHands::has_n_of_a_kind(self.copy(), 2));
        valid_hands
    }

    /// Sorts the hand by value, largest first, so that an Ace leads. Cards of
    /// equal value keep their order.
    pub fn sort_by_rank_ace_high(&mut self)
        ensures
            final(self).cards@ == arranged(SortBy::ValueDescending, old(self).cards@),
            final(self).size == old(self).size,
    {
        sort_cards(&mut self.cards, SortBy::ValueDescending);
    }

    /// Sorts the hand by the value that counts the Ace as 1, smallest first,
    /// so that an Ace leads. Cards of equal value keep their order.
    pub fn sort_by_rank_ace_low(&mut self)
        ensures
            final(self).cards@ == arranged(SortBy::AltValueAscending, old(self).cards@),
            final(self).size == old(self).size,
    {
        sort_cards(&mut self.cards, SortBy::AltValueAscending);
    }

    /// Sorts the hand by suit: Diamonds first, then Clubs, Hearts and
    /// Spades. Cards of one suit keep their order.
    pub fn sort_by_suit(&mut self)
        ensures
            final(self).cards@ == arranged(SortBy::SuitDescending, old(self).cards@),
            final(self).size == old(self).size,
    {
        sort_cards(&mut self.cards, SortBy::SuitDescending);
    }
}

} // verus!

//! Setting aside the cards whose value the hand holds already.
//!
//! A straight is made of cards of different values. Before a hand is
//! scanned for one, every card before which another card has the same value
//! is set aside, so that each value is left with its first card.

use vstd::prelude::*;
use crate::card::Card;
use crate::hand::{count_of_value, lemma_count_positive, with_value, Hand};
use crate::sorting::{is_sorted, SortBy};
use crate::straight::{
    first_of_value, holds_key, lemma_same_runs, run_cards, scan_order, scanned_low,
};

verus! {

/// The cards before which no card has their value: of each value the first
/// card, in the order in which `cards` holds them.
pub open spec fn first_of_each_value(cards: Seq<Card>) -> Seq<Card>
    decreases cards.len(),
{
    if cards.len() == 0 {
        Seq::empty()
    } else {
        let kept = first_of_each_value(cards.drop_last());
        if count_of_value(cards.drop_last(), cards.last().value as nat) > 0 {
            kept
        } else {
            kept.push(cards.last())
        }
    }
}

/// The cards before which some card has their value, in the order in which
/// `cards` holds them.
pub open spec fn repeated_values(cards: Seq<Card>) -> Seq<Card>
    decreases cards.len(),
{
    if cards.len() == 0 {
        Seq::empty()
    } else {
        let aside = repeated_values(cards.drop_last());
        if count_of_value(cards.drop_last(), cards.last().value as nat) > 0 {
            aside.push(cards.last())
        } else {
            aside
        }
    }
}

/// Nothing is lost where cards are set aside: the cards that are kept and
/// those set aside are together the cards there were.
pub proof fn lemma_set_aside_keeps_all(cards: Seq<Card>)
    ensures
        first_of_each_value(cards).to_multiset().add(repeated_values(cards).to_multiset())
            == cards.to_multiset(),
        first_of_each_value(cards).len() + repeated_values(cards).len() == cards.len(),
    decreases cards.len(),
{
    broadcast use vstd::multiset::group_multiset_axioms;

    let kept = first_of_each_value(cards);
    let aside = repeated_values(cards);
    if cards.len() == 0 {
        cards.to_multiset_ensures();
        assert(kept =~= cards && aside =~= cards);
        assert(kept.to_multiset().add(aside.to_multiset()) =~= cards.to_multiset());
    } else {
        let front = cards.drop_last();
        let last = cards.last();
        lemma_set_aside_keeps_all(front);
        assert(cards =~= front.push(last));
        vstd::seq_lib::to_multiset_build(front, last);
        if count_of_value(front, last.value as nat) > 0 {
            vstd::seq_lib::to_multiset_build(repeated_values(front), last);
        } else {
            vstd::seq_lib::to_multiset_build(first_of_each_value(front), last);
        }
        assert(kept.to_multiset().add(aside.to_multiset()) =~= cards.to_multiset());
    }
}

/// Of the cards of one value the first is kept and no other.
pub proof fn lemma_first_of_each_value(cards: Seq<Card>, value: int)
    ensures
        first_of_each_value(cards).filter(with_value(value)) == (if cards.filter(
            with_value(value),
        ).len() > 0 {
            seq![first_of_value(cards, value)]
        } else {
            Seq::empty()
        }),
        first_of_value(first_of_each_value(cards), value) == first_of_value(cards, value),
    decreases cards.len(),
{
    let wanted = with_value(value);
    let kept = first_of_each_value(cards);
    if cards.len() == 0 {
        cards.lemma_filter_len(wanted);
        kept.lemma_filter_len(wanted);
        assert(kept.filter(wanted) =~= Seq::<Card>::empty());
        assert(cards.filter(wanted) =~= Seq::<Card>::empty());
    } else {
        let front = cards.drop_last();
        let last = cards.last();
        lemma_first_of_each_value(front, value);
        assert(cards =~= front.push(last));
        front.lemma_filter_push(last, wanted);
        first_of_each_value(front).lemma_filter_push(last, wanted);
        if last.value == value && count_of_value(front, last.value as nat) == 0 {
            assert(front.filter(wanted) =~= Seq::<Card>::empty());
            assert(kept.filter(wanted) =~= seq![last]);
        }
        if cards.filter(wanted).len() == 0 {
            assert(kept.filter(wanted) =~= cards.filter(wanted));
        }
    }
}

/// The cards that are kept are cards of the hand, they hold every key that
/// the hand holds, and where the hand is sorted they are.
pub proof fn lemma_first_of_each_value_holds(by: SortBy, cards: Seq<Card>)
    ensures
        forall|i: int|
            0 <= i < first_of_each_value(cards).len() ==> cards.contains(
                #[trigger] first_of_each_value(cards)[i],
            ),
        forall|ace_high: bool, key: int| #[trigger]
            holds_key(first_of_each_value(cards), ace_high, key) <==> holds_key(
                cards,
                ace_high,
                key,
            ),
        is_sorted(by, cards) ==> is_sorted(by, first_of_each_value(cards)),
    decreases cards.len(),
{
    let kept = first_of_each_value(cards);
    if cards.len() > 0 {
        let front = cards.drop_last();
        let last = cards.last();
        let before = first_of_each_value(front);
        lemma_first_of_each_value_holds(by, front);
        lemma_count_positive(front, last.value as nat);
        assert(cards[cards.len() - 1] == last);
        assert forall|i: int| 0 <= i < kept.len() implies cards.contains(#[trigger] kept[i]) by {
            if i < before.len() {
                assert(kept[i] == before[i]);
                let j = choose|j: int| 0 <= j < front.len() && front[j] == before[i];
                assert(cards[j] == kept[i]);
            }
        }
        assert forall|ace_high: bool, key: int| #[trigger]
            holds_key(kept, ace_high, key) <==> holds_key(cards, ace_high, key) by {
            if holds_key(kept, ace_high, key) {
                let i = choose|i: int|
                    0 <= i < kept.len() && crate::hand::run_key(
                        (#[trigger] kept[i]).value,
                        ace_high,
                    ) == key;
                assert(cards.contains(kept[i]));
                let j = choose|j: int| 0 <= j < cards.len() && cards[j] == kept[i];
                assert(crate::hand::run_key(cards[j].value, ace_high) == key);
            }
            if holds_key(cards, ace_high, key) {
                let i = choose|i: int|
                    0 <= i < cards.len() && crate::hand::run_key(
                        (#[trigger] cards[i]).value,
                        ace_high,
                    ) == key;
                if i < front.len() {
                    assert(front[i] == cards[i]);
                    assert(holds_key(front, ace_high, key));
                    assert(holds_key(before, ace_high, key));
                    let k = choose|k: int|
                        0 <= k < before.len() && crate::hand::run_key(
                            (#[trigger] before[k]).value,
                            ace_high,
                        ) == key;
                    assert(kept[k] == before[k]);
                } else if count_of_value(front, last.value as nat) > 0 {
                    let j = choose|j: int|
                        0 <= j < front.len() && (#[trigger] front[j]).value == last.value;
                    assert(holds_key(front, ace_high, key));
                    assert(holds_key(before, ace_high, key));
                    let k = choose|k: int|
                        0 <= k < before.len() && crate::hand::run_key(
                            (#[trigger] before[k]).value,
                            ace_high,
                        ) == key;
                    assert(kept[k] == before[k]);
                } else {
                    assert(kept[kept.len() - 1] == last);
                }
            }
        }
        if is_sorted(by, cards) {
            assert(is_sorted(by, front)) by {
                assert forall|i: int, j: int| 0 <= i < j < front.len() implies by.key(front[i])
                    <= by.key(front[j]) by {
                    assert(front[i] == cards[i] && front[j] == cards[j]);
                }
            }
            assert forall|i: int, j: int| 0 <= i < j < kept.len() implies by.key(kept[i])
                <= by.key(kept[j]) by {
                if j < before.len() {
                    assert(kept[i] == before[i] && kept[j] == before[j]);
                } else {
                    assert(kept[i] == before[i]);
                    let k = choose|k: int| 0 <= k < front.len() && front[k] == before[i];
                    assert(cards[k] == kept[i]);
                }
            }
        }
    }
}

/// A scan finds the same run whether or not the cards of repeated value
/// have been set aside, and names the same cards.
pub proof fn lemma_scan_of_distinct(cards: Seq<Card>, ace_high: bool)
    requires
        forall|i: int| 0 <= i < cards.len() ==> (#[trigger] cards[i]).is_playing_card(),
    ensures
        forall|i: int|
            0 <= i < first_of_each_value(cards).len() ==> (#[trigger] first_of_each_value(
                cards,
            )[i]).is_playing_card(),
        is_sorted(scan_order(ace_high), cards) ==> is_sorted(
            scan_order(ace_high),
            first_of_each_value(cards),
        ),
        scanned_low(first_of_each_value(cards), ace_high) == scanned_low(cards, ace_high),
        forall|low: int| #[trigger]
            run_cards(first_of_each_value(cards), low) == run_cards(cards, low),
{
    let kept = first_of_each_value(cards);
    lemma_first_of_each_value_holds(scan_order(ace_high), cards);
    assert forall|i: int| 0 <= i < kept.len() implies (#[trigger] kept[i]).is_playing_card() by {
        assert(cards.contains(kept[i]));
        let j = choose|j: int| 0 <= j < cards.len() && cards[j] == kept[i];
        assert(cards[j].is_playing_card());
    }
    assert forall|key: int| #[trigger]
        holds_key(kept, ace_high, key) <==> holds_key(cards, ace_high, key) by {}
    lemma_same_runs(kept, cards, ace_high, if ace_high {
        10
    } else {
        1
    });
    assert forall|value: int| #[trigger]
        first_of_value(kept, value) == first_of_value(cards, value) by {
        lemma_first_of_each_value(cards, value);
    }
}

impl Hand {
    /// Sets aside every card before which the hand holds a card of the
    /// same value. Gives the cards that are left, of each value the first,
    /// and the cards set aside, both in the order of the hand and each as
    /// a hand that is meant to hold just these.
    pub fn set_aside_duplicates(&self) -> (parts: (Hand, Hand))
        ensures
            parts.0.cards@ == first_of_each_value(self.cards@),
            parts.0.size == parts.0.cards@.len(),
            parts.1.cards@ == repeated_values(self.cards@),
            parts.1.size == parts.1.cards@.len(),
    {
        let mut kept: Vec<Card> = Vec::new();
        let mut leftover: Vec<Card> = Vec::new();
        let mut i: usize = 0;
        while i < self.cards.len()
            invariant
                i <= self.cards.len(),
                kept@ == first_of_each_value(self.cards@.take(i as int)),
                leftover@ == repeated_values(self.cards@.take(i as int)),
                kept@.len() <= i,
                leftover@.len() <= i,
            decreases self.cards.len() - i,
        {
            let card = self.cards[i];
            let mut seen = false;
            let mut j: usize = 0;
            while j < i && !seen
                invariant
                    j <= i < self.cards.len(),
                    card == self.cards@[i as int],
                    !seen ==> forall|k: int|
                        0 <= k < j ==> (#[trigger] self.cards@[k]).value != card.value,
                    seen ==> exists|k: int|
                        0 <= k < i && (#[trigger] self.cards@[k]).value == card.value,
                decreases i - j + if seen { 0int } else { 1int },
            {
                if self.cards[j].value == card.value {
                    seen = true;
                }
                j += 1;
            }
            proof {
                let front = self.cards@.take(i as int);
                assert(self.cards@.take(i + 1) =~= front.push(card));
                assert(front.push(card).drop_last() =~= front);
                lemma_count_positive(front, card.value as nat);
                if seen {
                    let k = choose|k: int|
                        0 <= k < i && (#[trigger] self.cards@[k]).value == card.value;
                    assert(front[k].value == card.value);
                } else {
                    assert forall|k: int| 0 <= k < front.len() implies (#[trigger] front[k]).value
                        != card.value by {
                        assert(front[k] == self.cards@[k]);
                    }
                }
            }
            if seen {
                leftover.push(card);
            } else {
                kept.push(card);
            }
            i += 1;
        }
        assert(self.cards@.take(i as int) =~= self.cards@);
        let kept_size = kept.len();
        let leftover_size = leftover.len();
        (Hand { cards: kept, size: kept_size }, Hand { cards: leftover, size: leftover_size })
    }
}

} // verus!

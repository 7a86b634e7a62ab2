//! Stable sorting of cards by value, by low-Ace value or by suit.
//!
//! `arranged` says what a sorted sequence is: the cards are taken in their
//! given order and each is put behind every card that may stand before it.
//! The lemmas of this module show that the result is sorted, holds the same
//! cards, and keeps cards of equal key in the order in which they came.

use vstd::prelude::*;
use crate::card::Card;

verus! {

/// The three orders in which a hand can be arranged.
#[derive(Debug, PartialEq, Eq, Clone, Copy, Structural)]
pub enum SortBy {
    /// By `value`, largest first: the Ace, as 14, leads.
    ValueDescending,
    /// By `alt_value`, smallest first: the Ace, as 1, leads.
    AltValueAscending,
    /// By suit, last suit first.
    SuitDescending,
}

impl SortBy {
    /// The number by which a card is placed: a sorted sequence has its keys
    /// in non-decreasing order.
    pub open spec fn key(self, card: Card) -> int {
        match self {
            SortBy::ValueDescending => -(card.value as int),
            SortBy::AltValueAscending => card.alt_value as int,
            SortBy::SuitDescending => -(card.suit.index() as int),
        }
    }

    /// Whether `a` has to stand behind `b`.
    pub fn stands_behind(&self, a: &Card, b: &Card) -> (behind: bool)
        ensures
            behind == (self.key(*a) > self.key(*b)),
    {
        match self {
            SortBy::ValueDescending => a.value < b.value,
            SortBy::AltValueAscending => a.alt_value > b.alt_value,
            SortBy::SuitDescending => a.suit.position() < b.suit.position(),
        }
    }
}

/// The keys of `cards` never decrease from front to back.
pub open spec fn is_sorted(by: SortBy, cards: Seq<Card>) -> bool {
    forall|i: int, j: int| 0 <= i < j < cards.len() ==> by.key(cards[i]) <= by.key(cards[j])
}

/// `sorted` with `card` put behind the last card whose key is not larger.
pub open spec fn placed(by: SortBy, sorted: Seq<Card>, card: Card) -> Seq<Card>
    decreases sorted.len(),
{
    if sorted.len() == 0 {
        seq![card]
    } else if by.key(sorted.last()) <= by.key(card) {
        sorted.push(card)
    } else {
        placed(by, sorted.drop_last(), card).push(sorted.last())
    }
}

/// The cards of `cards` in sorted order, cards of equal key in the order in
/// which `cards` holds them.
pub open spec fn arranged(by: SortBy, cards: Seq<Card>) -> Seq<Card>
    decreases cards.len(),
{
    if cards.len() == 0 {
        Seq::empty()
    } else {
        placed(by, arranged(by, cards.drop_last()), cards.last())
    }
}

/// Putting a card in place is inserting it at the position behind which
/// every key is larger and before which the nearest key is not.
proof fn lemma_placed_is_insert(by: SortBy, sorted: Seq<Card>, card: Card, at: int)
    requires
        0 <= at <= sorted.len(),
        forall|k: int| at <= k < sorted.len() ==> by.key(sorted[k]) > by.key(card),
        at > 0 ==> by.key(sorted[at - 1]) <= by.key(card),
    ensures
        placed(by, sorted, card) == sorted.insert(at, card),
    decreases sorted.len(),
{
    if sorted.len() == 0 {
        assert(sorted.insert(at, card) =~= seq![card]);
    } else if at == sorted.len() {
        assert(sorted.insert(at, card) =~= sorted.push(card));
    } else {
        lemma_placed_is_insert(by, sorted.drop_last(), card, at);
        assert(sorted.drop_last().insert(at, card).push(sorted.last()) =~= sorted.insert(
            at,
            card,
        ));
    }
}

/// Putting a card in its place keeps a sorted sequence sorted and adds the
/// card to its cards.
proof fn lemma_placed_sorted(by: SortBy, sorted: Seq<Card>, card: Card)
    requires
        is_sorted(by, sorted),
    ensures
        is_sorted(by, placed(by, sorted, card)),
        placed(by, sorted, card).len() == sorted.len() + 1,
        placed(by, sorted, card).to_multiset() == sorted.to_multiset().insert(card),
        forall|i: int|
            0 <= i < placed(by, sorted, card).len() ==> #[trigger] placed(by, sorted, card)[i]
                == card || sorted.contains(placed(by, sorted, card)[i]),
    decreases sorted.len(),
{
    broadcast use vstd::seq_lib::to_multiset_build;

    let result = placed(by, sorted, card);
    if sorted.len() == 0 {
        assert(result =~= Seq::<Card>::empty().push(card));
        assert(sorted =~= Seq::<Card>::empty());
    } else if by.key(sorted.last()) <= by.key(card) {
        assert forall|i: int| 0 <= i < result.len() implies #[trigger] result[i] == card
            || sorted.contains(result[i]) by {
            if i < sorted.len() {
                assert(sorted[i] == result[i]);
            }
        }
    } else {
        let front = sorted.drop_last();
        let inner = placed(by, front, card);
        lemma_placed_sorted(by, front, card);
        assert(sorted =~= front.push(sorted.last()));
        assert forall|i: int| 0 <= i < result.len() implies #[trigger] result[i] == card
            || sorted.contains(result[i]) by {
            if i < inner.len() {
                assert(result[i] == inner[i]);
                if inner[i] != card {
                    let k = choose|k: int| 0 <= k < front.len() && front[k] == inner[i];
                    assert(sorted[k] == result[i]);
                }
            } else {
                assert(sorted[sorted.len() - 1] == result[i]);
            }
        }
        assert forall|i: int, j: int| 0 <= i < j < result.len() implies by.key(result[i])
            <= by.key(result[j]) by {
            if j < inner.len() {
                assert(result[i] == inner[i] && result[j] == inner[j]);
            } else {
                assert(result[i] == inner[i]);
                if inner[i] != card {
                    let k = choose|k: int| 0 <= k < front.len() && front[k] == inner[i];
                    assert(sorted[k] == inner[i]);
                }
            }
        }
        assert(result.to_multiset() =~= sorted.to_multiset().insert(card));
    }
}

/// Putting a card in its place puts it behind the cards of its key.
proof fn lemma_placed_stable(
    by: SortBy,
    sorted: Seq<Card>,
    card: Card,
    wanted: spec_fn(Card) -> bool,
    key: int,
)
    requires
        forall|i: int|
            0 <= i < sorted.len() && wanted(#[trigger] sorted[i]) ==> by.key(sorted[i]) == key,
        wanted(card) ==> by.key(card) == key,
    ensures
        placed(by, sorted, card).filter(wanted) == (if wanted(card) {
            sorted.filter(wanted).push(card)
        } else {
            sorted.filter(wanted)
        }),
    decreases sorted.len(),
{
    broadcast use Seq::lemma_filter_push;

    if sorted.len() == 0 {
        assert(sorted =~= Seq::<Card>::empty());
        assert(placed(by, sorted, card) =~= sorted.push(card));
    } else if by.key(sorted.last()) <= by.key(card) {
    } else {
        let front = sorted.drop_last();
        assert forall|i: int| 0 <= i < front.len() && wanted(#[trigger] front[i]) implies by.key(
            front[i],
        ) == key by {
            assert(front[i] == sorted[i]);
        }
        lemma_placed_stable(by, front, card, wanted, key);
        assert(sorted =~= front.push(sorted.last()));
        assert(sorted.last() == sorted[sorted.len() - 1]);
    }
}

/// Sorting gives a sorted sequence of the same cards.
pub proof fn lemma_arranged_sorted(by: SortBy, cards: Seq<Card>)
    ensures
        is_sorted(by, arranged(by, cards)),
        arranged(by, cards).len() == cards.len(),
        arranged(by, cards).to_multiset() == cards.to_multiset(),
    decreases cards.len(),
{
    broadcast use vstd::seq_lib::to_multiset_build;

    if cards.len() == 0 {
        assert(cards =~= Seq::<Card>::empty());
    } else {
        lemma_arranged_sorted(by, cards.drop_last());
        lemma_placed_sorted(by, arranged(by, cards.drop_last()), cards.last());
        assert(cards =~= cards.drop_last().push(cards.last()));
    }
}

/// Sorting neither loses nor invents a card.
pub proof fn lemma_arranged_contains(by: SortBy, cards: Seq<Card>, card: Card)
    ensures
        arranged(by, cards).contains(card) <==> cards.contains(card),
{
    lemma_arranged_sorted(by, cards);
    vstd::seq_lib::to_multiset_contains(arranged(by, cards), card);
    vstd::seq_lib::to_multiset_contains(cards, card);
}

/// Sorting is stable: whatever cards of one key are picked out, they stand
/// in the sorted sequence as they stood before.
pub proof fn lemma_arranged_stable(
    by: SortBy,
    cards: Seq<Card>,
    wanted: spec_fn(Card) -> bool,
    key: int,
)
    requires
        forall|i: int|
            0 <= i < cards.len() && wanted(#[trigger] cards[i]) ==> by.key(cards[i]) == key,
    ensures
        arranged(by, cards).filter(wanted) == cards.filter(wanted),
    decreases cards.len(),
{
    broadcast use Seq::lemma_filter_push;

    if cards.len() == 0 {
        assert(cards =~= Seq::<Card>::empty());
    } else {
        let front = cards.drop_last();
        let sorted = arranged(by, front);
        assert forall|i: int| 0 <= i < front.len() && wanted(#[trigger] front[i]) implies by.key(
            front[i],
        ) == key by {
            assert(front[i] == cards[i]);
        }
        lemma_arranged_stable(by, front, wanted, key);
        assert forall|i: int| 0 <= i < sorted.len() && wanted(#[trigger] sorted[i]) implies by.key(
            sorted[i],
        ) == key by {
            assert(sorted.contains(sorted[i]));
            lemma_arranged_contains(by, front, sorted[i]);
            let j = choose|j: int| 0 <= j < front.len() && front[j] == sorted[i];
            assert(front[j] == cards[j]);
        }
        assert(cards.last() == cards[cards.len() - 1]);
        lemma_placed_stable(by, sorted, cards.last(), wanted, key);
        assert(cards =~= front.push(cards.last()));
    }
}

/// A sequence that is sorted already is left as it is.
pub proof fn lemma_arranged_of_sorted(by: SortBy, cards: Seq<Card>)
    requires
        is_sorted(by, cards),
    ensures
        arranged(by, cards) == cards,
    decreases cards.len(),
{
    if cards.len() > 0 {
        let front = cards.drop_last();
        lemma_arranged_of_sorted(by, front);
        if front.len() > 0 {
            assert(front.last() == cards[cards.len() - 2]);
        }
        assert(cards =~= front.push(cards.last()));
    } else {
        assert(cards =~= Seq::<Card>::empty());
    }
}

/// Sorts `cards` in place. The sort is stable.
pub fn sort_cards(cards: &mut Vec<Card>, by: SortBy)
    ensures
        final(cards)@ == arranged(by, old(cards)@),
{
    let mut out: Vec<Card> = Vec::new();
    let mut i: usize = 0;
    while i < cards.len()
        invariant
            i <= cards.len(),
            cards@ == old(cards)@,
            out@ == arranged(by, cards@.take(i as int)),
        decreases cards.len() - i,
    {
        let card = cards[i];
        let mut at: usize = out.len();
        while at > 0 && by.stands_behind(&out[at - 1], &card)
            invariant
                at <= out.len(),
                forall|k: int| at <= k < out.len() ==> by.key(out@[k]) > by.key(card),
            decreases at,
        {
            at -= 1;
        }
        proof {
            lemma_placed_is_insert(by, out@, card, at as int);
            assert(cards@.take(i + 1).drop_last() =~= cards@.take(i as int));
        }
        out.insert(at, card);
        i += 1;
    }
    proof {
        assert(cards@.take(i as int) =~= cards@);
    }
    *cards = out;
}

} // verus!

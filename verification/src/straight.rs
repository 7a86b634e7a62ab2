//! Straights: five cards of consecutive values.
//!
//! A straight is stated here over the values that a hand holds, without
//! regard to the order of its cards or to values held more than once. The
//! detector finds it by scanning the runs of a sorted hand; the lemmas of
//! this module connect the two.

use vstd::prelude::*;
use crate::card::Card;
use crate::hand::{run_key, run_keys, run_lengths, with_value, Hand};
use crate::sorting::{arranged, is_sorted, lemma_arranged_contains, lemma_arranged_stable, SortBy};

verus! {

/// Some card has the run key `key`: its value, or 1 for an Ace where the Ace
/// is counted low.
pub open spec fn holds_key(cards: Seq<Card>, ace_high: bool, key: int) -> bool {
    exists|i: int| 0 <= i < cards.len() && run_key((#[trigger] cards[i]).value, ace_high) == key
}

/// Some card has the value `value`.
pub open spec fn holds_value(cards: Seq<Card>, value: int) -> bool {
    holds_key(cards, true, value)
}

/// Each of the five keys from `low` on is held.
pub open spec fn key_run_from(cards: Seq<Card>, ace_high: bool, low: int) -> bool {
    &&& holds_key(cards, ace_high, low)
    &&& holds_key(cards, ace_high, low + 1)
    &&& holds_key(cards, ace_high, low + 2)
    &&& holds_key(cards, ace_high, low + 3)
    &&& holds_key(cards, ace_high, low + 4)
}

/// Each of the five values from `low` on is held.
pub open spec fn run_from(cards: Seq<Card>, low: int) -> bool {
    key_run_from(cards, true, low)
}

/// The Ace-low straight: Ace, 2, 3, 4 and 5 are held.
pub open spec fn holds_wheel(cards: Seq<Card>) -> bool {
    &&& holds_value(cards, 14)
    &&& holds_value(cards, 2)
    &&& holds_value(cards, 3)
    &&& holds_value(cards, 4)
    &&& holds_value(cards, 5)
}

/// The hand holds a straight: five consecutive values between 2 and 14, or
/// the Ace with 2 to 5.
pub open spec fn is_straight(cards: Seq<Card>) -> bool {
    (exists|low: int| 2 <= low <= 10 && #[trigger] run_from(cards, low)) || holds_wheel(cards)
}

/// The largest `low` between 2 and `from` at which a run of five values
/// starts.
pub open spec fn highest_run(cards: Seq<Card>, from: int) -> Option<int>
    decreases from,
{
    if from < 2 {
        None
    } else if run_from(cards, from) {
        Some(from)
    } else {
        highest_run(cards, from - 1)
    }
}

/// The smallest `low` between `from` and 9 at which a run of five keys
/// starts, the Ace counted as 1.
pub open spec fn lowest_low_run(cards: Seq<Card>, from: int) -> Option<int>
    decreases 10 - from,
{
    if from > 9 {
        None
    } else if key_run_from(cards, false, from) {
        Some(from)
    } else {
        lowest_low_run(cards, from + 1)
    }
}

/// The low end of the run that a scan finds first: scanning downwards from
/// the Ace as 14 it is the highest run, scanning upwards from the Ace as 1
/// the lowest.
pub open spec fn scanned_low(cards: Seq<Card>, ace_high: bool) -> Option<int> {
    if ace_high {
        highest_run(cards, 10)
    } else {
        lowest_low_run(cards, 1)
    }
}

/// The low end of the straight that a hand is reported to hold: that of its
/// highest run of five values, or 1 where it has no such run and holds the
/// Ace with 2 to 5.
pub open spec fn straight_low(cards: Seq<Card>) -> Option<int> {
    match highest_run(cards, 10) {
        Some(low) => Some(low),
        None => if holds_wheel(cards) {
            Some(1)
        } else {
            None
        },
    }
}

/// The first of `cards` that has the value `value`.
pub open spec fn first_of_value(cards: Seq<Card>, value: int) -> Card
    recommends
        holds_value(cards, value),
{
    cards.filter(with_value(value)).first()
}

/// The five cards of the straight whose low end is `low`, lowest value
/// first: of each value the first card that `cards` holds. The low end 1
/// stands for the Ace-low straight, whose Ace, valued 14, comes last.
pub open spec fn run_cards(cards: Seq<Card>, low: int) -> Seq<Card> {
    if low == 1 {
        seq![
            first_of_value(cards, 2),
            first_of_value(cards, 3),
            first_of_value(cards, 4),
            first_of_value(cards, 5),
            first_of_value(cards, 14),
        ]
    } else {
        seq![
            first_of_value(cards, low),
            first_of_value(cards, low + 1),
            first_of_value(cards, low + 2),
            first_of_value(cards, low + 3),
            first_of_value(cards, low + 4),
        ]
    }
}

/// The order in which a hand is sorted for a scan.
pub open spec fn scan_order(ace_high: bool) -> SortBy {
    if ace_high {
        SortBy::ValueDescending
    } else {
        SortBy::AltValueAscending
    }
}

/// `a` comes before `b` in the direction of a scan: downwards with the Ace
/// high, upwards with the Ace low.
pub open spec fn precedes(ace_high: bool, a: int, b: int) -> bool {
    if ace_high {
        a > b
    } else {
        a < b
    }
}

/// The key `k` steps behind `a` in the direction of a scan.
pub open spec fn stepped(ace_high: bool, a: int, k: int) -> int {
    if ace_high {
        a - k
    } else {
        a + k
    }
}

/// No key comes before one that stands in front of it.
pub open spec fn keys_monotone(keys: Seq<usize>, ace_high: bool) -> bool {
    forall|i: int, j: int|
        0 <= i < j < keys.len() ==> !precedes(ace_high, keys[j] as int, keys[i] as int)
}

/// `key` is among `keys`.
pub open spec fn occurs(keys: Seq<usize>, key: int) -> bool {
    exists|i: int| 0 <= i < keys.len() && #[trigger] keys[i] == key
}

/// Each run's key comes before the keys of all runs behind it.
pub open spec fn runs_strict(runs: Seq<(usize, usize)>, ace_high: bool) -> bool {
    forall|a: int, b: int|
        0 <= a < b < runs.len() ==> precedes(ace_high, runs[a].1 as int, runs[b].1 as int)
}

/// `key` is the key of one of `runs`.
pub open spec fn holds_run(runs: Seq<(usize, usize)>, key: int) -> bool {
    exists|a: int| 0 <= a < runs.len() && (#[trigger] runs[a]).1 == key
}

/// The five runs from `at` on have keys that follow one another in steps of
/// one.
pub open spec fn steps_at(runs: Seq<(usize, usize)>, ace_high: bool, at: int) -> bool {
    &&& 0 <= at
    &&& at + 4 < runs.len()
    &&& runs[at + 1].1 == stepped(ace_high, runs[at].1 as int, 1)
    &&& runs[at + 2].1 == stepped(ace_high, runs[at].1 as int, 2)
    &&& runs[at + 3].1 == stepped(ace_high, runs[at].1 as int, 3)
    &&& runs[at + 4].1 == stepped(ace_high, runs[at].1 as int, 4)
}

/// The runs of keys that are in scan order have keys in strict scan order,
/// and their keys are the keys that occur.
pub proof fn lemma_runs_of_monotone(keys: Seq<usize>, ace_high: bool)
    requires
        keys_monotone(keys, ace_high),
    ensures
        runs_strict(run_lengths(keys), ace_high),
        forall|key: int| #[trigger] holds_run(run_lengths(keys), key) <==> occurs(keys, key),
        keys.len() > 0 ==> run_lengths(keys).len() > 0 && run_lengths(keys).last().1
            == keys.last(),
        keys.len() == 0 ==> run_lengths(keys).len() == 0,
    decreases keys.len(),
{
    let runs = run_lengths(keys);
    if keys.len() > 0 {
        let front = keys.drop_last();
        let last = keys.last();
        let before = run_lengths(front);
        assert(keys_monotone(front, ace_high)) by {
            assert forall|i: int, j: int| 0 <= i < j < front.len() implies !precedes(
                ace_high,
                front[j] as int,
                front[i] as int,
            ) by {
                assert(front[i] == keys[i] && front[j] == keys[j]);
            }
        }
        lemma_runs_of_monotone(front, ace_high);
        assert(keys[keys.len() - 1] == last);
        assert forall|key: int| occurs(keys, key) <==> occurs(front, key) || key == last by {
            if occurs(keys, key) {
                let i = choose|i: int| 0 <= i < keys.len() && #[trigger] keys[i] == key;
                if i < front.len() {
                    assert(front[i] == key);
                }
            }
            if occurs(front, key) {
                let i = choose|i: int| 0 <= i < front.len() && #[trigger] front[i] == key;
                assert(keys[i] == key);
            }
        }
        if before.len() > 0 && before.last().1 == last {
            assert forall|a: int| 0 <= a < runs.len() implies (#[trigger] runs[a]).1
                == before[a].1 by {}
            assert forall|key: int| #[trigger] holds_run(runs, key) <==> holds_run(before, key) by {
                if holds_run(runs, key) {
                    let a = choose|a: int| 0 <= a < runs.len() && (#[trigger] runs[a]).1 == key;
                    assert(before[a].1 == key);
                }
                if holds_run(before, key) {
                    let a = choose|a: int|
                        0 <= a < before.len() && (#[trigger] before[a]).1 == key;
                    assert(runs[a].1 == key);
                }
            }
            assert(holds_run(before, last as int)) by {
                assert(before[before.len() - 1].1 == last);
            }
        } else {
            assert forall|key: int| #[trigger] holds_run(runs, key) <==> holds_run(before, key)
                || key == last by {
                if holds_run(runs, key) {
                    let a = choose|a: int| 0 <= a < runs.len() && (#[trigger] runs[a]).1 == key;
                    if a < before.len() {
                        assert(before[a].1 == key);
                    }
                }
                if holds_run(before, key) {
                    let a = choose|a: int|
                        0 <= a < before.len() && (#[trigger] before[a]).1 == key;
                    assert(runs[a].1 == key);
                }
                assert(runs[runs.len() - 1].1 == last);
            }
            assert forall|a: int, b: int| 0 <= a < b < runs.len() implies precedes(
                ace_high,
                runs[a].1 as int,
                runs[b].1 as int,
            ) by {
                if b == runs.len() - 1 {
                    let end = before.len() - 1;
                    assert(runs[b].1 == last);
                    assert(runs[a] == before[a]);
                    assert(front.len() > 0);
                    assert(before[end].1 == front.last());
                    assert(front.last() == keys[keys.len() - 2]);
                    assert(!precedes(ace_high, keys[keys.len() - 1] as int, keys[keys.len() - 2] as int));
                    assert(precedes(ace_high, before[end].1 as int, last as int));
                    if a < end {
                        assert(precedes(ace_high, before[a].1 as int, before[end].1 as int));
                    }
                } else {
                    assert(runs[a] == before[a] && runs[b] == before[b]);
                }
            }
        }
    }
}

/// In runs of strict scan order the key one step behind another stands in
/// the next run.
proof fn lemma_next_run(runs: Seq<(usize, usize)>, ace_high: bool, p: int, q: int)
    requires
        runs_strict(runs, ace_high),
        0 <= p < runs.len(),
        0 <= q < runs.len(),
        runs[q].1 == stepped(ace_high, runs[p].1 as int, 1),
    ensures
        q == p + 1,
{
    if q < p {
        assert(precedes(ace_high, runs[q].1 as int, runs[p].1 as int));
    } else if q > p + 1 {
        assert(precedes(ace_high, runs[p].1 as int, runs[p + 1].1 as int));
        assert(precedes(ace_high, runs[p + 1].1 as int, runs[q].1 as int));
    }
}

/// Where five keys in steps of one are all keys of runs in strict scan
/// order, the runs that hold them stand side by side.
pub proof fn lemma_steps_of_run(runs: Seq<(usize, usize)>, ace_high: bool, first: int) -> (at: int)
    requires
        runs_strict(runs, ace_high),
        holds_run(runs, first),
        holds_run(runs, stepped(ace_high, first, 1)),
        holds_run(runs, stepped(ace_high, first, 2)),
        holds_run(runs, stepped(ace_high, first, 3)),
        holds_run(runs, stepped(ace_high, first, 4)),
    ensures
        steps_at(runs, ace_high, at),
        runs[at].1 == first,
{
    let r0 = choose|a: int| 0 <= a < runs.len() && (#[trigger] runs[a]).1 == first;
    let r1 = choose|a: int|
        0 <= a < runs.len() && (#[trigger] runs[a]).1 == stepped(ace_high, first, 1);
    let r2 = choose|a: int|
        0 <= a < runs.len() && (#[trigger] runs[a]).1 == stepped(ace_high, first, 2);
    let r3 = choose|a: int|
        0 <= a < runs.len() && (#[trigger] runs[a]).1 == stepped(ace_high, first, 3);
    let r4 = choose|a: int|
        0 <= a < runs.len() && (#[trigger] runs[a]).1 == stepped(ace_high, first, 4);
    lemma_next_run(runs, ace_high, r0, r1);
    lemma_next_run(runs, ace_high, r1, r2);
    lemma_next_run(runs, ace_high, r2, r3);
    lemma_next_run(runs, ace_high, r3, r4);
    r0
}

/// `highest_run` gives a run above which, up to `from`, there is no other,
/// and gives none only where there is none from 2 to `from`.
pub proof fn lemma_highest_run(cards: Seq<Card>, from: int)
    ensures
        match highest_run(cards, from) {
            Some(low) => {
                &&& 2 <= low <= from
                &&& run_from(cards, low)
                &&& forall|other: int| low < other <= from ==> !#[trigger] run_from(cards, other)
            },
            None => forall|other: int| 2 <= other <= from ==> !#[trigger] run_from(cards, other),
        },
    decreases from,
{
    if from >= 2 && !run_from(cards, from) {
        lemma_highest_run(cards, from - 1);
    }
}

/// `lowest_low_run` gives a run below which, down to `from`, there is no
/// other, and gives none only where there is none from `from` to 9.
pub proof fn lemma_lowest_low_run(cards: Seq<Card>, from: int)
    ensures
        match lowest_low_run(cards, from) {
            Some(low) => {
                &&& from <= low <= 9
                &&& key_run_from(cards, false, low)
                &&& forall|other: int|
                    from <= other < low ==> !#[trigger] key_run_from(cards, false, other)
            },
            None => forall|other: int|
                from <= other <= 9 ==> !#[trigger] key_run_from(cards, false, other),
        },
    decreases 10 - from,
{
    if from <= 9 && !key_run_from(cards, false, from) {
        lemma_lowest_low_run(cards, from + 1);
    }
}

/// A hand is reported to hold a straight exactly when it holds one.
pub proof fn lemma_straight_low_iff(cards: Seq<Card>)
    ensures
        straight_low(cards) is Some <==> is_straight(cards),
        straight_low(cards) matches Some(low) ==> 1 <= low <= 10,
{
    lemma_highest_run(cards, 10);
}

/// The first card of a value is the one before which no card has that
/// value.
pub proof fn lemma_first_of_value(cards: Seq<Card>, value: int, at: int)
    requires
        0 <= at < cards.len(),
        cards[at].value == value,
        forall|j: int| 0 <= j < at ==> (#[trigger] cards[j]).value != value,
    ensures
        cards.filter(with_value(value)).len() > 0,
        first_of_value(cards, value) == cards[at],
    decreases cards.len(),
{
    let front = cards.drop_last();
    assert(cards =~= front.push(cards.last()));
    front.lemma_filter_push(cards.last(), with_value(value));
    if at == cards.len() - 1 {
        assert(front.all(|card: Card| !with_value(value)(card))) by {
            assert forall|j: int| 0 <= j < front.len() implies !with_value(value)(
                #[trigger] front[j],
            ) by {
                assert(front[j] == cards[j]);
            }
        }
        front.lemma_all_neg_filter_empty(with_value(value));
    } else {
        assert forall|j: int| 0 <= j < at implies (#[trigger] front[j]).value != value by {
            assert(front[j] == cards[j]);
        }
        lemma_first_of_value(front, value, at);
    }
}

/// Sorting does not change which keys a hand holds.
pub proof fn lemma_holds_key_arranged(by: SortBy, cards: Seq<Card>, ace_high: bool, key: int)
    ensures
        holds_key(arranged(by, cards), ace_high, key) <==> holds_key(cards, ace_high, key),
{
    let sorted = arranged(by, cards);
    if holds_key(sorted, ace_high, key) {
        let i = choose|i: int|
            0 <= i < sorted.len() && run_key((#[trigger] sorted[i]).value, ace_high) == key;
        assert(sorted.contains(sorted[i]));
        lemma_arranged_contains(by, cards, sorted[i]);
        let j = choose|j: int| 0 <= j < cards.len() && cards[j] == sorted[i];
        assert(run_key(cards[j].value, ace_high) == key);
    }
    if holds_key(cards, ace_high, key) {
        let i = choose|i: int|
            0 <= i < cards.len() && run_key((#[trigger] cards[i]).value, ace_high) == key;
        assert(cards.contains(cards[i]));
        lemma_arranged_contains(by, cards, cards[i]);
        let j = choose|j: int| 0 <= j < sorted.len() && sorted[j] == cards[i];
        assert(run_key(sorted[j].value, ace_high) == key);
    }
}

/// Sorting playing cards gives playing cards.
pub proof fn lemma_arranged_playing_cards(by: SortBy, cards: Seq<Card>)
    requires
        forall|i: int| 0 <= i < cards.len() ==> (#[trigger] cards[i]).is_playing_card(),
    ensures
        forall|i: int|
            0 <= i < arranged(by, cards).len() ==> (#[trigger] arranged(
                by,
                cards,
            )[i]).is_playing_card(),
{
    let sorted = arranged(by, cards);
    assert forall|i: int| 0 <= i < sorted.len() implies (#[trigger] sorted[i]).is_playing_card() by {
        assert(sorted.contains(sorted[i]));
        lemma_arranged_contains(by, cards, sorted[i]);
        let j = choose|j: int| 0 <= j < cards.len() && cards[j] == sorted[i];
        assert(cards[j].is_playing_card());
    }
}

/// Sorting by value or by low-Ace value leaves the first card of each value
/// of a hand the first of that value.
pub proof fn lemma_first_of_value_arranged(cards: Seq<Card>, ace_high: bool, value: int)
    requires
        forall|i: int| 0 <= i < cards.len() ==> (#[trigger] cards[i]).is_playing_card(),
    ensures
        first_of_value(arranged(scan_order(ace_high), cards), value) == first_of_value(
            cards,
            value,
        ),
{
    let key = if ace_high {
        -value
    } else if value == 14 {
        1
    } else {
        value
    };
    lemma_arranged_stable(scan_order(ace_high), cards, with_value(value), key);
}

/// Among playing cards the low key 1 is held by an Ace, and every other
/// low key by a card of that value.
pub proof fn lemma_low_key_value(cards: Seq<Card>, key: int)
    requires
        forall|i: int| 0 <= i < cards.len() ==> (#[trigger] cards[i]).is_playing_card(),
    ensures
        holds_key(cards, false, key) <==> key != 14 && holds_value(
            cards,
            if key == 1 {
                14
            } else {
                key
            },
        ),
{
    if holds_key(cards, false, key) {
        let i = choose|i: int|
            0 <= i < cards.len() && run_key((#[trigger] cards[i]).value, false) == key;
        assert(cards[i].is_playing_card());
        assert(run_key(cards[i].value, true) == if key == 1 {
            14
        } else {
            key
        });
    }
    if key != 14 && holds_value(
        cards,
        if key == 1 {
            14
        } else {
            key
        },
    ) {
        let i = choose|i: int|
            0 <= i < cards.len() && run_key((#[trigger] cards[i]).value, true) == if key == 1 {
                14int
            } else {
                key
            };
        assert(run_key(cards[i].value, false) == key);
    }
}

/// The keys of a sorted hand of playing cards stand in scan order, they are
/// the keys that the hand holds, and they lie between 2 and 14 with the Ace
/// high and between 1 and 13 with the Ace low.
pub proof fn lemma_scan_keys(cards: Seq<Card>, ace_high: bool)
    requires
        forall|i: int| 0 <= i < cards.len() ==> (#[trigger] cards[i]).is_playing_card(),
        is_sorted(scan_order(ace_high), cards),
    ensures
        keys_monotone(run_keys(cards, ace_high), ace_high),
        forall|key: int|
            #[trigger] occurs(run_keys(cards, ace_high), key) <==> holds_key(cards, ace_high, key),
        forall|key: int| #[trigger]
            holds_key(cards, ace_high, key) ==> if ace_high {
                2 <= key <= 14
            } else {
                1 <= key <= 13
            },
{
    let keys = run_keys(cards, ace_high);
    assert forall|i: int, j: int| 0 <= i < j < keys.len() implies !precedes(
        ace_high,
        keys[j] as int,
        keys[i] as int,
    ) by {
        assert(cards[i].is_playing_card() && cards[j].is_playing_card());
        assert(scan_order(ace_high).key(cards[i]) <= scan_order(ace_high).key(cards[j]));
    }
    assert forall|key: int| #[trigger]
        occurs(keys, key) <==> holds_key(cards, ace_high, key) by {
        if occurs(keys, key) {
            let i = choose|i: int| 0 <= i < keys.len() && #[trigger] keys[i] == key;
            assert(run_key(cards[i].value, ace_high) == key);
        }
        if holds_key(cards, ace_high, key) {
            let i = choose|i: int|
                0 <= i < cards.len() && run_key((#[trigger] cards[i]).value, ace_high) == key;
            assert(keys[i] == key);
        }
    }
    assert forall|key: int| #[trigger] holds_key(cards, ace_high, key) implies if ace_high {
        2 <= key <= 14
    } else {
        1 <= key <= 13
    } by {
        let i = choose|i: int|
            0 <= i < cards.len() && run_key((#[trigger] cards[i]).value, ace_high) == key;
        assert(cards[i].is_playing_card());
    }
}

/// The key with which a run of five begins whose runs stand at `at`: with
/// the Ace high the scan runs downwards, and the run's low end is its last
/// key; with the Ace low it is its first.
pub open spec fn low_of_steps(runs: Seq<(usize, usize)>, ace_high: bool, at: int) -> int {
    if ace_high {
        runs[at + 4].1 as int
    } else {
        runs[at].1 as int
    }
}

/// The keys of the runs of a sorted hand of playing cards lie between 1 and
/// 14.
pub proof fn lemma_run_values(cards: Seq<Card>, ace_high: bool)
    requires
        forall|i: int| 0 <= i < cards.len() ==> (#[trigger] cards[i]).is_playing_card(),
        is_sorted(scan_order(ace_high), cards),
    ensures
        forall|a: int|
            0 <= a < run_lengths(run_keys(cards, ace_high)).len() ==> 1 <= (#[trigger] run_lengths(
                run_keys(cards, ace_high),
            )[a]).1 <= 14,
{
    let runs = run_lengths(run_keys(cards, ace_high));
    lemma_scan_keys(cards, ace_high);
    lemma_runs_of_monotone(run_keys(cards, ace_high), ace_high);
    assert forall|a: int| 0 <= a < runs.len() implies 1 <= (#[trigger] runs[a]).1 <= 14 by {
        assert(holds_run(runs, runs[a].1 as int));
        assert(occurs(run_keys(cards, ace_high), runs[a].1 as int));
        assert(holds_key(cards, ace_high, runs[a].1 as int));
    }
}

/// The first five runs of a sorted hand whose keys follow one another in
/// steps of one are the run of five keys that the scan is to find: the
/// highest with the Ace high, the lowest with the Ace low.
pub proof fn lemma_first_steps(cards: Seq<Card>, ace_high: bool, at: int)
    requires
        forall|i: int| 0 <= i < cards.len() ==> (#[trigger] cards[i]).is_playing_card(),
        is_sorted(scan_order(ace_high), cards),
        steps_at(run_lengths(run_keys(cards, ace_high)), ace_high, at),
        forall|j: int|
            0 <= j < at ==> !steps_at(run_lengths(run_keys(cards, ace_high)), ace_high, j),
    ensures
        scanned_low(cards, ace_high) == Some(
            low_of_steps(run_lengths(run_keys(cards, ace_high)), ace_high, at),
        ),
        1 <= low_of_steps(run_lengths(run_keys(cards, ace_high)), ace_high, at) <= 10,
        if low_of_steps(run_lengths(run_keys(cards, ace_high)), ace_high, at) == 1 {
            holds_wheel(cards)
        } else {
            run_from(cards, low_of_steps(run_lengths(run_keys(cards, ace_high)), ace_high, at))
        },
{
    let runs = run_lengths(run_keys(cards, ace_high));
    let low = low_of_steps(runs, ace_high, at);
    lemma_scan_keys(cards, ace_high);
    lemma_runs_of_monotone(run_keys(cards, ace_high), ace_high);
    assert forall|key: int| #[trigger] holds_run(runs, key) <==> holds_key(
        cards,
        ace_high,
        key,
    ) by {
        assert(holds_run(runs, key) <==> occurs(run_keys(cards, ace_high), key));
    }
    assert(holds_run(runs, runs[at].1 as int));
    assert(holds_run(runs, runs[at + 1].1 as int));
    assert(holds_run(runs, runs[at + 2].1 as int));
    assert(holds_run(runs, runs[at + 3].1 as int));
    assert(holds_run(runs, runs[at + 4].1 as int));
    assert(key_run_from(cards, ace_high, low));
    assert(holds_key(cards, ace_high, low) && holds_key(cards, ace_high, low + 4));
    if ace_high {
        assert(2 <= low <= 10 && run_from(cards, low));
        assert forall|other: int| low < other <= 10 implies !#[trigger] run_from(cards, other) by {
            if run_from(cards, other) {
                let earlier = lemma_steps_of_run(runs, true, other + 4);
                if earlier > at {
                    assert(precedes(true, runs[at].1 as int, runs[earlier].1 as int));
                }
            }
        }
        lemma_highest_run(cards, 10);
    } else {
        assert forall|other: int| 1 <= other < low implies !#[trigger] key_run_from(
            cards,
            false,
            other,
        ) by {
            if key_run_from(cards, false, other) {
                let earlier = lemma_steps_of_run(runs, false, other);
                if earlier > at {
                    assert(precedes(false, runs[at].1 as int, runs[earlier].1 as int));
                }
            }
        }
        assert(1 <= low <= 9);
        lemma_lowest_low_run(cards, 1);
        lemma_low_key_value(cards, low);
        lemma_low_key_value(cards, low + 1);
        lemma_low_key_value(cards, low + 2);
        lemma_low_key_value(cards, low + 3);
        lemma_low_key_value(cards, low + 4);
    }
}

/// Where no five runs of a sorted hand have keys that follow one another
/// in steps of one, the hand holds no run of five keys.
pub proof fn lemma_no_steps(cards: Seq<Card>, ace_high: bool)
    requires
        forall|i: int| 0 <= i < cards.len() ==> (#[trigger] cards[i]).is_playing_card(),
        is_sorted(scan_order(ace_high), cards),
        forall|j: int| !steps_at(run_lengths(run_keys(cards, ace_high)), ace_high, j),
    ensures
        scanned_low(cards, ace_high) is None,
{
    let runs = run_lengths(run_keys(cards, ace_high));
    lemma_scan_keys(cards, ace_high);
    lemma_runs_of_monotone(run_keys(cards, ace_high), ace_high);
    assert forall|key: int| #[trigger] holds_run(runs, key) <==> holds_key(
        cards,
        ace_high,
        key,
    ) by {
        assert(holds_run(runs, key) <==> occurs(run_keys(cards, ace_high), key));
    }
    if ace_high {
        assert forall|other: int| 2 <= other <= 10 implies !#[trigger] run_from(cards, other) by {
            if run_from(cards, other) {
                let earlier = lemma_steps_of_run(runs, true, other + 4);
            }
        }
        lemma_highest_run(cards, 10);
    } else {
        assert forall|other: int| 1 <= other <= 9 implies !#[trigger] key_run_from(
            cards,
            false,
            other,
        ) by {
            if key_run_from(cards, false, other) {
                let earlier = lemma_steps_of_run(runs, false, other);
            }
        }
        lemma_lowest_low_run(cards, 1);
    }
}

/// Hands that hold the same keys have the same runs.
pub proof fn lemma_same_runs(a: Seq<Card>, b: Seq<Card>, ace_high: bool, from: int)
    requires
        forall|key: int| #[trigger] holds_key(a, ace_high, key) <==> holds_key(b, ace_high, key),
    ensures
        ace_high ==> highest_run(a, from) == highest_run(b, from),
        !ace_high ==> lowest_low_run(a, from) == lowest_low_run(b, from),
    decreases
            if ace_high {
                from
            } else {
                10 - from
            },
{
    if ace_high {
        if from >= 2 {
            lemma_same_runs(a, b, ace_high, from - 1);
        }
    } else {
        if from <= 9 {
            lemma_same_runs(a, b, ace_high, from + 1);
        }
    }
}

/// A scan finds in the sorted hand the run that the hand holds, and the
/// cards of a run are the same cards in the hand and in the sorted hand.
pub proof fn lemma_scan_of_arranged(cards: Seq<Card>, ace_high: bool)
    requires
        forall|i: int| 0 <= i < cards.len() ==> (#[trigger] cards[i]).is_playing_card(),
    ensures
        scanned_low(arranged(scan_order(ace_high), cards), ace_high) == scanned_low(
            cards,
            ace_high,
        ),
        forall|low: int| #[trigger]
            run_cards(arranged(scan_order(ace_high), cards), low) == run_cards(cards, low),
{
    let sorted = arranged(scan_order(ace_high), cards);
    assert forall|key: int| #[trigger]
        holds_key(sorted, ace_high, key) <==> holds_key(cards, ace_high, key) by {
        lemma_holds_key_arranged(scan_order(ace_high), cards, ace_high, key);
    }
    lemma_same_runs(sorted, cards, ace_high, if ace_high {
        10
    } else {
        1
    });
    assert forall|value: int| #[trigger]
        first_of_value(sorted, value) == first_of_value(cards, value) by {
        lemma_first_of_value_arranged(cards, ace_high, value);
    }
}

/// Where playing cards hold no run of five values, a scan with the Ace low
/// finds the Ace-low straight or nothing.
pub proof fn lemma_low_scan(cards: Seq<Card>)
    requires
        forall|i: int| 0 <= i < cards.len() ==> (#[trigger] cards[i]).is_playing_card(),
        highest_run(cards, 10) is None,
    ensures
        scanned_low(cards, false) == straight_low(cards),
{
    lemma_highest_run(cards, 10);
    lemma_lowest_low_run(cards, 1);
    assert forall|key: int| 1 <= key <= 13 implies (#[trigger] holds_key(cards, false, key)
        <==> holds_value(
        cards,
        if key == 1 {
            14
        } else {
            key
        },
    )) by {
        lemma_low_key_value(cards, key);
    }
    assert(key_run_from(cards, false, 1) <==> holds_wheel(cards));
    assert forall|low: int| 2 <= low <= 9 implies !#[trigger] key_run_from(cards, false, low) by {
        if key_run_from(cards, false, low) {
            assert(run_from(cards, low));
        }
    }
}

/// A hand without an Ace holds no card of value 14.
pub proof fn lemma_no_ace(cards: Seq<Card>)
    requires
        !Hand::has_ace(cards),
    ensures
        !holds_value(cards, 14),
{
    if holds_value(cards, 14) {
        let i = choose|i: int|
            0 <= i < cards.len() && run_key((#[trigger] cards[i]).value, true) == 14;
        assert(cards[i].value == 14);
    }
}

/// Whether a hand holds a straight, and at which height, depends on the
/// values that it holds alone, not on how many cards hold them nor on their
/// order.
pub proof fn lemma_straight_by_values(a: Seq<Card>, b: Seq<Card>)
    requires
        forall|value: int| #[trigger] holds_value(a, value) <==> holds_value(b, value),
    ensures
        straight_low(a) == straight_low(b),
{
    assert forall|key: int| #[trigger] holds_key(a, true, key) <==> holds_key(b, true, key) by {
        assert(holds_value(a, key) <==> holds_value(b, key));
    }
    lemma_same_runs(a, b, true, 10);
}

/// A hand whose values are 2, 3, 4, 5 and 7, each held by however many
/// cards, holds no straight.
pub proof fn lemma_gap_is_no_straight(cards: Seq<Card>)
    requires
        forall|i: int|
            0 <= i < cards.len() ==> {
                let value = (#[trigger] cards[i]).value;
                value == 2 || value == 3 || value == 4 || value == 5 || value == 7
            },
    ensures
        !is_straight(cards),
        straight_low(cards) is None,
{
    lemma_straight_low_iff(cards);
    assert forall|value: int| #[trigger] holds_value(cards, value) implies value == 2 || value == 3
        || value == 4 || value == 5 || value == 7 by {
        let i = choose|i: int|
            0 <= i < cards.len() && run_key((#[trigger] cards[i]).value, true) == value;
        assert(cards[i].value == value);
    }
    assert forall|low: int| 2 <= low <= 10 implies !#[trigger] run_from(cards, low) by {
        if run_from(cards, low) {
            assert(holds_value(cards, low) && holds_value(cards, low + 1) && holds_value(
                cards,
                low + 2,
            ) && holds_value(cards, low + 3) && holds_value(cards, low + 4));
        }
    }
}

/// A straight is made of five cards of five different values, so a hand
/// that holds one has five cards or more.
pub proof fn lemma_straight_needs_five(cards: Seq<Card>)
    requires
        is_straight(cards),
    ensures
        cards.len() >= 5,
{
    let low = if holds_wheel(cards) {
        2
    } else {
        choose|low: int| 2 <= low <= 10 && #[trigger] run_from(cards, low)
    };
    let top = if holds_wheel(cards) {
        14
    } else {
        low + 4
    };
    let a = choose|i: int| 0 <= i < cards.len() && run_key((#[trigger] cards[i]).value, true) == low;
    let b = choose|i: int|
        0 <= i < cards.len() && run_key((#[trigger] cards[i]).value, true) == low + 1;
    let c = choose|i: int|
        0 <= i < cards.len() && run_key((#[trigger] cards[i]).value, true) == low + 2;
    let d = choose|i: int|
        0 <= i < cards.len() && run_key((#[trigger] cards[i]).value, true) == low + 3;
    let e = choose|i: int| 0 <= i < cards.len() && run_key((#[trigger] cards[i]).value, true) == top;
    assert(a != b && a != c && a != d && a != e && b != c && b != d && b != e && c != d && c != e
        && d != e);
}

} // verus!

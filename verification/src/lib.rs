//! Classification of poker hands.
//!
//! A [`hand::Hand`] is an ordered collection of [`card::Card`]s. The
//! detectors of [`valid_hands::ValidHands`] decide, for each poker category,
//! whether a hand belongs to it, and [`hand::Hand::contains`] runs them all.
//! Every detector carries a contract that states its answer over the
//! sequence of cards that the hand holds:
//!
//! - [`counting`] states the categories that are told by how often values
//!   occur: pair, two pair, three and four of a kind, full house;
//! - [`flush`] states the flush, [`straight`] the straight, and
//!   [`valid_hands`] the straight flush and the classification as a whole;
//! - [`sorting`] and [`duplicates`] state what it is to sort a hand and to
//!   set aside the cards that repeat a value.
//!
//! [`deck`] builds and deals the standard deck, and [`sampling`] estimates
//! how often a straight is dealt from a shuffled deck.

pub mod card;
pub mod counting;
pub mod deck;
pub mod duplicates;
pub mod flush;
pub mod hand;
pub mod sampling;
pub mod sorting;
pub mod straight;
pub mod suit;
mod text;
pub mod valid_hands;

//! Suits and ranks of a standard deck, with the numeric value of each rank.

use vstd::prelude::*;

verus! {

/// The four suits, and `Blank` for a card whose suit is not set.
#[derive(Debug, PartialEq, Eq, Hash, PartialOrd, Ord, Clone, Copy, Structural)]
pub enum Suits {
    Spades,
    Hearts,
    Clubs,
    Diamonds,
    Blank,
}

impl Suits {
    /// Position of the suit in the order in which the suits are declared.
    /// Suits are grouped, sorted and searched in this order.
    pub open spec fn index(self) -> nat {
        match self {
            Suits::Spades => 0,
            Suits::Hearts => 1,
            Suits::Clubs => 2,
            Suits::Diamonds => 3,
            Suits::Blank => 4,
        }
    }

    /// The suit's name as text.
    pub open spec fn name(self) -> Seq<char> {
        match self {
            Suits::Spades => "Spades"@,
            Suits::Hearts => "Hearts"@,
            Suits::Clubs => "Clubs"@,
            Suits::Diamonds => "Diamonds"@,
            Suits::Blank => "No Suit Set"@,
        }
    }

    /// The name of the variant, under which the suit appears in the text of
    /// a card.
    pub open spec fn variant(self) -> Seq<char> {
        match self {
            Suits::Blank => "Blank"@,
            _ => self.name(),
        }
    }

    /// Whether this is one of the four suits of a deck.
    pub open spec fn is_set(self) -> bool {
        self != Suits::Blank
    }

    /// The name of the variant.
    pub fn variant_name(&self) -> (text: &'static str)
        ensures
            text@ == self.variant(),
    {
        match self {
            Suits::Blank => "Blank",
            _ => self.to_str(),
        }
    }

    /// The suit's name.
    pub fn to_str(&self) -> (text: &'static str)
        ensures
            text@ == self.name(),
    {
        match self {
            Suits::Spades => "Spades",
            Suits::Hearts => "Hearts",
            Suits::Clubs => "Clubs",
            Suits::Diamonds => "Diamonds",
            Suits::Blank => "No Suit Set",
        }
    }

    /// The suit's position, as `index` gives it.
    pub fn position(&self) -> (i: usize)
        ensures
            i == self.index(),
    {
        match self {
            Suits::Spades => 0,
            Suits::Hearts => 1,
            Suits::Clubs => 2,
            Suits::Diamonds => 3,
            Suits::Blank => 4,
        }
    }
}

/// The suits in the order in which they are searched: Spades, Hearts,
/// Clubs, Diamonds.
pub open spec fn suit_at(position: int) -> Suits {
    if position == 0 {
        Suits::Spades
    } else if position == 1 {
        Suits::Hearts
    } else if position == 2 {
        Suits::Clubs
    } else {
        Suits::Diamonds
    }
}

/// The thirteen ranks, and `Blank` for a card whose rank is not set.
#[derive(Debug, PartialEq, Eq, Hash, PartialOrd, Ord, Clone, Copy, Structural)]
pub enum Ranks {
    Ace,
    King,
    Queen,
    Jack,
    Ten,
    Nine,
    Eight,
    Seven,
    Six,
    Five,
    Four,
    Three,
    Two,
    Blank,
}

impl Ranks {
    /// The numeric value of a rank: 2 to 13 for Two to King, and for the Ace
    /// 14, or 1 where the Ace is counted low. An unset rank has value 0.
    pub open spec fn value(self, is_low_ace: bool) -> nat {
        match self {
            Ranks::Ace => if is_low_ace { 1 } else { 14 },
            Ranks::King => 13,
            Ranks::Queen => 12,
            Ranks::Jack => 11,
            Ranks::Ten => 10,
            Ranks::Nine => 9,
            Ranks::Eight => 8,
            Ranks::Seven => 7,
            Ranks::Six => 6,
            Ranks::Five => 5,
            Ranks::Four => 4,
            Ranks::Three => 3,
            Ranks::Two => 2,
            Ranks::Blank => 0,
        }
    }

    /// The rank that has a given value. The Ace answers to both 1 and 14.
    pub open spec fn of_value(value: nat) -> Ranks
        recommends
            value <= 14,
    {
        if value == 1 || value == 14 {
            Ranks::Ace
        } else if value == 13 {
            Ranks::King
        } else if value == 12 {
            Ranks::Queen
        } else if value == 11 {
            Ranks::Jack
        } else if value == 10 {
            Ranks::Ten
        } else if value == 9 {
            Ranks::Nine
        } else if value == 8 {
            Ranks::Eight
        } else if value == 7 {
            Ranks::Seven
        } else if value == 6 {
            Ranks::Six
        } else if value == 5 {
            Ranks::Five
        } else if value == 4 {
            Ranks::Four
        } else if value == 3 {
            Ranks::Three
        } else if value == 2 {
            Ranks::Two
        } else {
            Ranks::Blank
        }
    }

    /// The rank's name as text.
    pub open spec fn name(self) -> Seq<char> {
        match self {
            Ranks::Ace => "Ace"@,
            Ranks::King => "King"@,
            Ranks::Queen => "Queen"@,
            Ranks::Jack => "Jack"@,
            Ranks::Ten => "10"@,
            Ranks::Nine => "9"@,
            Ranks::Eight => "8"@,
            Ranks::Seven => "7"@,
            Ranks::Six => "6"@,
            Ranks::Five => "5"@,
            Ranks::Four => "4"@,
            Ranks::Three => "3"@,
            Ranks::Two => "2"@,
            Ranks::Blank => "No Rank Set."@,
        }
    }

    /// Whether this is one of the thirteen ranks of a deck.
    pub open spec fn is_set(self) -> bool {
        self != Ranks::Blank
    }

    /// The value of the rank, the Ace counted as 1 if `is_low_ace` and as
    /// 14 if not.
    pub fn get_value(&self, is_low_ace: bool) -> (value: usize)
        ensures
            value == self.value(is_low_ace),
    {
        match self {
            Ranks::Ace => {
                if is_low_ace {
                    1
                } else {
                    14
                }
            },
            Ranks::King => 13,
            Ranks::Queen => 12,
            Ranks::Jack => 11,
            Ranks::Ten => 10,
            Ranks::Nine => 9,
            Ranks::Eight => 8,
            Ranks::Seven => 7,
            Ranks::Six => 6,
            Ranks::Five => 5,
            Ranks::Four => 4,
            Ranks::Three => 3,
            Ranks::Two => 2,
            Ranks::Blank => 0,
        }
    }

    /// The rank of a value between 0 and 14. No rank has a larger value.
    pub fn get_by_value(value: usize) -> (rank: Ranks)
        requires
            value <= 14,
        ensures
            rank == Ranks::of_value(value as nat),
    {
        match value {
            1 | 14 => Ranks::Ace,
            13 => Ranks::King,
            12 => Ranks::Queen,
            11 => Ranks::Jack,
            10 => Ranks::Ten,
            9 => Ranks::Nine,
            8 => Ranks::Eight,
            7 => Ranks::Seven,
            6 => Ranks::Six,
            5 => Ranks::Five,
            4 => Ranks::Four,
            3 => Ranks::Three,
            2 => Ranks::Two,
            _ => Ranks::Blank,
        }
    }

    /// The rank's name.
    pub fn to_str(&self) -> (text: &'static str)
        ensures
            text@ == self.name(),
    {
        match self {
            Ranks::Ace => "Ace",
            Ranks::King => "King",
            Ranks::Queen => "Queen",
            Ranks::Jack => "Jack",
            Ranks::Ten => "10",
            Ranks::Nine => "9",
            Ranks::Eight => "8",
            Ranks::Seven => "7",
            Ranks::Six => "6",
            Ranks::Five => "5",
            Ranks::Four => "4",
            Ranks::Three => "3",
            Ranks::Two => "2",
            Ranks::Blank => "No Rank Set.",
        }
    }

    /// Every rank is found again from either of its values, and every value
    /// from 2 to 14 is the high value of the rank that it names.
    pub proof fn lemma_value_round_trip(rank: Ranks, value: nat)
        ensures
            Ranks::of_value(rank.value(false)) == rank,
            Ranks::of_value(rank.value(true)) == rank,
            2 <= value <= 14 ==> Ranks::of_value(value).value(false) == value,
            1 <= value <= 13 ==> Ranks::of_value(value).value(true) == value,
            rank.is_set() ==> 2 <= rank.value(false) <= 14 && 1 <= rank.value(true) <= 13,
    {
    }
}

} // verus!

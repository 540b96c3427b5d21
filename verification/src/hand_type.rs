//! The ten hand-type categories and their explicit strength ranking.

use vstd::prelude::*;

verus! {

/// The closed set of hand-type categories, weakest to strongest. The
/// comparator never leans on this declaration order: each category carries
/// an explicit strength, given by [`strength`].
#[derive(Clone, Copy, Debug, PartialEq, Eq, Structural)]
pub enum PokerHandType {
    HighCard,
    OnePair,
    TwoPair,
    ThreeOfAKind,
    Straight,
    Flush,
    FullHouse,
    FourOfAKind,
    StraightFlush,
    RoyalFlush,
}

/// The explicit strength of each category: the comparator ranks categories
/// by this number, a stronger category carrying a larger one.
pub open spec fn strength(t: PokerHandType) -> int {
    match t {
        PokerHandType::HighCard => 0,
        PokerHandType::OnePair => 1,
        PokerHandType::TwoPair => 2,
        PokerHandType::ThreeOfAKind => 3,
        PokerHandType::Straight => 4,
        PokerHandType::Flush => 5,
        PokerHandType::FullHouse => 6,
        PokerHandType::FourOfAKind => 7,
        PokerHandType::StraightFlush => 8,
        PokerHandType::RoyalFlush => 9,
    }
}

impl PokerHandType {
    /// The strength as a runtime value.
    pub fn strength_value(&self) -> (s: u8)
        ensures
            s as int == strength(*self),
    {
        match self {
            PokerHandType::HighCard => 0,
            PokerHandType::OnePair => 1,
            PokerHandType::TwoPair => 2,
            PokerHandType::ThreeOfAKind => 3,
            PokerHandType::Straight => 4,
            PokerHandType::Flush => 5,
            PokerHandType::FullHouse => 6,
            PokerHandType::FourOfAKind => 7,
            PokerHandType::StraightFlush => 8,
            PokerHandType::RoyalFlush => 9,
        }
    }
}

} // verus!

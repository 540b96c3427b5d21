//! The card model: a rank in [2, 14] paired with one of four suits.
//!
//! Equality and ordering between cards go by rank alone; the suit never
//! takes part in a comparison. Two orderings are exposed as two explicit
//! functions: a display order (higher rank sorts first) used for the
//! canonical within-hand presentation, and a value order (natural
//! ascending rank, Ace high) used wherever hand strength is compared.

use core::cmp::Ordering;
use vstd::prelude::*;

verus! {

/// The four card suits. Suits carry no order; they matter only to the
/// flush detector.
#[derive(Clone, Copy, Debug, PartialEq, Eq, Structural)]
pub enum Suit {
    Heart,
    Club,
    Spade,
    Diamond,
}

/// The recoverable failures of building and analysing a hand.
#[derive(Clone, Copy, Debug, PartialEq, Eq, Structural)]
pub enum HandError {
    /// A card was requested with a rank outside [2, 14].
    InvalidRank,
    /// A sixth card was added to a full hand.
    HandFull,
    /// Classification was requested of a hand without exactly five cards.
    IncompleteHand,
}

/// True of the ranks a card may carry: 2 through 10 are the number cards,
/// 11 through 14 denote Jack, Queen, King and Ace.
pub open spec fn valid_rank(r: int) -> bool {
    2 <= r <= 14
}

/// One playing card. Cards are created once and never mutated.
#[derive(Clone, Copy, Debug)]
pub struct Card {
    pub rank: u8,
    pub suit: Suit,
}

impl Card {
    /// The constructor's invariant: the rank lies in [2, 14].
    pub open spec fn wf(self) -> bool {
        valid_rank(self.rank as int)
    }

    /// Builds a card, rejecting any rank outside [2, 14].
    pub fn new(rank: u8, suit: Suit) -> (r: Result<Card, HandError>)
        ensures
            valid_rank(rank as int) ==> r == Ok::<Card, HandError>(Card { rank, suit }),
            !valid_rank(rank as int) ==> r == Err::<Card, HandError>(HandError::InvalidRank),
    {
        if 2 <= rank && rank <= 14 {
            Ok(Card { rank, suit })
        } else {
            Err(HandError::InvalidRank)
        }
    }

    /// Display order: the higher rank comes first (compares as less), so a
    /// hand sorted under this order reads from strongest card to weakest.
    pub fn display_cmp(&self, other: &Card) -> (r: Ordering)
        ensures
            r == Ordering::Less <==> self.rank > other.rank,
            r == Ordering::Equal <==> self.rank == other.rank,
            r == Ordering::Greater <==> self.rank < other.rank,
    {
        if self.rank > other.rank {
            Ordering::Less
        } else if self.rank == other.rank {
            Ordering::Equal
        } else {
            Ordering::Greater
        }
    }

    /// Value order: natural ascending rank, the Ace (14) strongest. This is
    /// the order under which hand strength is compared.
    pub fn value_cmp(&self, other: &Card) -> (r: Ordering)
        ensures
            r == Ordering::Less <==> self.rank < other.rank,
            r == Ordering::Equal <==> self.rank == other.rank,
            r == Ordering::Greater <==> self.rank > other.rank,
    {
        if self.rank < other.rank {
            Ordering::Less
        } else if self.rank == other.rank {
            Ordering::Equal
        } else {
            Ordering::Greater
        }
    }

    /// The rank's face label: the number cards read as their number, the
    /// court cards and the Ace as J, Q, K and A.
    pub fn rank_label(&self) -> (r: &'static str)
        requires
            self.wf(),
        ensures
            self.rank == 2 ==> r@ == "2"@,
            self.rank == 3 ==> r@ == "3"@,
            self.rank == 4 ==> r@ == "4"@,
            self.rank == 5 ==> r@ == "5"@,
            self.rank == 6 ==> r@ == "6"@,
            self.rank == 7 ==> r@ == "7"@,
            self.rank == 8 ==> r@ == "8"@,
            self.rank == 9 ==> r@ == "9"@,
            self.rank == 10 ==> r@ == "10"@,
            self.rank == 11 ==> r@ == "J"@,
            self.rank == 12 ==> r@ == "Q"@,
            self.rank == 13 ==> r@ == "K"@,
            self.rank == 14 ==> r@ == "A"@,
    {
        match self.rank {
            2 => "2",
            3 => "3",
            4 => "4",
            5 => "5",
            6 => "6",
            7 => "7",
            8 => "8",
            9 => "9",
            10 => "10",
            11 => "J",
            12 => "Q",
            13 => "K",
            _ => "A",
        }
    }
}

impl PartialEq for Card {
    /// Value-based equality: suit is ignored on purpose, so two cards of
    /// equal rank and different suit are interchangeable.
    fn eq(&self, other: &Card) -> (r: bool) {
        self.rank == other.rank
    }
}

impl vstd::std_specs::cmp::PartialEqSpecImpl for Card {
    open spec fn obeys_eq_spec() -> bool {
        true
    }

    open spec fn eq_spec(&self, other: &Card) -> bool {
        self.rank == other.rank
    }
}

} // verus!

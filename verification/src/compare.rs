//! The hand comparator: a total order across classified hands. Categories
//! are ranked first by their explicit strength; hands of one category are
//! told apart card by card under value order, in the position the sorter
//! put them, with no inversion.

use crate::card::Card;
use crate::hand::PokerHand;
use crate::hand_type::{strength, PokerHandType};
use core::cmp::Ordering;
use vstd::prelude::*;

verus! {

/// Card-by-card comparison of two equally long card sequences under value
/// order: the first position whose ranks differ decides, the higher rank
/// winning; sequences equal rank for rank compare equal.
pub open spec fn value_order_cmp(a: Seq<Card>, b: Seq<Card>) -> Ordering
    recommends
        a.len() == b.len(),
    decreases a.len(),
{
    if a.len() == 0 || b.len() == 0 {
        Ordering::Equal
    } else if a.first().rank < b.first().rank {
        Ordering::Less
    } else if a.first().rank > b.first().rank {
        Ordering::Greater
    } else {
        value_order_cmp(a.drop_first(), b.drop_first())
    }
}

/// The order between two classified hands: category strength first, then
/// the card sequences under value order.
pub open spec fn hand_cmp(a: PokerHand, b: PokerHand) -> Ordering
    recommends
        a.poker_hand_type is Some,
        b.poker_hand_type is Some,
{
    if strength(a.poker_hand_type->0) < strength(b.poker_hand_type->0) {
        Ordering::Less
    } else if strength(a.poker_hand_type->0) > strength(b.poker_hand_type->0) {
        Ordering::Greater
    } else {
        value_order_cmp(a.cards@, b.cards@)
    }
}

/// A hand of a stronger category compares greater whatever cards either
/// hand holds: in particular, four of a kind always beats a high card.
pub proof fn lemma_four_of_a_kind_beats_high_card(a: PokerHand, b: PokerHand)
    requires
        a.poker_hand_type == Some(PokerHandType::FourOfAKind),
        b.poker_hand_type == Some(PokerHandType::HighCard),
    ensures
        hand_cmp(a, b) == Ordering::Greater,
{
}

/// Two hands of one category compare exactly as their card sequences do
/// under value order: the category breaks no tie of its own.
pub proof fn lemma_equal_categories_compare_by_cards(a: PokerHand, b: PokerHand)
    requires
        a.poker_hand_type is Some,
        b.poker_hand_type is Some,
        a.poker_hand_type == b.poker_hand_type,
    ensures
        hand_cmp(a, b) == value_order_cmp(a.cards@, b.cards@),
{
}

impl PokerHand {
    /// Ranks this hand against another. Both hands must already be
    /// classified and hold equally many cards; comparing an unclassified
    /// hand is a programming error, not a runtime condition.
    pub fn cmp(&self, other: &PokerHand) -> (r: Ordering)
        requires
            self.poker_hand_type is Some,
            other.poker_hand_type is Some,
            self.cards@.len() == other.cards@.len(),
        ensures
            r == hand_cmp(*self, *other),
    {
        let ta = self.poker_hand_type.unwrap();
        let tb = other.poker_hand_type.unwrap();
        let sa = ta.strength_value();
        let sb = tb.strength_value();
        if sa < sb {
            return Ordering::Less;
        }
        if sa > sb {
            return Ordering::Greater;
        }
        proof {
            assert(self.cards@.skip(0) =~= self.cards@);
            assert(other.cards@.skip(0) =~= other.cards@);
        }
        let mut i: usize = 0;
        while i < self.cards.len()
            invariant
                i <= self.cards@.len(),
                self.cards@.len() == other.cards@.len(),
                self.poker_hand_type is Some,
                other.poker_hand_type is Some,
                strength(self.poker_hand_type->0) == strength(other.poker_hand_type->0),
                value_order_cmp(self.cards@.skip(i as int), other.cards@.skip(i as int))
                    == value_order_cmp(self.cards@, other.cards@),
            decreases self.cards@.len() - i,
        {
            let ghost pa = self.cards@.skip(i as int);
            let ghost pb = other.cards@.skip(i as int);
            proof {
                assert(pa.first() == self.cards@[i as int]);
                assert(pb.first() == other.cards@[i as int]);
            }
            let ca = self.cards[i];
            let cb = other.cards[i];
            if ca.rank < cb.rank {
                proof {
                    assert(value_order_cmp(pa, pb) == Ordering::Less);
                }
                return Ordering::Less;
            }
            if ca.rank > cb.rank {
                proof {
                    assert(value_order_cmp(pa, pb) == Ordering::Greater);
                }
                return Ordering::Greater;
            }
            proof {
                assert(pa.drop_first() =~= self.cards@.skip(i as int + 1));
                assert(pb.drop_first() =~= other.cards@.skip(i as int + 1));
            }
            i += 1;
        }
        proof {
            assert(self.cards@.skip(i as int).len() == 0);
        }
        Ordering::Equal
    }
}

impl PartialEq for PokerHand {
    /// Value equality for hands: the same assigned category and the same
    /// rank at every position. Suits are ignored, as card equality ignores
    /// them.
    fn eq(&self, other: &PokerHand) -> (r: bool) {
        if self.cards.len() != other.cards.len() {
            return false;
        }
        let type_eq = match (&self.poker_hand_type, &other.poker_hand_type) {
            (Some(x), Some(y)) => *x == *y,
            (None, None) => true,
            _ => false,
        };
        if !type_eq {
            return false;
        }
        let mut i: usize = 0;
        while i < self.cards.len()
            invariant
                i <= self.cards@.len(),
                self.cards@.len() == other.cards@.len(),
                forall|k: int| 0 <= k < i ==> (#[trigger] self.cards@[k]).rank == other.cards@[k].rank,
            decreases self.cards@.len() - i,
        {
            if self.cards[i].rank != other.cards[i].rank {
                return false;
            }
            i += 1;
        }
        true
    }
}

impl vstd::std_specs::cmp::PartialEqSpecImpl for PokerHand {
    open spec fn obeys_eq_spec() -> bool {
        true
    }

    open spec fn eq_spec(&self, other: &PokerHand) -> bool {
        &&& self.poker_hand_type == other.poker_hand_type
        &&& self.cards@.len() == other.cards@.len()
        &&& forall|i: int|
            0 <= i < self.cards@.len() ==> (#[trigger] self.cards@[i]).rank == other.cards@[i].rank
    }
}

} // verus!

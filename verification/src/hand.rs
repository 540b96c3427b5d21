//! The hand itself: an ordered sequence of at most five cards, plus the
//! category the classifier assigned, absent until classification runs.

use crate::card::{Card, HandError};
use crate::hand_type::PokerHandType;
use vstd::prelude::*;

verus! {

/// A poker hand. It is created empty, filled one card at a time (never
/// beyond five), classified once five cards are present, then sorted for
/// presentation, then optionally compared against another classified hand.
#[derive(Debug)]
pub struct PokerHand {
    pub cards: Vec<Card>,
    pub poker_hand_type: Option<PokerHandType>,
}

impl PokerHand {
    /// The hand's invariant: never more than five cards, each with a rank
    /// the card constructor allows.
    pub open spec fn wf(self) -> bool {
        &&& self.cards@.len() <= 5
        &&& forall|i: int| 0 <= i < self.cards@.len() ==> (#[trigger] self.cards@[i]).wf()
    }

    /// An empty, unclassified hand.
    pub fn new() -> (h: PokerHand)
        ensures
            h.cards@.len() == 0,
            h.poker_hand_type is None,
            h.wf(),
    {
        PokerHand { cards: Vec::new(), poker_hand_type: None }
    }

    /// Appends a card. A hand that already holds five cards is full: the
    /// call fails and the hand stays as it was.
    pub fn add_card(&mut self, card: Card) -> (r: Result<(), HandError>)
        ensures
            final(self).poker_hand_type == old(self).poker_hand_type,
            old(self).cards@.len() >= 5 ==> {
                &&& r == Err::<(), HandError>(HandError::HandFull)
                &&& final(self).cards@ == old(self).cards@
            },
            old(self).cards@.len() < 5 ==> {
                &&& r == Ok::<(), HandError>(())
                &&& final(self).cards@ == old(self).cards@.push(card)
            },
            old(self).wf() && card.wf() ==> final(self).wf(),
    {
        if self.cards.len() >= 5 {
            return Err(HandError::HandFull);
        }
        self.cards.push(card);
        Ok(())
    }
}

} // verus!

//! The hand classifier: exactly one category per five-card hand, decided in
//! a strict priority order. The multiple-of-a-kind categories are read off
//! the histogram's two leading entries; what remains is settled by the two
//! pattern detectors, with the royal flush told from the straight flush by
//! the run's low end.

use crate::card::{Card, HandError};
use crate::counting::{lemma_rank_count_bounds, lemma_rank_count_pos, rank_count};
use crate::hand::PokerHand;
use crate::hand_type::PokerHandType;
use crate::histogram::{counts_sum, hist_le, is_histogram_of, lemma_counts_sum_two};
use crate::patterns::{is_flush, is_run_from, is_straight, is_wheel, wheel_rank};
use vstd::prelude::*;

verus! {

/// Some rank occurs exactly `n` times.
pub open spec fn has_count(s: Seq<Card>, n: int) -> bool {
    exists|r: int| #[trigger] rank_count(s, r) == n
}

/// Two distinct ranks each occur exactly twice.
pub open spec fn has_two_pairs(s: Seq<Card>) -> bool {
    exists|r1: int, r2: int|
        r1 != r2 && #[trigger] rank_count(s, r1) == 2 && #[trigger] rank_count(s, r2) == 2
}

/// The category of a five-card hand, in the classifier's priority order:
/// the multiple-of-a-kind shapes first, then the pattern combinations.
pub open spec fn classification(s: Seq<Card>) -> PokerHandType
    recommends
        s.len() == 5,
{
    if has_count(s, 4) {
        PokerHandType::FourOfAKind
    } else if has_count(s, 3) && has_count(s, 2) {
        PokerHandType::FullHouse
    } else if has_count(s, 3) {
        PokerHandType::ThreeOfAKind
    } else if has_two_pairs(s) {
        PokerHandType::TwoPair
    } else if has_count(s, 2) {
        PokerHandType::OnePair
    } else if is_straight(s) && is_flush(s) {
        if is_run_from(s, 10) {
            PokerHandType::RoyalFlush
        } else {
            PokerHandType::StraightFlush
        }
    } else if is_flush(s) {
        PokerHandType::Flush
    } else if is_straight(s) {
        PokerHandType::Straight
    } else {
        PokerHandType::HighCard
    }
}

/// A nonempty hand's histogram is nonempty.
proof fn lemma_hist_nonempty(s: Seq<Card>, h: Seq<(u8, usize)>)
    requires
        is_histogram_of(h, s),
        s.len() > 0,
    ensures
        h.len() >= 1,
{
    lemma_rank_count_pos(s, s[0].rank as int);
    assert(rank_count(s, s[0].rank as int) > 0);
}

/// A count that occurs in the hand is bounded by the histogram's head.
proof fn lemma_hist_head_ge(s: Seq<Card>, h: Seq<(u8, usize)>, n: int)
    requires
        is_histogram_of(h, s),
        has_count(s, n),
        n >= 1,
    ensures
        h.len() >= 1,
        h[0].1 >= n,
        exists|j: int| 0 <= j < h.len() && (#[trigger] h[j]).1 == n,
{
    let r = choose|r: int| #[trigger] rank_count(s, r) == n;
    assert(rank_count(s, r) > 0);
    let j = choose|j: int| 0 <= j < h.len() && (#[trigger] h[j]).0 as int == r;
    assert(h[j].1 as int == rank_count(s, h[j].0 as int));
    assert(h[j].1 == n);
    if j > 0 {
        assert(hist_le(h[0], h[j]));
    }
}

impl PokerHand {
    /// Classifies the hand, recording its category. A hand without exactly
    /// five cards is incomplete: the call fails and nothing changes.
    pub fn set_hand_type(&mut self) -> (r: Result<(), HandError>)
        requires
            old(self).wf(),
        ensures
            final(self).cards@ == old(self).cards@,
            old(self).cards@.len() != 5 ==> {
                &&& r == Err::<(), HandError>(HandError::IncompleteHand)
                &&& *final(self) == *old(self)
            },
            old(self).cards@.len() == 5 ==> {
                &&& r == Ok::<(), HandError>(())
                &&& final(self).poker_hand_type == Some(classification(old(self).cards@))
            },
    {
        if self.cards.len() != 5 {
            return Err(HandError::IncompleteHand);
        }
        self.poker_hand_type = None;

        let ghost s = self.cards@;
        let hist = self.card_rank_histogram();
        let ghost h = hist@;
        proof {
            lemma_hist_nonempty(s, h);
        }

        let c0 = hist[0].1;
        if c0 == 4 {
            proof {
                assert(rank_count(s, h[0].0 as int) == 4);
                assert(has_count(s, 4));
            }
            self.poker_hand_type = Some(PokerHandType::FourOfAKind);
            return Ok(());
        }
        proof {
            // Nothing occurs four times: the head would be at least four,
            // and a head of five beside a four would overrun five cards.
            if has_count(s, 4) {
                lemma_hist_head_ge(s, h, 4);
                let j = choose|j: int| 0 <= j < h.len() && (#[trigger] h[j]).1 == 4;
                assert(h[0].1 >= 5);
                assert(j != 0);
                if j > 0 {
                    lemma_counts_sum_two(h, 0, j);
                }
                assert(false);
            }
        }
        if c0 == 3 || c0 == 2 {
            proof {
                // With a head below five there is a second entry: a single
                // entry would have to carry all five cards.
                if h.len() < 2 {
                    assert(h.drop_last().len() == 0);
                    assert(counts_sum(h.drop_last()) == 0);
                    assert(h.last() == h[0]);
                    assert(counts_sum(h) == h[0].1 as int);
                    assert(false);
                }
            }
            let c1 = hist[1].1;
            if c0 == 3 {
                proof {
                    assert(rank_count(s, h[0].0 as int) == 3);
                    assert(has_count(s, 3));
                    if c1 != 2 && has_count(s, 2) {
                        // A pair would surface at the second entry, pushing
                        // the first two counts past five cards.
                        lemma_hist_head_ge(s, h, 2);
                        let j = choose|j: int| 0 <= j < h.len() && (#[trigger] h[j]).1 == 2;
                        assert(j != 0);
                        assert(hist_le(h[1], h[j]) || j == 1);
                        assert(h[1].1 >= 2);
                        assert(hist_le(h[0], h[1]));
                        assert(h[1].1 == 3);
                        lemma_counts_sum_two(h, 0, 1);
                        assert(false);
                    }
                }
                if c1 == 2 {
                    proof {
                        assert(rank_count(s, h[1].0 as int) == 2);
                        assert(has_count(s, 2));
                    }
                    self.poker_hand_type = Some(PokerHandType::FullHouse);
                } else {
                    self.poker_hand_type = Some(PokerHandType::ThreeOfAKind);
                }
            } else {
                proof {
                    assert(rank_count(s, h[0].0 as int) == 2);
                    assert(has_count(s, 2));
                    if has_count(s, 3) {
                        lemma_hist_head_ge(s, h, 3);
                        assert(false);
                    }
                    if has_count(s, 4) {
                        lemma_hist_head_ge(s, h, 4);
                        assert(false);
                    }
                }
                if c1 == 2 {
                    proof {
                        assert(rank_count(s, h[1].0 as int) == 2);
                        assert(h[0].0 != h[1].0);
                        assert(has_two_pairs(s));
                    }
                    self.poker_hand_type = Some(PokerHandType::TwoPair);
                } else {
                    proof {
                        // A second pair would stand at or above the second
                        // entry, forcing its count to two.
                        if has_two_pairs(s) {
                            let (r1, r2) = choose|r1: int, r2: int|
                                r1 != r2 && #[trigger] rank_count(s, r1) == 2 && #[trigger] rank_count(s, r2) == 2;
                            let j1 = choose|j: int| 0 <= j < h.len() && (#[trigger] h[j]).0 as int == r1;
                            let j2 = choose|j: int| 0 <= j < h.len() && (#[trigger] h[j]).0 as int == r2;
                            assert(h[j1].1 == 2 && h[j2].1 == 2);
                            assert(j1 != j2);
                            let jx = if j1 > 0 { j1 } else { j2 };
                            assert(jx >= 1 && h[jx].1 == 2);
                            assert(hist_le(h[1], h[jx]) || jx == 1);
                            assert(hist_le(h[0], h[1]));
                            assert(h[1].1 == 2);
                            assert(false);
                        }
                    }
                    self.poker_hand_type = Some(PokerHandType::OnePair);
                }
            }
            return Ok(());
        }

        // The head is one (all ranks distinct) or five (one rank throughout):
        // no multiple-of-a-kind category fits, the patterns decide.
        proof {
            lemma_rank_count_bounds(s, h[0].0 as int);
            assert(h[0].1 <= 5);
            if has_count(s, 4) {
                lemma_hist_head_ge(s, h, 4);
                let j = choose|j: int| 0 <= j < h.len() && (#[trigger] h[j]).1 == 4;
                assert(h[0].1 == 5);
                assert(j != 0);
                if j > 0 {
                    lemma_counts_sum_two(h, 0, j);
                }
                assert(false);
            }
            if has_count(s, 3) {
                lemma_hist_head_ge(s, h, 3);
                let j = choose|j: int| 0 <= j < h.len() && (#[trigger] h[j]).1 == 3;
                assert(h[0].1 == 5);
                assert(j != 0);
                if j > 0 {
                    lemma_counts_sum_two(h, 0, j);
                }
                assert(false);
            }
            if has_count(s, 2) {
                lemma_hist_head_ge(s, h, 2);
                let j = choose|j: int| 0 <= j < h.len() && (#[trigger] h[j]).1 == 2;
                assert(h[0].1 == 5);
                assert(j != 0);
                if j > 0 {
                    lemma_counts_sum_two(h, 0, j);
                }
                assert(false);
            }
        }
        let straight = self.have_straight();
        let flush = self.have_flush();
        match (straight, flush) {
            (false, false) => {
                self.poker_hand_type = Some(PokerHandType::HighCard);
            },
            (false, true) => {
                self.poker_hand_type = Some(PokerHandType::Flush);
            },
            (true, false) => {
                self.poker_hand_type = Some(PokerHandType::Straight);
            },
            (true, true) => {
                let mut mn = self.cards[0].rank;
                let mut k: usize = 1;
                while k < self.cards.len()
                    invariant
                        1 <= k <= self.cards@.len(),
                        exists|i: int| 0 <= i < k && (#[trigger] self.cards@[i]).rank == mn,
                        forall|i: int| 0 <= i < k ==> (#[trigger] self.cards@[i]).rank >= mn,
                    decreases self.cards@.len() - k,
                {
                    if self.cards[k].rank < mn {
                        mn = self.cards[k].rank;
                    }
                    k += 1;
                }
                proof {
                    lemma_rank_count_pos(s, mn as int);
                    assert(rank_count(s, mn as int) > 0);
                    if is_wheel(s) {
                        // The wheel's low end is the deuce, never ten.
                        assert(wheel_rank(mn as int));
                        lemma_rank_count_pos(s, 2);
                        assert(rank_count(s, 2) == 1);
                        assert(mn == 2);
                        assert(rank_count(s, 13) == 0);
                        assert(!is_run_from(s, 10));
                    } else {
                        let m = choose|m: int| is_run_from(s, m);
                        assert(rank_count(s, m) == 1);
                        lemma_rank_count_pos(s, m);
                        assert(m <= (mn as int) && (mn as int) < m + 5);
                        assert(mn as int == m);
                        if mn != 10 && is_run_from(s, 10) {
                            assert(rank_count(s, 10) == 1);
                            assert(m <= 10 < m + 5);
                            assert(rank_count(s, m) == (if 10 <= m < 15 {
                                1int
                            } else {
                                0int
                            }));
                            assert(false);
                        }
                    }
                }
                if mn == 10 {
                    self.poker_hand_type = Some(PokerHandType::RoyalFlush);
                } else {
                    self.poker_hand_type = Some(PokerHandType::StraightFlush);
                }
            },
        }
        Ok(())
    }
}

} // verus!

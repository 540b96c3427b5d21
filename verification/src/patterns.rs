//! The two pattern detectors: flush (all five cards one suit) and straight
//! (five consecutive ranks, or the ace-low wheel {2,3,4,5,A}, where the Ace
//! counts as 1 for straight purposes only).

use crate::card::Card;
use crate::counting::{
    lemma_rank_count_pos, lemma_rank_list_counts, lemma_val_count_distinct, lemma_val_count_pos,
    lemma_val_count_two, lemma_val_count_update, rank_count, val_count,
};
use crate::hand::PokerHand;
use vstd::pervasive::VecAdditionalExecFns;
use vstd::prelude::*;

verus! {

/// Every card shows the first card's suit.
pub open spec fn is_flush(s: Seq<Card>) -> bool {
    forall|i: int| 0 <= i < s.len() ==> (#[trigger] s[i]).suit == s[0].suit
}

/// The ranks are exactly m, m+1, m+2, m+3, m+4, one card each.
pub open spec fn is_run_from(s: Seq<Card>, m: int) -> bool {
    forall|r: int|
        #[trigger] rank_count(s, r) == if m <= r < m + 5 {
            1int
        } else {
            0int
        }
}

/// The ranks of the ace-low wheel straight.
pub open spec fn wheel_rank(r: int) -> bool {
    r == 2 || r == 3 || r == 4 || r == 5 || r == 14
}

/// The ranks are exactly 2, 3, 4, 5 and the Ace, one card each.
pub open spec fn is_wheel(s: Seq<Card>) -> bool {
    forall|r: int|
        #[trigger] rank_count(s, r) == if wheel_rank(r) {
            1int
        } else {
            0int
        }
}

/// Sorted ascending, the ranks form five consecutive integers, or they are
/// exactly {2,3,4,5,14}.
pub open spec fn is_straight(s: Seq<Card>) -> bool {
    (exists|m: int| is_run_from(s, m)) || is_wheel(s)
}

/// Sorts a rank list ascending in place, keeping every value's count.
/// A list that is already sorted comes back unchanged.
fn sort_ranks_ascending(v: &mut Vec<u8>)
    ensures
        final(v)@.len() == old(v)@.len(),
        forall|a: int, b: int| 0 <= a < b < final(v)@.len() ==> final(v)@[a] <= final(v)@[b],
        forall|x: int| #[trigger] val_count(final(v)@, x) == val_count(old(v)@, x),
        (forall|a: int, b: int| 0 <= a < b < old(v)@.len() ==> old(v)@[a] <= old(v)@[b])
            ==> final(v)@ == old(v)@,
{
    let ghost orig = v@;
    let n = v.len();
    let mut i: usize = 1;
    while i < n
        invariant
            n == v@.len(),
            1 <= i,
            i <= n || n == 0,
            forall|a: int, b: int| 0 <= a < b < i ==> v@[a] <= v@[b],
            forall|x: int| #[trigger] val_count(v@, x) == val_count(orig, x),
            (forall|a: int, b: int| 0 <= a < b < orig.len() ==> orig[a] <= orig[b]) ==> v@ == orig,
        decreases n - i,
    {
        let mut j: usize = i;
        while j > 0 && v[j] < v[j - 1]
            invariant
                n == v@.len(),
                0 <= j <= i < n,
                forall|a: int, b: int| 0 <= a < b <= i && b != j ==> v@[a] <= v@[b],
                forall|b: int| j < b <= i ==> v@[j as int] <= v@[b],
                forall|x: int| #[trigger] val_count(v@, x) == val_count(orig, x),
                (forall|a: int, b: int| 0 <= a < b < orig.len() ==> orig[a] <= orig[b]) ==> v@ == orig,
            decreases j,
        {
            let ghost before = v@;
            let x = v[j];
            let y = v[j - 1];
            v.set(j, y);
            v.set(j - 1, x);
            proof {
                assert forall|q: int| #[trigger] val_count(v@, q) == val_count(orig, q) by {
                    lemma_val_count_update(before, j as int, y, q);
                    lemma_val_count_update(before.update(j as int, y), j as int - 1, x, q);
                    assert(v@ == before.update(j as int, y).update(j as int - 1, x));
                    assert(val_count(before, q) == val_count(orig, q));
                }
            }
            j -= 1;
        }
        i += 1;
    }
}

/// The counts of a strictly consecutive five-rank list: one for each value
/// in the window, none outside it.
proof fn lemma_run_counts(t: Seq<u8>)
    requires
        t.len() == 5,
        forall|k: int| 0 <= k < 5 ==> (#[trigger] t[k]) as int == t[0] + k,
    ensures
        forall|q: int|
            #[trigger] val_count(t, q) == if t[0] <= q < t[0] + 5 {
                1int
            } else {
                0int
            },
{
    lemma_val_count_distinct(t);
    assert forall|q: int|
        #[trigger] val_count(t, q) == (if t[0] <= q < t[0] + 5 {
            1int
        } else {
            0int
        }) by {
        if t[0] <= q < t[0] + 5 {
            assert(t[q - t[0]] as int == q);
        }
    }
}

/// The counts of the concrete sorted wheel list 2,3,4,5,14.
proof fn lemma_wheel_counts(t: Seq<u8>)
    requires
        t.len() == 5,
        t[0] == 2,
        t[1] == 3,
        t[2] == 4,
        t[3] == 5,
        t[4] == 14,
    ensures
        forall|q: int|
            #[trigger] val_count(t, q) == if wheel_rank(q) {
                1int
            } else {
                0int
            },
{
    lemma_val_count_distinct(t);
    assert forall|q: int|
        #[trigger] val_count(t, q) == (if wheel_rank(q) {
            1int
        } else {
            0int
        }) by {
        if q == 2 {
            assert(t[0] as int == q);
        } else if q == 3 {
            assert(t[1] as int == q);
        } else if q == 4 {
            assert(t[2] as int == q);
        } else if q == 5 {
            assert(t[3] as int == q);
        } else if q == 14 {
            assert(t[4] as int == q);
        }
    }
}

/// A sorted five-value list whose counts are one across a window of five
/// integers is that window in order.
proof fn lemma_sorted_window(t: Seq<u8>, m: int)
    requires
        t.len() == 5,
        forall|a: int, b: int| 0 <= a < b < 5 ==> t[a] <= t[b],
        forall|q: int|
            #[trigger] val_count(t, q) == if m <= q < m + 5 {
                1int
            } else {
                0int
            },
    ensures
        forall|k: int| 0 <= k < 5 ==> (#[trigger] t[k]) as int == m + k,
{
    assert forall|a: int, b: int| 0 <= a < b < 5 implies t[a] != t[b] by {
        if t[a] == t[b] {
            lemma_val_count_two(t, t[a] as int, a, b);
        }
    }
    assert forall|k: int| 0 <= k < 5 implies m <= #[trigger] t[k] < m + 5 by {
        lemma_val_count_pos(t, t[k] as int);
    }
    assert(t[0] < t[1] && t[1] < t[2] && t[2] < t[3] && t[3] < t[4]);
    assert(t[4] >= t[0] + 4);
    assert(t[0] as int == m);
    assert(t[1] as int == m + 1 && t[2] as int == m + 2 && t[3] as int == m + 3 && t[4] as int == m
        + 4) by {
        assert(t[1] <= t[2] - 1 && t[2] <= t[3] - 1 && t[3] <= t[4] - 1);
    }
}

/// A sorted five-value list whose counts are one exactly on the wheel ranks
/// is 2,3,4,5,14 in order.
proof fn lemma_sorted_wheel(t: Seq<u8>)
    requires
        t.len() == 5,
        forall|a: int, b: int| 0 <= a < b < 5 ==> t[a] <= t[b],
        forall|q: int|
            #[trigger] val_count(t, q) == if wheel_rank(q) {
                1int
            } else {
                0int
            },
    ensures
        t[0] == 2,
        t[1] == 3,
        t[2] == 4,
        t[3] == 5,
        t[4] == 14,
{
    assert forall|a: int, b: int| 0 <= a < b < 5 implies t[a] != t[b] by {
        if t[a] == t[b] {
            lemma_val_count_two(t, t[a] as int, a, b);
        }
    }
    assert forall|k: int| 0 <= k < 5 implies wheel_rank(t[k] as int) by {
        lemma_val_count_pos(t, t[k] as int);
    }
    assert(val_count(t, 2) == 1 && val_count(t, 3) == 1 && val_count(t, 4) == 1 && val_count(t, 5)
        == 1 && val_count(t, 14) == 1);
    lemma_val_count_pos(t, 2);
    lemma_val_count_pos(t, 3);
    lemma_val_count_pos(t, 4);
    lemma_val_count_pos(t, 5);
    lemma_val_count_pos(t, 14);
    let i2 = choose|i: int| 0 <= i < 5 && (#[trigger] t[i]) as int == 2;
    let i3 = choose|i: int| 0 <= i < 5 && (#[trigger] t[i]) as int == 3;
    let i4 = choose|i: int| 0 <= i < 5 && (#[trigger] t[i]) as int == 4;
    let i5 = choose|i: int| 0 <= i < 5 && (#[trigger] t[i]) as int == 5;
    let i14 = choose|i: int| 0 <= i < 5 && (#[trigger] t[i]) as int == 14;
    assert(t[0] <= t[i2] && t[i14] <= t[4]);
    assert(t[0] == 2 && t[4] == 14);
    assert(i3 != 0 && i3 != 4 && i4 != 0 && i4 != 4 && i5 != 0 && i5 != 4);
    assert(t[1] <= t[i3] && t[i3] <= t[3]);
    assert(t[1] > 2 && t[1] <= 3);
    assert(t[1] == 3);
    assert(i4 != 1 && i5 != 1);
    assert(t[2] <= t[i4]);
    assert(t[2] == 4);
    assert(i5 == 3);
    assert(t[3] == 5);
}

impl PokerHand {
    /// Flush detector: true iff every card's suit equals the first card's.
    pub fn have_flush(&self) -> (r: bool)
        requires
            self.cards@.len() >= 1,
        ensures
            r == is_flush(self.cards@),
    {
        let suit0 = self.cards[0].suit;
        let mut result = true;
        let mut i: usize = 1;
        while i < self.cards.len()
            invariant
                1 <= i <= self.cards@.len(),
                suit0 == self.cards@[0].suit,
                result ==> forall|k: int|
                    0 <= k < i ==> (#[trigger] self.cards@[k]).suit == self.cards@[0].suit,
                !result ==> exists|k: int|
                    0 <= k < i && (#[trigger] self.cards@[k]).suit != self.cards@[0].suit,
            decreases self.cards@.len() - i,
        {
            if !(self.cards[i].suit == suit0) {
                result = false;
                proof {
                    assert(self.cards@[i as int].suit != self.cards@[0].suit);
                }
            }
            i += 1;
        }
        result
    }

    /// Straight detector: true iff the sorted ranks form five consecutive
    /// integers, or are exactly {2,3,4,5,14} — the wheel, where the Ace
    /// counts as the low end.
    pub fn have_straight(&self) -> (r: bool)
        requires
            self.cards@.len() == 5,
            self.wf(),
        ensures
            r == is_straight(self.cards@),
    {
        let cards = &self.cards;
        let mut ranks: Vec<u8> = Vec::new();
        let mut i: usize = 0;
        while i < cards.len()
            invariant
                i <= cards@.len(),
                ranks@.len() == i,
                forall|k: int| 0 <= k < i ==> (#[trigger] ranks@[k]) == cards@[k].rank,
            decreases cards@.len() - i,
        {
            ranks.push(cards[i].rank);
            i += 1;
        }
        let ghost rs0 = ranks@;
        proof {
            lemma_rank_list_counts(cards@, rs0);
        }
        sort_ranks_ascending(&mut ranks);
        let ghost t = ranks@;
        proof {
            assert forall|q: int| #[trigger] rank_count(self.cards@, q) == val_count(t, q) by {
                assert(val_count(t, q) == val_count(rs0, q));
                assert(val_count(rs0, q) == rank_count(self.cards@, q));
            }
            assert forall|k: int| 0 <= k < t.len() implies #[trigger] t[k] <= 14 by {
                lemma_val_count_pos(t, t[k] as int);
                assert(val_count(t, t[k] as int) > 0);
                assert(rank_count(self.cards@, t[k] as int) > 0);
                lemma_rank_count_pos(self.cards@, t[k] as int);
            }
        }

        if ranks[0] == 2 && ranks[1] == 3 && ranks[2] == 4 && ranks[3] == 5 && ranks[4] == 14 {
            proof {
                lemma_wheel_counts(t);
                assert forall|r: int|
                    #[trigger] rank_count(self.cards@, r) == (if wheel_rank(r) {
                        1int
                    } else {
                        0int
                    }) by {
                    assert(rank_count(self.cards@, r) == val_count(t, r));
                }
            }
            true
        } else if ranks[1] == ranks[0] + 1 && ranks[2] == ranks[0] + 2 && ranks[3] == ranks[0] + 3
            && ranks[4] == ranks[0] + 4 {
            proof {
                lemma_run_counts(t);
                assert forall|r: int|
                    #[trigger] rank_count(self.cards@, r) == (if t[0] <= r < t[0] + 5 {
                        1int
                    } else {
                        0int
                    }) by {
                    assert(rank_count(self.cards@, r) == val_count(t, r));
                }
                assert(is_run_from(self.cards@, t[0] as int));
            }
            true
        } else {
            proof {
                if exists|m: int| is_run_from(self.cards@, m) {
                    let m = choose|m: int| is_run_from(self.cards@, m);
                    assert forall|q: int|
                        #[trigger] val_count(t, q) == (if m <= q < m + 5 {
                            1int
                        } else {
                            0int
                        }) by {
                        assert(val_count(t, q) == rank_count(self.cards@, q));
                    }
                    lemma_sorted_window(t, m);
                    assert(false);
                }
                if is_wheel(self.cards@) {
                    assert forall|q: int|
                        #[trigger] val_count(t, q) == (if wheel_rank(q) {
                            1int
                        } else {
                            0int
                        }) by {
                        assert(val_count(t, q) == rank_count(self.cards@, q));
                    }
                    lemma_sorted_wheel(t);
                    assert(false);
                }
            }
            false
        }
    }
}

} // verus!

//! The histogram analyzer: the hand's cards aggregated into (rank, count)
//! pairs, sorted by count descending with ties broken toward the higher
//! rank. That final sort, not the aggregation, carries the determinism the
//! classifier and the sorter both lean on: position 0 is the most frequent
//! rank, position 1 the next most frequent.

use crate::card::Card;
use crate::counting::{lemma_rank_count_bounds, rank_count};
use crate::hand::PokerHand;
use vstd::pervasive::VecAdditionalExecFns;
use vstd::prelude::*;

verus! {

/// The histogram's order: `a` may stand at or before `b` when `a` has the
/// larger count, or an equal count and at least `b`'s rank.
pub open spec fn hist_le(a: (u8, usize), b: (u8, usize)) -> bool {
    a.1 > b.1 || (a.1 == b.1 && a.0 >= b.0)
}

/// Sorted by (count descending, rank descending).
pub open spec fn hist_sorted(h: Seq<(u8, usize)>) -> bool {
    forall|i: int, j: int| 0 <= i < j < h.len() ==> hist_le(#[trigger] h[i], #[trigger] h[j])
}

/// The total of the histogram's counts.
pub open spec fn counts_sum(h: Seq<(u8, usize)>) -> int
    decreases h.len(),
{
    if h.len() == 0 {
        0
    } else {
        counts_sum(h.drop_last()) + h.last().1 as int
    }
}

/// What makes `h` the rank histogram of `cards`: one entry per rank that
/// occurs, carrying its exact count, sorted by (count desc, rank desc),
/// the counts adding up to the number of cards.
pub open spec fn is_histogram_of(h: Seq<(u8, usize)>, cards: Seq<Card>) -> bool {
    &&& forall|j: int|
        0 <= j < h.len() ==> (#[trigger] h[j]).1 as int == rank_count(cards, h[j].0 as int) && h[j].1 >= 1
    &&& forall|i: int, j: int| 0 <= i < j < h.len() ==> (#[trigger] h[i]).0 != (#[trigger] h[j]).0
    &&& forall|r: int|
        rank_count(cards, r) > 0 ==> exists|j: int| 0 <= j < h.len() && (#[trigger] h[j]).0 as int == r
    &&& hist_sorted(h)
    &&& counts_sum(h) == cards.len()
}

pub proof fn lemma_counts_sum_nonneg(h: Seq<(u8, usize)>)
    ensures
        counts_sum(h) >= 0,
    decreases h.len(),
{
    if h.len() > 0 {
        lemma_counts_sum_nonneg(h.drop_last());
    }
}

pub proof fn lemma_counts_sum_update(h: Seq<(u8, usize)>, j: int, e: (u8, usize))
    requires
        0 <= j < h.len(),
    ensures
        counts_sum(h.update(j, e)) == counts_sum(h) - h[j].1 + e.1,
    decreases h.len(),
{
    let t = h.update(j, e);
    if j == h.len() - 1 {
        assert(t.drop_last() =~= h.drop_last());
        assert(t.last() == e);
    } else {
        assert(t.drop_last() =~= h.drop_last().update(j, e));
        assert(t.last() == h.last());
        lemma_counts_sum_update(h.drop_last(), j, e);
    }
}

/// The sum is at least any single count.
pub proof fn lemma_counts_sum_one(h: Seq<(u8, usize)>, i: int)
    requires
        0 <= i < h.len(),
    ensures
        counts_sum(h) >= h[i].1,
    decreases h.len(),
{
    if i == h.len() - 1 {
        lemma_counts_sum_nonneg(h.drop_last());
    } else {
        lemma_counts_sum_one(h.drop_last(), i);
    }
}

/// The sum is at least any two distinct counts together.
pub proof fn lemma_counts_sum_two(h: Seq<(u8, usize)>, i: int, j: int)
    requires
        0 <= i < j < h.len(),
    ensures
        counts_sum(h) >= h[i].1 + h[j].1,
    decreases h.len(),
{
    if j == h.len() - 1 {
        lemma_counts_sum_one(h.drop_last(), i);
    } else {
        lemma_counts_sum_two(h.drop_last(), i, j);
    }
}

/// The sum is at least any three distinct counts together.
pub proof fn lemma_counts_sum_three(h: Seq<(u8, usize)>, i: int, j: int, k: int)
    requires
        0 <= i < j < k < h.len(),
    ensures
        counts_sum(h) >= h[i].1 + h[j].1 + h[k].1,
    decreases h.len(),
{
    if k == h.len() - 1 {
        lemma_counts_sum_two(h.drop_last(), i, j);
    } else {
        lemma_counts_sum_three(h.drop_last(), i, j, k);
    }
}

/// The sum dominates any two counts, whichever order their indices come in.
pub proof fn lemma_counts_sum_two_any(h: Seq<(u8, usize)>, i: int, j: int)
    requires
        0 <= i < h.len(),
        0 <= j < h.len(),
        i != j,
    ensures
        counts_sum(h) >= h[i].1 + h[j].1,
{
    if i < j {
        lemma_counts_sum_two(h, i, j);
    } else {
        lemma_counts_sum_two(h, j, i);
    }
}

/// The sum dominates any three counts, whichever order their indices come in.
pub proof fn lemma_counts_sum_three_any(h: Seq<(u8, usize)>, i: int, j: int, k: int)
    requires
        0 <= i < h.len(),
        0 <= j < h.len(),
        0 <= k < h.len(),
        i != j,
        i != k,
        j != k,
    ensures
        counts_sum(h) >= h[i].1 + h[j].1 + h[k].1,
{
    let a = if i < j { i } else { j };
    let b = if i < j { j } else { i };
    if k < a {
        lemma_counts_sum_three(h, k, a, b);
    } else if k < b {
        lemma_counts_sum_three(h, a, k, b);
    } else {
        lemma_counts_sum_three(h, a, b, k);
    }
}

/// Two distinct ranks that both occur cannot together outnumber the hand.
pub proof fn lemma_two_ranks(s: Seq<Card>, h: Seq<(u8, usize)>, r1: int, r2: int)
    requires
        is_histogram_of(h, s),
        r1 != r2,
        rank_count(s, r1) >= 1,
        rank_count(s, r2) >= 1,
    ensures
        rank_count(s, r1) + rank_count(s, r2) <= s.len(),
{
    let j1 = choose|j: int| 0 <= j < h.len() && (#[trigger] h[j]).0 as int == r1;
    let j2 = choose|j: int| 0 <= j < h.len() && (#[trigger] h[j]).0 as int == r2;
    assert(h[j1].1 as int == rank_count(s, r1));
    assert(h[j2].1 as int == rank_count(s, r2));
    lemma_counts_sum_two_any(h, j1, j2);
}

/// Three pairwise distinct ranks that all occur cannot together outnumber
/// the hand.
pub proof fn lemma_three_ranks(s: Seq<Card>, h: Seq<(u8, usize)>, r1: int, r2: int, r3: int)
    requires
        is_histogram_of(h, s),
        r1 != r2,
        r1 != r3,
        r2 != r3,
        rank_count(s, r1) >= 1,
        rank_count(s, r2) >= 1,
        rank_count(s, r3) >= 1,
    ensures
        rank_count(s, r1) + rank_count(s, r2) + rank_count(s, r3) <= s.len(),
{
    let j1 = choose|j: int| 0 <= j < h.len() && (#[trigger] h[j]).0 as int == r1;
    let j2 = choose|j: int| 0 <= j < h.len() && (#[trigger] h[j]).0 as int == r2;
    let j3 = choose|j: int| 0 <= j < h.len() && (#[trigger] h[j]).0 as int == r3;
    assert(h[j1].1 as int == rank_count(s, r1));
    assert(h[j2].1 as int == rank_count(s, r2));
    assert(h[j3].1 as int == rank_count(s, r3));
    lemma_counts_sum_three_any(h, j1, j2, j3);
}

/// A one-entry histogram carries the whole hand in that entry.
pub proof fn lemma_hist_single(s: Seq<Card>, h: Seq<(u8, usize)>)
    requires
        is_histogram_of(h, s),
        h.len() == 1,
    ensures
        h[0].1 as int == s.len(),
{
    assert(h.drop_last().len() == 0);
    assert(counts_sum(h.drop_last()) == 0);
    assert(h.last() == h[0]);
}

/// Strictly before in the histogram's order.
fn hist_before(a: (u8, usize), b: (u8, usize)) -> (r: bool)
    ensures
        r == (a.1 > b.1 || (a.1 == b.1 && a.0 > b.0)),
{
    a.1 > b.1 || (a.1 == b.1 && a.0 > b.0)
}

impl PokerHand {
    /// Aggregates the hand's cards into (rank, count) pairs and sorts them
    /// by count descending, ties broken by rank descending. The counts add
    /// up to the number of cards in the hand.
    pub fn card_rank_histogram(&self) -> (h: Vec<(u8, usize)>)
        ensures
            is_histogram_of(h@, self.cards@),
    {
        let ghost all = self.cards@;
        let mut results: Vec<(u8, usize)> = Vec::new();

        let mut i: usize = 0;
        while i < self.cards.len()
            invariant
                i <= self.cards@.len(),
                self.cards@ == all,
                forall|j: int|
                    0 <= j < results@.len() ==> (#[trigger] results@[j]).1 as int == rank_count(
                        all.subrange(0, i as int),
                        results@[j].0 as int,
                    ) && results@[j].1 >= 1,
                forall|a: int, b: int|
                    0 <= a < b < results@.len() ==> (#[trigger] results@[a]).0 != (#[trigger] results@[b]).0,
                forall|r: int|
                    rank_count(all.subrange(0, i as int), r) > 0 ==> exists|j: int|
                        0 <= j < results@.len() && (#[trigger] results@[j]).0 as int == r,
                counts_sum(results@) == i,
            decreases self.cards@.len() - i,
        {
            let r = self.cards[i].rank;
            let ghost pre = all.subrange(0, i as int);
            let ghost post = all.subrange(0, i as int + 1);
            proof {
                assert(post.drop_last() =~= pre);
                assert(post.last() == all[i as int]);
            }

            let mut j: usize = 0;
            while j < results.len() && results[j].0 != r
                invariant
                    j <= results@.len(),
                    forall|k: int| 0 <= k < j ==> (#[trigger] results@[k]).0 != r,
                decreases results@.len() - j,
            {
                j += 1;
            }

            let ghost before = results@;
            if j < results.len() {
                let (r0, c0) = results[j];
                proof {
                    lemma_rank_count_bounds(pre, r0 as int);
                    lemma_counts_sum_update(results@, j as int, (r0, (c0 + 1) as usize));
                }
                results.set(j, (r0, c0 + 1));
                proof {
                    assert forall|r2: int| rank_count(post, r2) > 0 implies exists|k: int|
                        0 <= k < results@.len() && (#[trigger] results@[k]).0 as int == r2 by {
                        if r2 == r as int {
                            assert(results@[j as int].0 as int == r2);
                        } else {
                            assert(rank_count(pre, r2) > 0);
                            let k = choose|k: int|
                                0 <= k < before.len() && (#[trigger] before[k]).0 as int == r2;
                            assert(results@[k].0 as int == r2);
                        }
                    }
                }
            } else {
                proof {
                    lemma_rank_count_bounds(pre, r as int);
                    assert(rank_count(pre, r as int) == 0) by {
                        if rank_count(pre, r as int) > 0 {
                            let k = choose|k: int|
                                0 <= k < results@.len() && (#[trigger] results@[k]).0 as int == r as int;
                            assert(results@[k].0 != r);
                        }
                    }
                    assert(counts_sum(results@.push((r, 1usize))) == counts_sum(results@) + 1) by {
                        assert(results@.push((r, 1usize)).drop_last() =~= results@);
                    }
                }
                results.push((r, 1));
                proof {
                    assert forall|r2: int| rank_count(post, r2) > 0 implies exists|k: int|
                        0 <= k < results@.len() && (#[trigger] results@[k]).0 as int == r2 by {
                        if r2 == r as int {
                            assert(results@[before.len() as int].0 as int == r2);
                        } else {
                            assert(rank_count(pre, r2) > 0);
                            let k = choose|k: int|
                                0 <= k < before.len() && (#[trigger] before[k]).0 as int == r2;
                            assert(results@[k].0 as int == r2);
                        }
                    }
                }
            }
            i += 1;
        }
        proof {
            assert(all.subrange(0, all.len() as int) =~= all);
        }

        // Insertion sort by (count desc, rank desc). Sorting permutes the
        // entries in place, so every per-entry fact above is kept.
        let n = results.len();
        let mut i: usize = 1;
        while i < n
            invariant
                n == results@.len(),
                1 <= i,
                i <= n || n == 0,
                forall|j: int|
                    0 <= j < results@.len() ==> (#[trigger] results@[j]).1 as int == rank_count(
                        all,
                        results@[j].0 as int,
                    ) && results@[j].1 >= 1,
                forall|a: int, b: int|
                    0 <= a < b < results@.len() ==> (#[trigger] results@[a]).0 != (#[trigger] results@[b]).0,
                forall|r: int|
                    rank_count(all, r) > 0 ==> exists|j: int|
                        0 <= j < results@.len() && (#[trigger] results@[j]).0 as int == r,
                counts_sum(results@) == all.len(),
                forall|a: int, b: int| 0 <= a < b < i ==> hist_le(#[trigger] results@[a], #[trigger] results@[b]),
            decreases n - i,
        {
            let mut j: usize = i;
            while j > 0 && hist_before(results[j], results[j - 1])
                invariant
                    n == results@.len(),
                    0 <= j <= i < n,
                    forall|k: int|
                        0 <= k < results@.len() ==> (#[trigger] results@[k]).1 as int == rank_count(
                            all,
                            results@[k].0 as int,
                        ) && results@[k].1 >= 1,
                    forall|a: int, b: int|
                        0 <= a < b < results@.len() ==> (#[trigger] results@[a]).0 != (#[trigger] results@[b]).0,
                    forall|r: int|
                        rank_count(all, r) > 0 ==> exists|k: int|
                            0 <= k < results@.len() && (#[trigger] results@[k]).0 as int == r,
                    counts_sum(results@) == all.len(),
                    forall|a: int, b: int|
                        0 <= a < b <= i && b != j ==> hist_le(#[trigger] results@[a], #[trigger] results@[b]),
                    forall|b: int| j < b <= i ==> hist_le(results@[j as int], #[trigger] results@[b]),
                decreases j,
            {
                let ghost before = results@;
                let x = results[j];
                let y = results[j - 1];
                proof {
                    lemma_counts_sum_update(results@, j as int, y);
                    lemma_counts_sum_update(results@.update(j as int, y), j as int - 1, x);
                }
                results.set(j, y);
                results.set(j - 1, x);
                proof {
                    assert forall|r2: int| rank_count(all, r2) > 0 implies exists|k: int|
                        0 <= k < results@.len() && (#[trigger] results@[k]).0 as int == r2 by {
                        let k = choose|k: int|
                            0 <= k < before.len() && (#[trigger] before[k]).0 as int == r2;
                        if k == j as int {
                            assert(results@[j as int - 1].0 as int == r2);
                        } else if k == j as int - 1 {
                            assert(results@[j as int].0 as int == r2);
                        } else {
                            assert(results@[k].0 as int == r2);
                        }
                    }
                }
                j -= 1;
            }
            i += 1;
        }
        results
    }
}

} // verus!

//! The hand sorter: rearranges a classified hand's cards in place into the
//! canonical presentation order of its category — priority ranks first for
//! the pair-built categories, rank descending for the rest, with the wheel
//! straight rotated so its Ace trails.

use crate::card::{valid_rank, Card, HandError};
use crate::classify::{classification, has_count, has_two_pairs};
use crate::counting::{
    card_count, lemma_card_count_drop_first, lemma_card_count_pos, lemma_card_count_update,
    lemma_rank_count_bounds, lemma_rank_count_drop_first, lemma_rank_count_pos,
    lemma_rank_count_two, lemma_rank_count_update, rank_count,
};
use crate::hand::PokerHand;
use crate::hand_type::PokerHandType;
use crate::histogram::{hist_le, is_histogram_of, lemma_hist_single, lemma_three_ranks, lemma_two_ranks};
use crate::patterns::{is_straight, is_wheel, wheel_rank};
use vstd::pervasive::VecAdditionalExecFns;
use vstd::prelude::*;

verus! {

/// Where a card stands in a category's presentation order: cards of the
/// first priority rank lead, cards of the second follow, the rest trail by
/// rank descending. A priority of zero — a rank no card carries — stands
/// for "no priority".
pub open spec fn sort_key(c: Card, p1: int, p2: int) -> int {
    if c.rank as int == p1 {
        0
    } else if c.rank as int == p2 {
        1
    } else {
        2 + (14 - c.rank as int)
    }
}

/// Sorted ascending under the category's key.
pub open spec fn key_sorted(s: Seq<Card>, p1: int, p2: int) -> bool {
    forall|a: int, b: int|
        0 <= a < b < s.len() ==> #[trigger] sort_key(s[a], p1, p2) <= #[trigger] sort_key(
            s[b],
            p1,
            p2,
        )
}

/// The wheel's presentation order: 5, 4, 3, 2, Ace.
pub open spec fn wheel_order(s: Seq<Card>) -> bool {
    &&& s.len() == 5
    &&& s[0].rank == 5
    &&& s[1].rank == 4
    &&& s[2].rank == 3
    &&& s[3].rank == 2
    &&& s[4].rank == 14
}

/// The order the sorter owes a hand of category `t`. The priority ranks are
/// not named here: they are whatever ranks carry the category's counts.
pub open spec fn arranged(s: Seq<Card>, t: PokerHandType) -> bool {
    match t {
        PokerHandType::OnePair => forall|p: int|
            #[trigger] rank_count(s, p) == 2 ==> key_sorted(s, p, 0),
        PokerHandType::ThreeOfAKind => forall|p: int|
            #[trigger] rank_count(s, p) == 3 ==> key_sorted(s, p, 0),
        PokerHandType::FourOfAKind => forall|p: int|
            #[trigger] rank_count(s, p) == 4 ==> key_sorted(s, p, 0),
        PokerHandType::FullHouse => forall|p1: int, p2: int|
            #[trigger] rank_count(s, p1) == 3 && #[trigger] rank_count(s, p2) == 2 ==> key_sorted(
                s,
                p1,
                p2,
            ),
        PokerHandType::TwoPair => forall|p1: int, p2: int|
            p1 > p2 && #[trigger] rank_count(s, p1) == 2 && #[trigger] rank_count(s, p2) == 2
                ==> key_sorted(s, p1, p2),
        PokerHandType::Straight | PokerHandType::StraightFlush => if is_wheel(s) {
            wheel_order(s)
        } else {
            key_sorted(s, 0, 0)
        },
        _ => key_sorted(s, 0, 0),
    }
}

/// The key as a runtime value.
fn card_key(c: Card, p1: u8, p2: u8) -> (k: i32)
    ensures
        k as int == sort_key(c, p1 as int, p2 as int),
{
    if c.rank == p1 {
        0
    } else if c.rank == p2 {
        1
    } else {
        2 + (14 - (c.rank as i32))
    }
}

/// Sorts the cards ascending under the key, in place, keeping every rank's
/// and every card's count. An already-sorted hand comes back unchanged.
pub(crate) fn sort_by_key(cards: &mut Vec<Card>, p1: u8, p2: u8)
    ensures
        final(cards)@.len() == old(cards)@.len(),
        key_sorted(final(cards)@, p1 as int, p2 as int),
        forall|r: int| #[trigger] rank_count(final(cards)@, r) == rank_count(old(cards)@, r),
        forall|c: Card| #[trigger] card_count(final(cards)@, c) == card_count(old(cards)@, c),
        key_sorted(old(cards)@, p1 as int, p2 as int) ==> final(cards)@ == old(cards)@,
{
    let ghost orig = cards@;
    let n = cards.len();
    let mut i: usize = 1;
    while i < n
        invariant
            n == cards@.len(),
            1 <= i,
            i <= n || n == 0,
            forall|a: int, b: int|
                0 <= a < b < i ==> #[trigger] sort_key(cards@[a], p1 as int, p2 as int)
                    <= #[trigger] sort_key(cards@[b], p1 as int, p2 as int),
            forall|r: int| #[trigger] rank_count(cards@, r) == rank_count(orig, r),
            forall|c: Card| #[trigger] card_count(cards@, c) == card_count(orig, c),
            key_sorted(orig, p1 as int, p2 as int) ==> cards@ == orig,
        decreases n - i,
    {
        let mut j: usize = i;
        while j > 0 && card_key(cards[j], p1, p2) < card_key(cards[j - 1], p1, p2)
            invariant
                n == cards@.len(),
                j <= i < n,
                forall|a: int, b: int|
                    0 <= a < b <= i && b != j ==> #[trigger] sort_key(cards@[a], p1 as int, p2 as int)
                        <= #[trigger] sort_key(cards@[b], p1 as int, p2 as int),
                forall|b: int|
                    j < b <= i ==> sort_key(cards@[j as int], p1 as int, p2 as int)
                        <= #[trigger] sort_key(cards@[b], p1 as int, p2 as int),
                forall|r: int| #[trigger] rank_count(cards@, r) == rank_count(orig, r),
                forall|c: Card| #[trigger] card_count(cards@, c) == card_count(orig, c),
                key_sorted(orig, p1 as int, p2 as int) ==> cards@ == orig,
            decreases j,
        {
            let ghost before = cards@;
            let x = cards[j];
            let y = cards[j - 1];
            cards.set(j, y);
            cards.set(j - 1, x);
            proof {
                assert(cards@ == before.update(j as int, y).update(j as int - 1, x));
                assert forall|r: int| #[trigger] rank_count(cards@, r) == rank_count(orig, r) by {
                    lemma_rank_count_update(before, j as int, y, r);
                    lemma_rank_count_update(before.update(j as int, y), j as int - 1, x, r);
                    assert(rank_count(before, r) == rank_count(orig, r));
                }
                assert forall|c: Card| #[trigger] card_count(cards@, c) == card_count(orig, c) by {
                    lemma_card_count_update(before, j as int, y, c);
                    lemma_card_count_update(before.update(j as int, y), j as int - 1, x, c);
                    assert(card_count(before, c) == card_count(orig, c));
                }
            }
            j -= 1;
        }
        proof {
            assert forall|a: int, b: int| 0 <= a < b <= i implies #[trigger] sort_key(
                cards@[a],
                p1 as int,
                p2 as int,
            ) <= #[trigger] sort_key(cards@[b], p1 as int, p2 as int) by {
                if b == j as int && a < j as int - 1 {
                    assert(sort_key(cards@[a], p1 as int, p2 as int) <= sort_key(
                        cards@[j as int - 1],
                        p1 as int,
                        p2 as int,
                    ));
                }
            }
        }
        i += 1;
    }
}

/// The histogram's head carries the hand's dominant count: once every
/// larger multiple is ruled out, the head's count is exactly `n`.
proof fn lemma_head_count(s: Seq<Card>, h: Seq<(u8, usize)>, n: int)
    requires
        is_histogram_of(h, s),
        s.len() == 5,
        has_count(s, n),
        2 <= n <= 4,
        n < 3 ==> !has_count(s, 3),
        n < 4 ==> !has_count(s, 4),
    ensures
        h.len() >= 1,
        h[0].1 as int == n,
        rank_count(s, h[0].0 as int) == n,
{
    let rn = choose|r: int| #[trigger] rank_count(s, r) == n;
    assert(rank_count(s, rn) > 0);
    let j = choose|j: int| 0 <= j < h.len() && (#[trigger] h[j]).0 as int == rn;
    assert(h[j].1 as int == n);
    if j > 0 {
        assert(hist_le(h[0], h[j]));
    }
    assert(h[0].1 as int >= n);
    let m = h[0].1 as int;
    lemma_rank_count_bounds(s, h[0].0 as int);
    assert(rank_count(s, h[0].0 as int) == m);
    if m > n {
        assert(has_count(s, m));
        if m == 5 {
            assert(rn != h[0].0 as int);
            lemma_two_ranks(s, h, h[0].0 as int, rn);
        }
        assert(false);
    }
}

/// A permutation of cards with valid ranks has valid ranks.
proof fn lemma_perm_valid_ranks(s: Seq<Card>, s2: Seq<Card>)
    requires
        forall|r: int| #[trigger] rank_count(s2, r) == rank_count(s, r),
        forall|i: int| 0 <= i < s.len() ==> valid_rank((#[trigger] s[i]).rank as int),
    ensures
        forall|k: int| 0 <= k < s2.len() ==> valid_rank((#[trigger] s2[k]).rank as int),
{
    assert forall|k: int| 0 <= k < s2.len() implies valid_rank((#[trigger] s2[k]).rank as int) by {
        lemma_rank_count_pos(s2, s2[k].rank as int);
        assert(rank_count(s2, s2[k].rank as int) > 0);
        assert(rank_count(s, s2[k].rank as int) > 0);
        lemma_rank_count_pos(s, s2[k].rank as int);
    }
}

/// The wheel sorted rank-descending leads with the Ace and then the five.
proof fn lemma_wheel_sorted_head(s1: Seq<Card>)
    requires
        s1.len() == 5,
        forall|a: int, b: int| 0 <= a < b < 5 ==> (#[trigger] s1[a]).rank >= (#[trigger] s1[b]).rank,
        forall|q: int|
            #[trigger] rank_count(s1, q) == if wheel_rank(q) {
                1int
            } else {
                0int
            },
    ensures
        s1[0].rank == 14,
        s1[1].rank == 5,
{
    assert forall|k: int| 0 <= k < 5 implies wheel_rank((#[trigger] s1[k]).rank as int) by {
        lemma_rank_count_pos(s1, s1[k].rank as int);
    }
    lemma_rank_count_pos(s1, 14);
    let i = choose|i: int| 0 <= i < 5 && (#[trigger] s1[i]).rank as int == 14;
    assert(s1[0].rank >= s1[i].rank);
    assert(s1[0].rank == 14);
    if s1[1].rank == 14 {
        lemma_rank_count_two(s1, 14, 0, 1);
    }
    lemma_rank_count_pos(s1, 5);
    let j = choose|j: int| 0 <= j < 5 && (#[trigger] s1[j]).rank as int == 5;
    assert(j != 0);
    assert(s1[1].rank >= s1[j].rank);
    assert(s1[1].rank == 5);
}

/// Behind the Ace and the five, the sorted wheel reads four, three, two.
proof fn lemma_wheel_sorted_tail(s1: Seq<Card>)
    requires
        s1.len() == 5,
        forall|a: int, b: int| 0 <= a < b < 5 ==> (#[trigger] s1[a]).rank >= (#[trigger] s1[b]).rank,
        forall|q: int|
            #[trigger] rank_count(s1, q) == if wheel_rank(q) {
                1int
            } else {
                0int
            },
        s1[0].rank == 14,
        s1[1].rank == 5,
    ensures
        s1[2].rank == 4,
        s1[3].rank == 3,
        s1[4].rank == 2,
{
    assert forall|k: int| 0 <= k < 5 implies wheel_rank((#[trigger] s1[k]).rank as int) by {
        lemma_rank_count_pos(s1, s1[k].rank as int);
    }
    if s1[2].rank == 14 {
        lemma_rank_count_two(s1, 14, 0, 2);
    }
    if s1[2].rank == 5 {
        lemma_rank_count_two(s1, 5, 1, 2);
    }
    lemma_rank_count_pos(s1, 4);
    let i4 = choose|i: int| 0 <= i < 5 && (#[trigger] s1[i]).rank as int == 4;
    assert(i4 != 0 && i4 != 1);
    assert(s1[2].rank >= s1[i4].rank);
    assert(s1[2].rank == 4);
    if s1[3].rank == 14 {
        lemma_rank_count_two(s1, 14, 0, 3);
    }
    if s1[3].rank == 5 {
        lemma_rank_count_two(s1, 5, 1, 3);
    }
    if s1[3].rank == 4 {
        lemma_rank_count_two(s1, 4, 2, 3);
    }
    lemma_rank_count_pos(s1, 3);
    let i3 = choose|i: int| 0 <= i < 5 && (#[trigger] s1[i]).rank as int == 3;
    assert(i3 != 0 && i3 != 1 && i3 != 2);
    assert(s1[3].rank >= s1[i3].rank);
    assert(s1[3].rank == 3);
    if s1[4].rank == 14 {
        lemma_rank_count_two(s1, 14, 0, 4);
    }
    if s1[4].rank == 5 {
        lemma_rank_count_two(s1, 5, 1, 4);
    }
    if s1[4].rank == 4 {
        lemma_rank_count_two(s1, 4, 2, 4);
    }
    if s1[4].rank == 3 {
        lemma_rank_count_two(s1, 3, 3, 4);
    }
    assert(s1[4].rank == 2);
}

/// Two card-for-card equal-count sequences that agree rank by rank, with no
/// rank repeated, agree card by card.
proof fn lemma_same_ranks_same_cards(a: Seq<Card>, b: Seq<Card>)
    requires
        a.len() == b.len(),
        forall|c: Card| #[trigger] card_count(a, c) == card_count(b, c),
        forall|i: int, j: int| 0 <= i < j < a.len() ==> a[i].rank != a[j].rank,
        forall|k: int| 0 <= k < a.len() ==> (#[trigger] a[k]).rank == b[k].rank,
    ensures
        a == b,
{
    assert forall|k: int| 0 <= k < a.len() implies #[trigger] a[k] == b[k] by {
        let c = a[k];
        lemma_card_count_pos(a, c);
        assert(card_count(a, c) > 0);
        assert(card_count(b, c) > 0);
        lemma_card_count_pos(b, c);
        let i = choose|i: int| 0 <= i < b.len() && b[i] == c;
        assert(a[i].rank == b[i].rank);
        assert(a[i].rank == a[k].rank);
        assert(i == k);
    }
    assert(a =~= b);
}

impl PokerHand {
    /// Classifies the hand if needed, then rearranges its cards in place
    /// into the canonical presentation order of its category. The cards
    /// afterwards are a permutation of the cards before; a hand already in
    /// its canonical order is left exactly as it was.
    pub fn sort_hand(&mut self) -> (r: Result<(), HandError>)
        requires
            old(self).wf(),
        ensures
            old(self).cards@.len() != 5 ==> {
                &&& r == Err::<(), HandError>(HandError::IncompleteHand)
                &&& *final(self) == *old(self)
            },
            old(self).cards@.len() == 5 ==> {
                &&& r == Ok::<(), HandError>(())
                &&& final(self).poker_hand_type == Some(classification(old(self).cards@))
                &&& final(self).cards@.len() == 5
                &&& forall|q: int|
                    #[trigger] rank_count(final(self).cards@, q) == rank_count(old(self).cards@, q)
                &&& forall|c: Card|
                    #[trigger] card_count(final(self).cards@, c) == card_count(old(self).cards@, c)
                &&& arranged(final(self).cards@, classification(old(self).cards@))
                &&& (arranged(old(self).cards@, classification(old(self).cards@))
                    ==> final(self).cards@ == old(self).cards@)
                &&& final(self).wf()
            },
    {
        match self.set_hand_type() {
            Err(e) => {
                return Err(e);
            },
            Ok(()) => {},
        }
        let ghost s = self.cards@;
        let ghost t = classification(s);
        let ty = self.poker_hand_type.unwrap();
        let hist = self.card_rank_histogram();
        let ghost h = hist@;

        match ty {
            PokerHandType::OnePair | PokerHandType::ThreeOfAKind | PokerHandType::FourOfAKind => {
                let ghost n: int = if ty == PokerHandType::OnePair {
                    2int
                } else if ty == PokerHandType::ThreeOfAKind {
                    3int
                } else {
                    4int
                };
                proof {
                    lemma_head_count(s, h, n);
                }
                let p1 = hist[0].0;
                sort_by_key(&mut self.cards, p1, 0);
                let ghost s1 = self.cards@;
                proof {
                    assert(rank_count(s, p1 as int) == n);
                    assert forall|p: int| #[trigger] rank_count(s1, p) == n implies key_sorted(
                        s1,
                        p,
                        0,
                    ) by {
                        assert(rank_count(s, p) == n);
                        if p != p1 as int {
                            if ty == PokerHandType::OnePair {
                                assert(has_two_pairs(s));
                            } else {
                                lemma_two_ranks(s, h, p, p1 as int);
                            }
                            assert(false);
                        }
                    }
                    if arranged(s, t) {
                        assert(key_sorted(s, p1 as int, 0));
                    }
                    lemma_perm_valid_ranks(s, s1);
                }
            },
            PokerHandType::FullHouse | PokerHandType::TwoPair => {
                let ghost n: int = if ty == PokerHandType::FullHouse {
                    3int
                } else {
                    2int
                };
                proof {
                    lemma_head_count(s, h, n);
                    if h.len() < 2 {
                        lemma_hist_single(s, h);
                        assert(false);
                    }
                    // The second entry carries the category's second count.
                    if ty == PokerHandType::FullHouse {
                        let r2 = choose|r: int| #[trigger] rank_count(s, r) == 2;
                        assert(rank_count(s, r2) > 0);
                        let j2 = choose|j: int| 0 <= j < h.len() && (#[trigger] h[j]).0 as int == r2;
                        assert(h[j2].1 as int == 2);
                        assert(j2 != 0);
                        if j2 > 1 {
                            assert(hist_le(h[1], h[j2]));
                        }
                        assert(hist_le(h[0], h[1]));
                        assert(2 <= h[1].1 && h[1].1 <= 3);
                        if h[1].1 == 3 {
                            assert(rank_count(s, h[1].0 as int) == 3);
                            lemma_two_ranks(s, h, h[0].0 as int, h[1].0 as int);
                            assert(false);
                        }
                    } else {
                        let (ra, rb) = choose|ra: int, rb: int|
                            ra != rb && #[trigger] rank_count(s, ra) == 2 && #[trigger] rank_count(
                                s,
                                rb,
                            ) == 2;
                        let ja = choose|j: int| 0 <= j < h.len() && (#[trigger] h[j]).0 as int == ra;
                        let jb = choose|j: int| 0 <= j < h.len() && (#[trigger] h[j]).0 as int == rb;
                        assert(ja != jb);
                        let jx = if ja > 0 {
                            ja
                        } else {
                            jb
                        };
                        assert(jx >= 1 && h[jx].1 as int == 2);
                        if jx > 1 {
                            assert(hist_le(h[1], h[jx]));
                        }
                        assert(hist_le(h[0], h[1]));
                        assert(h[1].1 as int == 2);
                    }
                    assert(rank_count(s, h[1].0 as int) == h[1].1 as int);
                }
                let p1 = hist[0].0;
                let p2 = hist[1].0;
                proof {
                    assert(hist_le(h[0], h[1]));
                    assert(h[0].0 != h[1].0);
                    if ty == PokerHandType::TwoPair {
                        assert(p1 > p2);
                    }
                }
                sort_by_key(&mut self.cards, p1, p2);
                let ghost s1 = self.cards@;
                proof {
                    if ty == PokerHandType::FullHouse {
                        assert(rank_count(s, p1 as int) == 3 && rank_count(s, p2 as int) == 2);
                        assert forall|q1: int, q2: int|
                            #[trigger] rank_count(s1, q1) == 3 && #[trigger] rank_count(s1, q2)
                                == 2 implies key_sorted(s1, q1, q2) by {
                            assert(rank_count(s, q1) == 3 && rank_count(s, q2) == 2);
                            if q1 != p1 as int {
                                lemma_two_ranks(s, h, q1, p1 as int);
                                assert(false);
                            }
                            if q2 != p2 as int {
                                lemma_three_ranks(s, h, p1 as int, p2 as int, q2);
                                assert(false);
                            }
                        }
                        if arranged(s, t) {
                            assert(key_sorted(s, p1 as int, p2 as int));
                        }
                    } else {
                        assert(rank_count(s, p1 as int) == 2 && rank_count(s, p2 as int) == 2);
                        assert forall|q1: int, q2: int|
                            q1 > q2 && #[trigger] rank_count(s1, q1) == 2 && #[trigger] rank_count(
                                s1,
                                q2,
                            ) == 2 implies key_sorted(s1, q1, q2) by {
                            assert(rank_count(s, q1) == 2 && rank_count(s, q2) == 2);
                            if q1 != p1 as int && q1 != p2 as int {
                                lemma_three_ranks(s, h, q1, p1 as int, p2 as int);
                                assert(false);
                            }
                            if q2 != p1 as int && q2 != p2 as int {
                                lemma_three_ranks(s, h, q2, p1 as int, p2 as int);
                                assert(false);
                            }
                            assert(q1 == p1 as int && q2 == p2 as int);
                        }
                        if arranged(s, t) {
                            assert(key_sorted(s, p1 as int, p2 as int));
                        }
                    }
                    lemma_perm_valid_ranks(s, s1);
                }
            },
            PokerHandType::RoyalFlush | PokerHandType::StraightFlush | PokerHandType::Flush
                | PokerHandType::Straight | PokerHandType::HighCard => {
                sort_by_key(&mut self.cards, 0, 0);
                let ghost s1 = self.cards@;
                proof {
                    lemma_perm_valid_ranks(s, s1);
                    // With no priority rank in play the key is monotone in
                    // the rank, so the cards now read rank descending.
                    assert forall|a: int, b: int| 0 <= a < b < s1.len() implies (#[trigger] s1[a]).rank
                        >= (#[trigger] s1[b]).rank by {
                        assert(sort_key(s1[a], 0, 0) <= sort_key(s1[b], 0, 0));
                    }
                }
                let is_straight_kind = ty == PokerHandType::Straight || ty
                    == PokerHandType::StraightFlush;
                if is_straight_kind && self.cards[0].rank == 14 && self.cards[1].rank == 5 {
                    proof {
                        // Only the wheel shows an Ace followed by a five: a
                        // straight-proper holding both an Ace and a five
                        // would span more than five ranks.
                        assert(is_straight(s));
                        lemma_rank_count_pos(s1, 14);
                        lemma_rank_count_pos(s1, 5);
                        assert(rank_count(s, 14) > 0 && rank_count(s, 5) > 0);
                        if !is_wheel(s) {
                            let m = choose|m: int| crate::patterns::is_run_from(s, m);
                            assert(rank_count(s, 14) == 1);
                            assert(m >= 10);
                            assert(rank_count(s, 5) == 0);
                            assert(false);
                        }
                        assert forall|q: int|
                            #[trigger] rank_count(s1, q) == (if wheel_rank(q) {
                                1int
                            } else {
                                0int
                            }) by {
                            assert(rank_count(s1, q) == rank_count(s, q));
                        }
                        lemma_wheel_sorted_tail(s1);
                    }
                    let c = self.cards.remove(0);
                    self.cards.push(c);
                    let ghost s2 = self.cards@;
                    proof {
                        assert(s1.remove(0) =~= s1.drop_first());
                        assert(s2 == s1.drop_first().push(s1[0]));
                        assert(s2.drop_last() =~= s1.drop_first());
                        assert(s2.last() == s1[0]);
                        assert forall|q: int| #[trigger] rank_count(s2, q) == rank_count(s1, q) by {
                            lemma_rank_count_drop_first(s1, q);
                        }
                        assert forall|c2: Card| #[trigger] card_count(s2, c2) == card_count(
                            s1,
                            c2,
                        ) by {
                            lemma_card_count_drop_first(s1, c2);
                        }
                        assert(wheel_order(s2));
                        assert forall|q: int|
                            #[trigger] rank_count(s2, q) == (if wheel_rank(q) {
                                1int
                            } else {
                                0int
                            }) by {
                            assert(rank_count(s2, q) == rank_count(s1, q));
                        }
                        assert(is_wheel(s2));
                        assert(arranged(s2, t));
                        if arranged(s, t) {
                            assert(wheel_order(s));
                            assert forall|i: int, j: int|
                                0 <= i < j < s.len() implies s[i].rank != s[j].rank by {
                                assert(s.len() == 5);
                            }
                            assert forall|k: int| 0 <= k < s.len() implies (#[trigger] s[k]).rank
                                == s2[k].rank by {
                                assert(s.len() == 5);
                            }
                            lemma_same_ranks_same_cards(s, s2);
                        }
                    }
                } else {
                    proof {
                        if is_straight_kind && is_wheel(s) {
                            // The wheel sorted descending must lead with the
                            // Ace and then the five, so this branch cannot
                            // see it.
                            assert forall|q: int|
                                #[trigger] rank_count(s1, q) == (if wheel_rank(q) {
                                    1int
                                } else {
                                    0int
                                }) by {
                                assert(rank_count(s1, q) == rank_count(s, q));
                            }
                            lemma_wheel_sorted_head(s1);
                            assert(false);
                        }
                        if is_straight_kind && is_wheel(s1) {
                            assert forall|q: int|
                                #[trigger] rank_count(s, q) == (if wheel_rank(q) {
                                    1int
                                } else {
                                    0int
                                }) by {
                                assert(rank_count(s1, q) == rank_count(s, q));
                            }
                            assert(is_wheel(s));
                            assert(false);
                        }
                        if arranged(s, t) {
                            assert(key_sorted(s, 0, 0));
                        }
                    }
                }
            },
        }
        Ok(())
    }
}

} // verus!

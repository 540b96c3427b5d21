//! Counting spec functions over card and rank sequences, with the lemmas
//! the analyzers rely on: how counts behave under indexing, updates, and
//! element-for-element correspondence between a hand and its rank list.

use crate::card::Card;
use vstd::prelude::*;

verus! {

/// How many cards of `s` carry rank `r`.
pub open spec fn rank_count(s: Seq<Card>, r: int) -> int
    decreases s.len(),
{
    if s.len() == 0 {
        0
    } else {
        rank_count(s.drop_last(), r) + if s.last().rank as int == r {
            1int
        } else {
            0int
        }
    }
}

/// How many positions of `s` hold exactly the card `c` (rank and suit).
pub open spec fn card_count(s: Seq<Card>, c: Card) -> int
    decreases s.len(),
{
    if s.len() == 0 {
        0
    } else {
        card_count(s.drop_last(), c) + if s.last() == c {
            1int
        } else {
            0int
        }
    }
}

/// How many positions of a rank list hold the value `v`.
pub open spec fn val_count(s: Seq<u8>, v: int) -> int
    decreases s.len(),
{
    if s.len() == 0 {
        0
    } else {
        val_count(s.drop_last(), v) + if s.last() as int == v {
            1int
        } else {
            0int
        }
    }
}

pub proof fn lemma_rank_count_bounds(s: Seq<Card>, r: int)
    ensures
        0 <= rank_count(s, r) <= s.len(),
    decreases s.len(),
{
    if s.len() > 0 {
        lemma_rank_count_bounds(s.drop_last(), r);
    }
}

/// A rank is counted iff it stands somewhere in the sequence.
pub proof fn lemma_rank_count_pos(s: Seq<Card>, r: int)
    ensures
        rank_count(s, r) > 0 <==> exists|i: int| 0 <= i < s.len() && (#[trigger] s[i]).rank as int == r,
    decreases s.len(),
{
    if s.len() > 0 {
        lemma_rank_count_pos(s.drop_last(), r);
        lemma_rank_count_bounds(s.drop_last(), r);
        if rank_count(s, r) > 0 {
            if s.last().rank as int == r {
                assert(s[s.len() - 1].rank as int == r);
            } else {
                let i = choose|i: int| 0 <= i < s.drop_last().len() && (#[trigger] s.drop_last()[i]).rank as int == r;
                assert(s[i].rank as int == r);
            }
        }
        if exists|i: int| 0 <= i < s.len() && (#[trigger] s[i]).rank as int == r {
            let i = choose|i: int| 0 <= i < s.len() && (#[trigger] s[i]).rank as int == r;
            if i < s.len() - 1 {
                assert(s.drop_last()[i].rank as int == r);
            }
        }
    }
}

/// Two distinct positions of the same rank push its count to at least two.
pub proof fn lemma_rank_count_two(s: Seq<Card>, r: int, i: int, j: int)
    requires
        0 <= i < j < s.len(),
        s[i].rank as int == r,
        s[j].rank as int == r,
    ensures
        rank_count(s, r) >= 2,
    decreases s.len(),
{
    if j == s.len() - 1 {
        lemma_rank_count_pos(s.drop_last(), r);
        assert(s.drop_last()[i].rank as int == r);
    } else {
        lemma_rank_count_two(s.drop_last(), r, i, j);
    }
}

pub proof fn lemma_rank_count_update(s: Seq<Card>, i: int, c: Card, r: int)
    requires
        0 <= i < s.len(),
    ensures
        rank_count(s.update(i, c), r) == rank_count(s, r) - (if s[i].rank as int == r {
            1int
        } else {
            0int
        }) + (if c.rank as int == r {
            1int
        } else {
            0int
        }),
    decreases s.len(),
{
    let t = s.update(i, c);
    assert(t.len() == s.len());
    if i == s.len() - 1 {
        assert(t.drop_last() =~= s.drop_last());
        assert(t.last() == c);
    } else {
        assert(t.drop_last() =~= s.drop_last().update(i, c));
        assert(t.last() == s.last());
        lemma_rank_count_update(s.drop_last(), i, c, r);
    }
}

pub proof fn lemma_card_count_update(s: Seq<Card>, i: int, c: Card, d: Card)
    requires
        0 <= i < s.len(),
    ensures
        card_count(s.update(i, c), d) == card_count(s, d) - (if s[i] == d {
            1int
        } else {
            0int
        }) + (if c == d {
            1int
        } else {
            0int
        }),
    decreases s.len(),
{
    let t = s.update(i, c);
    if i == s.len() - 1 {
        assert(t.drop_last() =~= s.drop_last());
        assert(t.last() == c);
    } else {
        assert(t.drop_last() =~= s.drop_last().update(i, c));
        assert(t.last() == s.last());
        lemma_card_count_update(s.drop_last(), i, c, d);
    }
}

/// A card is counted iff it stands somewhere in the sequence.
pub proof fn lemma_card_count_pos(s: Seq<Card>, c: Card)
    ensures
        card_count(s, c) > 0 <==> exists|i: int| 0 <= i < s.len() && s[i] == c,
    decreases s.len(),
{
    if s.len() > 0 {
        lemma_card_count_pos(s.drop_last(), c);
        lemma_card_count_bounds(s.drop_last(), c);
        if card_count(s, c) > 0 {
            if s.last() == c {
                assert(s[s.len() - 1] == c);
            } else {
                let i = choose|i: int| 0 <= i < s.drop_last().len() && s.drop_last()[i] == c;
                assert(s[i] == c);
            }
        }
        if exists|i: int| 0 <= i < s.len() && s[i] == c {
            let i = choose|i: int| 0 <= i < s.len() && s[i] == c;
            if i < s.len() - 1 {
                assert(s.drop_last()[i] == c);
            }
        }
    }
}

pub proof fn lemma_card_count_bounds(s: Seq<Card>, c: Card)
    ensures
        0 <= card_count(s, c) <= s.len(),
    decreases s.len(),
{
    if s.len() > 0 {
        lemma_card_count_bounds(s.drop_last(), c);
    }
}

pub proof fn lemma_val_count_bounds(s: Seq<u8>, v: int)
    ensures
        0 <= val_count(s, v) <= s.len(),
    decreases s.len(),
{
    if s.len() > 0 {
        lemma_val_count_bounds(s.drop_last(), v);
    }
}

/// A value is counted iff it stands somewhere in the list.
pub proof fn lemma_val_count_pos(s: Seq<u8>, v: int)
    ensures
        val_count(s, v) > 0 <==> exists|i: int| 0 <= i < s.len() && (#[trigger] s[i]) as int == v,
    decreases s.len(),
{
    if s.len() > 0 {
        lemma_val_count_pos(s.drop_last(), v);
        lemma_val_count_bounds(s.drop_last(), v);
        if val_count(s, v) > 0 {
            if s.last() as int == v {
                assert(s[s.len() - 1] as int == v);
            } else {
                let i = choose|i: int| 0 <= i < s.drop_last().len() && (#[trigger] s.drop_last()[i]) as int == v;
                assert(s[i] as int == v);
            }
        }
        if exists|i: int| 0 <= i < s.len() && (#[trigger] s[i]) as int == v {
            let i = choose|i: int| 0 <= i < s.len() && (#[trigger] s[i]) as int == v;
            if i < s.len() - 1 {
                assert(s.drop_last()[i] as int == v);
            }
        }
    }
}

/// Two distinct positions of the same value push its count to at least two.
pub proof fn lemma_val_count_two(s: Seq<u8>, v: int, i: int, j: int)
    requires
        0 <= i < j < s.len(),
        s[i] as int == v,
        s[j] as int == v,
    ensures
        val_count(s, v) >= 2,
    decreases s.len(),
{
    if j == s.len() - 1 {
        lemma_val_count_pos(s.drop_last(), v);
        assert(s.drop_last()[i] as int == v);
    } else {
        lemma_val_count_two(s.drop_last(), v, i, j);
    }
}

pub proof fn lemma_val_count_update(s: Seq<u8>, i: int, x: u8, v: int)
    requires
        0 <= i < s.len(),
    ensures
        val_count(s.update(i, x), v) == val_count(s, v) - (if s[i] as int == v {
            1int
        } else {
            0int
        }) + (if x as int == v {
            1int
        } else {
            0int
        }),
    decreases s.len(),
{
    let t = s.update(i, x);
    if i == s.len() - 1 {
        assert(t.drop_last() =~= s.drop_last());
        assert(t.last() == x);
    } else {
        assert(t.drop_last() =~= s.drop_last().update(i, x));
        assert(t.last() == s.last());
        lemma_val_count_update(s.drop_last(), i, x, v);
    }
}

/// In a list of pairwise distinct values, every count is zero or one.
pub proof fn lemma_val_count_distinct(s: Seq<u8>)
    requires
        forall|i: int, j: int| 0 <= i < j < s.len() ==> s[i] != s[j],
    ensures
        forall|v: int|
            #[trigger] val_count(s, v) == if exists|i: int| 0 <= i < s.len() && (#[trigger] s[i]) as int == v {
                1int
            } else {
                0int
            },
{
    assert forall|v: int| #[trigger] val_count(s, v) == (if exists|i: int|
        0 <= i < s.len() && (#[trigger] s[i]) as int == v {
        1int
    } else {
        0int
    }) by {
        lemma_val_count_pos(s, v);
        lemma_val_count_bounds(s, v);
        if val_count(s, v) >= 2 {
            lemma_val_count_at_least(s, v);
        }
    }
}

/// A count of two or more forces two distinct positions of the value.
pub proof fn lemma_val_count_at_least(s: Seq<u8>, v: int)
    requires
        val_count(s, v) >= 2,
    ensures
        exists|i: int, j: int| 0 <= i < j < s.len() && s[i] as int == v && s[j] as int == v,
    decreases s.len(),
{
    if s.last() as int == v {
        lemma_val_count_pos(s.drop_last(), v);
        let i = choose|i: int| 0 <= i < s.drop_last().len() && (#[trigger] s.drop_last()[i]) as int == v;
        assert(s[i] as int == v && s[s.len() - 1] as int == v && i < s.len() - 1);
    } else {
        lemma_val_count_at_least(s.drop_last(), v);
        let (i, j) = choose|i: int, j: int|
            0 <= i < j < s.drop_last().len() && s.drop_last()[i] as int == v && s.drop_last()[j] as int == v;
        assert(s[i] as int == v && s[j] as int == v);
    }
}

/// Taking the first card off removes exactly its contribution to each count.
pub proof fn lemma_rank_count_drop_first(s: Seq<Card>, r: int)
    requires
        s.len() >= 1,
    ensures
        rank_count(s, r) == rank_count(s.drop_first(), r) + if s[0].rank as int == r {
            1int
        } else {
            0int
        },
    decreases s.len(),
{
    if s.len() == 1 {
        assert(s.drop_first().len() == 0);
        assert(rank_count(s.drop_first(), r) == 0);
        assert(s.drop_last().len() == 0);
        assert(rank_count(s.drop_last(), r) == 0);
        assert(s.last() == s[0]);
    } else {
        lemma_rank_count_drop_first(s.drop_last(), r);
        assert(s.drop_first().drop_last() =~= s.drop_last().drop_first());
        assert(s.drop_first().last() == s.last());
        assert(s.drop_last()[0] == s[0]);
        assert(rank_count(s.drop_first(), r) == rank_count(s.drop_first().drop_last(), r) + if s
            .drop_first()
            .last()
            .rank as int == r {
            1int
        } else {
            0int
        });
    }
}

/// Taking the first card off removes exactly its contribution to each count.
pub proof fn lemma_card_count_drop_first(s: Seq<Card>, c: Card)
    requires
        s.len() >= 1,
    ensures
        card_count(s, c) == card_count(s.drop_first(), c) + if s[0] == c {
            1int
        } else {
            0int
        },
    decreases s.len(),
{
    if s.len() == 1 {
        assert(s.drop_first().len() == 0);
        assert(card_count(s.drop_first(), c) == 0);
        assert(s.drop_last().len() == 0);
        assert(card_count(s.drop_last(), c) == 0);
        assert(s.last() == s[0]);
    } else {
        lemma_card_count_drop_first(s.drop_last(), c);
        assert(s.drop_first().drop_last() =~= s.drop_last().drop_first());
        assert(s.drop_first().last() == s.last());
        assert(s.drop_last()[0] == s[0]);
        assert(card_count(s.drop_first(), c) == card_count(s.drop_first().drop_last(), c) + if s
            .drop_first()
            .last() == c {
            1int
        } else {
            0int
        });
    }
}

/// A hand's rank counts agree with the counts of its extracted rank list.
pub proof fn lemma_rank_list_counts(cards: Seq<Card>, rs: Seq<u8>)
    requires
        cards.len() == rs.len(),
        forall|i: int| 0 <= i < cards.len() ==> (#[trigger] rs[i]) == cards[i].rank,
    ensures
        forall|v: int| #[trigger] val_count(rs, v) == rank_count(cards, v),
    decreases cards.len(),
{
    if cards.len() > 0 {
        lemma_rank_list_counts(cards.drop_last(), rs.drop_last());
        assert forall|v: int| #[trigger] val_count(rs, v) == rank_count(cards, v) by {
            assert(rs[rs.len() - 1] == cards[cards.len() - 1].rank);
            assert(val_count(rs.drop_last(), v) == rank_count(cards.drop_last(), v));
        }
    }
}

} // verus!

use poker_hands::{Card, PokerHand, PokerHandType, Suit};
use std::cmp::Ordering;

#[test]
fn poker_hands_cmp() {
    let cases = vec![
        (
            "Same hand different Suit -- RoyalFlush",
            PokerHand {
                poker_hand_type: Some(PokerHandType::RoyalFlush),
                cards: vec![
                    Card::new(14, Suit::Club).unwrap(),
                    Card::new(13, Suit::Club).unwrap(),
                    Card::new(12, Suit::Club).unwrap(),
                    Card::new(11, Suit::Club).unwrap(),
                    Card::new(10, Suit::Club).unwrap(),
                ],
            },
            PokerHand {
                poker_hand_type: Some(PokerHandType::RoyalFlush),
                cards: vec![
                    Card::new(14, Suit::Heart).unwrap(),
                    Card::new(13, Suit::Heart).unwrap(),
                    Card::new(12, Suit::Heart).unwrap(),
                    Card::new(11, Suit::Heart).unwrap(),
                    Card::new(10, Suit::Heart).unwrap(),
                ],
            },
            Ordering::Equal,
        ),
        (
            "PokerHandType gets compared first -- FourOfAKind > HighCard",
            PokerHand {
                poker_hand_type: Some(PokerHandType::FourOfAKind),
                cards: vec![
                    Card::new(2, Suit::Club).unwrap(),
                    Card::new(2, Suit::Heart).unwrap(),
                    Card::new(2, Suit::Spade).unwrap(),
                    Card::new(2, Suit::Club).unwrap(),
                    Card::new(10, Suit::Diamond).unwrap(),
                ],
            },
            PokerHand {
                poker_hand_type: Some(PokerHandType::HighCard),
                cards: vec![
                    Card::new(14, Suit::Club).unwrap(),
                    Card::new(11, Suit::Club).unwrap(),
                    Card::new(8, Suit::Diamond).unwrap(),
                    Card::new(5, Suit::Club).unwrap(),
                    Card::new(2, Suit::Heart).unwrap(),
                ],
            },
            Ordering::Greater,
        ),
        (
            "Same PokerHandType, but the hands are not equal",
            PokerHand {
                poker_hand_type: Some(PokerHandType::FourOfAKind),
                cards: vec![
                    Card::new(2, Suit::Club).unwrap(),
                    Card::new(2, Suit::Heart).unwrap(),
                    Card::new(2, Suit::Spade).unwrap(),
                    Card::new(2, Suit::Club).unwrap(),
                    Card::new(10, Suit::Diamond).unwrap(),
                ],
            },
            PokerHand {
                poker_hand_type: Some(PokerHandType::FourOfAKind),
                cards: vec![
                    Card::new(2, Suit::Club).unwrap(),
                    Card::new(2, Suit::Heart).unwrap(),
                    Card::new(2, Suit::Spade).unwrap(),
                    Card::new(2, Suit::Club).unwrap(),
                    Card::new(11, Suit::Diamond).unwrap(),
                ],
            },
            Ordering::Less,
        ),
        (
            "Extra case for Straights when the Ace counts as 1",
            PokerHand {
                poker_hand_type: Some(PokerHandType::Straight),
                cards: vec![
                    Card::new(5, Suit::Club).unwrap(),
                    Card::new(4, Suit::Club).unwrap(),
                    Card::new(3, Suit::Diamond).unwrap(),
                    Card::new(2, Suit::Heart).unwrap(),
                    Card::new(14, Suit::Club).unwrap(),
                ],
            },
            PokerHand {
                poker_hand_type: Some(PokerHandType::Straight),
                cards: vec![
                    Card::new(6, Suit::Club).unwrap(),
                    Card::new(5, Suit::Club).unwrap(),
                    Card::new(4, Suit::Diamond).unwrap(),
                    Card::new(3, Suit::Heart).unwrap(),
                    Card::new(2, Suit::Club).unwrap(),
                ],
            },
            Ordering::Less,
        ),
    ];

    for (name, hand_1, hand_2, expected) in cases {
        assert_eq!(hand_1.cmp(&hand_2), expected, "Case: {name}");
    }
}

use poker_hands::{Card, PokerHand, PokerHandType, Suit};

#[test]
fn poker_hand_sort_hand() {
    let cases = vec![
        (
            "One Pair",
            PokerHand {
                poker_hand_type: None,
                cards: vec![
                    Card::new(2, Suit::Club).unwrap(),
                    Card::new(10, Suit::Diamond).unwrap(),
                    Card::new(14, Suit::Spade).unwrap(),
                    Card::new(2, Suit::Heart).unwrap(),
                    Card::new(9, Suit::Club).unwrap(),
                ],
            },
            PokerHand {
                poker_hand_type: Some(PokerHandType::OnePair),
                cards: vec![
                    Card::new(2, Suit::Club).unwrap(),
                    Card::new(2, Suit::Heart).unwrap(),
                    Card::new(14, Suit::Spade).unwrap(),
                    Card::new(10, Suit::Diamond).unwrap(),
                    Card::new(9, Suit::Club).unwrap(),
                ],
            },
        ),
        (
            "Three of a Kind",
            PokerHand {
                poker_hand_type: None,
                cards: vec![
                    Card::new(2, Suit::Club).unwrap(),
                    Card::new(10, Suit::Diamond).unwrap(),
                    Card::new(2, Suit::Spade).unwrap(),
                    Card::new(2, Suit::Heart).unwrap(),
                    Card::new(9, Suit::Club).unwrap(),
                ],
            },
            PokerHand {
                poker_hand_type: Some(PokerHandType::ThreeOfAKind),
                cards: vec![
                    Card::new(2, Suit::Club).unwrap(),
                    Card::new(2, Suit::Heart).unwrap(),
                    Card::new(2, Suit::Spade).unwrap(),
                    Card::new(10, Suit::Diamond).unwrap(),
                    Card::new(9, Suit::Club).unwrap(),
                ],
            },
        ),
        (
            "Four of a Kind",
            PokerHand {
                poker_hand_type: None,
                cards: vec![
                    Card::new(2, Suit::Club).unwrap(),
                    Card::new(10, Suit::Diamond).unwrap(),
                    Card::new(2, Suit::Spade).unwrap(),
                    Card::new(2, Suit::Heart).unwrap(),
                    Card::new(2, Suit::Club).unwrap(),
                ],
            },
            PokerHand {
                poker_hand_type: Some(PokerHandType::FourOfAKind),
                cards: vec![
                    Card::new(2, Suit::Club).unwrap(),
                    Card::new(2, Suit::Heart).unwrap(),
                    Card::new(2, Suit::Spade).unwrap(),
                    Card::new(2, Suit::Club).unwrap(),
                    Card::new(10, Suit::Diamond).unwrap(),
                ],
            },
        ),
        (
            "Royal Flush",
            PokerHand {
                poker_hand_type: None,
                cards: vec![
                    Card::new(12, Suit::Club).unwrap(),
                    Card::new(14, Suit::Club).unwrap(),
                    Card::new(10, Suit::Club).unwrap(),
                    Card::new(13, Suit::Club).unwrap(),
                    Card::new(11, Suit::Club).unwrap(),
                ],
            },
            PokerHand {
                poker_hand_type: Some(PokerHandType::RoyalFlush),
                cards: vec![
                    Card::new(14, Suit::Club).unwrap(),
                    Card::new(13, Suit::Club).unwrap(),
                    Card::new(12, Suit::Club).unwrap(),
                    Card::new(11, Suit::Club).unwrap(),
                    Card::new(10, Suit::Club).unwrap(),
                ],
            },
        ),
        (
            "Flush",
            PokerHand {
                poker_hand_type: None,
                cards: vec![
                    Card::new(2, Suit::Club).unwrap(),
                    Card::new(14, Suit::Club).unwrap(),
                    Card::new(9, Suit::Club).unwrap(),
                    Card::new(13, Suit::Club).unwrap(),
                    Card::new(11, Suit::Club).unwrap(),
                ],
            },
            PokerHand {
                poker_hand_type: Some(PokerHandType::Flush),
                cards: vec![
                    Card::new(14, Suit::Club).unwrap(),
                    Card::new(13, Suit::Club).unwrap(),
                    Card::new(11, Suit::Club).unwrap(),
                    Card::new(9, Suit::Club).unwrap(),
                    Card::new(2, Suit::Club).unwrap(),
                ],
            },
        ),
        (
            "Straight Flush",
            PokerHand {
                poker_hand_type: None,
                cards: vec![
                    Card::new(7, Suit::Club).unwrap(),
                    Card::new(10, Suit::Club).unwrap(),
                    Card::new(9, Suit::Club).unwrap(),
                    Card::new(8, Suit::Club).unwrap(),
                    Card::new(11, Suit::Club).unwrap(),
                ],
            },
            PokerHand {
                poker_hand_type: Some(PokerHandType::StraightFlush),
                cards: vec![
                    Card::new(11, Suit::Club).unwrap(),
                    Card::new(10, Suit::Club).unwrap(),
                    Card::new(9, Suit::Club).unwrap(),
                    Card::new(8, Suit::Club).unwrap(),
                    Card::new(7, Suit::Club).unwrap(),
                ],
            },
        ),
        (
            "Straight Flush -- Edge Case",
            PokerHand {
                poker_hand_type: None,
                cards: vec![
                    Card::new(2, Suit::Club).unwrap(),
                    Card::new(14, Suit::Club).unwrap(),
                    Card::new(3, Suit::Club).unwrap(),
                    Card::new(5, Suit::Club).unwrap(),
                    Card::new(4, Suit::Club).unwrap(),
                ],
            },
            PokerHand {
                poker_hand_type: Some(PokerHandType::StraightFlush),
                cards: vec![
                    Card::new(5, Suit::Club).unwrap(),
                    Card::new(4, Suit::Club).unwrap(),
                    Card::new(3, Suit::Club).unwrap(),
                    Card::new(2, Suit::Club).unwrap(),
                    Card::new(14, Suit::Club).unwrap(),
                ],
            },
        ),
        (
            "Straight",
            PokerHand {
                poker_hand_type: None,
                cards: vec![
                    Card::new(7, Suit::Club).unwrap(),
                    Card::new(10, Suit::Heart).unwrap(),
                    Card::new(9, Suit::Club).unwrap(),
                    Card::new(8, Suit::Club).unwrap(),
                    Card::new(11, Suit::Spade).unwrap(),
                ],
            },
            PokerHand {
                poker_hand_type: Some(PokerHandType::Straight),
                cards: vec![
                    Card::new(11, Suit::Spade).unwrap(),
                    Card::new(10, Suit::Heart).unwrap(),
                    Card::new(9, Suit::Club).unwrap(),
                    Card::new(8, Suit::Club).unwrap(),
                    Card::new(7, Suit::Club).unwrap(),
                ],
            },
        ),
        (
            "Straight -- Edge Case",
            PokerHand {
                poker_hand_type: None,
                cards: vec![
                    Card::new(2, Suit::Heart).unwrap(),
                    Card::new(14, Suit::Club).unwrap(),
                    Card::new(3, Suit::Diamond).unwrap(),
                    Card::new(5, Suit::Club).unwrap(),
                    Card::new(4, Suit::Club).unwrap(),
                ],
            },
            PokerHand {
                poker_hand_type: Some(PokerHandType::Straight),
                cards: vec![
                    Card::new(5, Suit::Club).unwrap(),
                    Card::new(4, Suit::Club).unwrap(),
                    Card::new(3, Suit::Diamond).unwrap(),
                    Card::new(2, Suit::Heart).unwrap(),
                    Card::new(14, Suit::Club).unwrap(),
                ],
            },
        ),
        (
            "High Card",
            PokerHand {
                poker_hand_type: None,
                cards: vec![
                    Card::new(2, Suit::Heart).unwrap(),
                    Card::new(14, Suit::Club).unwrap(),
                    Card::new(8, Suit::Diamond).unwrap(),
                    Card::new(5, Suit::Club).unwrap(),
                    Card::new(11, Suit::Club).unwrap(),
                ],
            },
            PokerHand {
                poker_hand_type: Some(PokerHandType::HighCard),
                cards: vec![
                    Card::new(14, Suit::Club).unwrap(),
                    Card::new(11, Suit::Club).unwrap(),
                    Card::new(8, Suit::Diamond).unwrap(),
                    Card::new(5, Suit::Club).unwrap(),
                    Card::new(2, Suit::Heart).unwrap(),
                ],
            },
        ),
    ];

    for (name, mut poker_hand, expected) in cases {
        poker_hand.sort_hand().unwrap();
        assert_eq!(poker_hand, expected, "Case {name} failed");
    }
}

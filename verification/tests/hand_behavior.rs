use poker_hands::{Card, HandError, PokerHand, PokerHandType, Suit};
use std::cmp::Ordering;

fn hand_of(ranks_suits: &[(u8, Suit)]) -> PokerHand {
    let mut hand = PokerHand::new();
    for &(rank, suit) in ranks_suits {
        hand.add_card(Card::new(rank, suit).unwrap()).unwrap();
    }
    hand
}

fn ranks_of(hand: &PokerHand) -> Vec<u8> {
    hand.cards.iter().map(|c| c.rank).collect()
}

#[test]
fn new_hand_is_empty_and_unclassified() {
    let hand = PokerHand::new();
    assert_eq!(hand.cards.len(), 0);
    assert!(hand.poker_hand_type.is_none());
}

#[test]
fn sixth_card_is_refused_and_hand_unchanged() {
    let mut hand = hand_of(&[
        (2, Suit::Club),
        (5, Suit::Heart),
        (9, Suit::Spade),
        (11, Suit::Diamond),
        (14, Suit::Club),
    ]);
    let before = ranks_of(&hand);
    let result = hand.add_card(Card::new(7, Suit::Heart).unwrap());
    assert_eq!(result, Err(HandError::HandFull));
    assert_eq!(hand.cards.len(), 5);
    assert_eq!(ranks_of(&hand), before);
}

#[test]
fn classify_fails_with_fewer_than_five_cards() {
    let mut hand = hand_of(&[(2, Suit::Club), (5, Suit::Heart)]);
    assert_eq!(hand.set_hand_type(), Err(HandError::IncompleteHand));
    assert!(hand.poker_hand_type.is_none());
    assert_eq!(hand.sort_hand(), Err(HandError::IncompleteHand));
}

#[test]
fn classify_fails_with_more_than_five_cards() {
    let mut hand = PokerHand {
        poker_hand_type: None,
        cards: vec![
            Card::new(2, Suit::Club).unwrap(),
            Card::new(3, Suit::Club).unwrap(),
            Card::new(4, Suit::Club).unwrap(),
            Card::new(5, Suit::Club).unwrap(),
            Card::new(6, Suit::Club).unwrap(),
            Card::new(7, Suit::Club).unwrap(),
        ],
    };
    assert_eq!(hand.set_hand_type(), Err(HandError::IncompleteHand));
    assert!(hand.poker_hand_type.is_none());
}

#[test]
fn histogram_counts_sum_to_five_and_order_is_canonical() {
    let hand = hand_of(&[
        (2, Suit::Club),
        (10, Suit::Diamond),
        (2, Suit::Heart),
        (10, Suit::Spade),
        (9, Suit::Club),
    ]);
    let hist = hand.card_rank_histogram();
    // Two pairs tie on count; the higher rank leads; the kicker trails.
    assert_eq!(hist, vec![(10, 2), (2, 2), (9, 1)]);
    let total: usize = hist.iter().map(|e| e.1).sum();
    assert_eq!(total, 5);

    let quad = hand_of(&[
        (2, Suit::Club),
        (2, Suit::Heart),
        (2, Suit::Spade),
        (2, Suit::Diamond),
        (10, Suit::Club),
    ]);
    assert_eq!(quad.card_rank_histogram(), vec![(2, 4), (10, 1)]);
}

#[test]
fn flush_is_all_one_suit() {
    let suited = hand_of(&[
        (2, Suit::Club),
        (9, Suit::Club),
        (11, Suit::Club),
        (13, Suit::Club),
        (14, Suit::Club),
    ]);
    assert!(suited.have_flush());

    let off = hand_of(&[
        (2, Suit::Club),
        (9, Suit::Club),
        (11, Suit::Heart),
        (13, Suit::Club),
        (14, Suit::Club),
    ]);
    assert!(!off.have_flush());
}

#[test]
fn straight_is_a_run_or_the_wheel() {
    let run = hand_of(&[
        (6, Suit::Club),
        (4, Suit::Heart),
        (5, Suit::Spade),
        (3, Suit::Diamond),
        (2, Suit::Club),
    ]);
    assert!(run.have_straight());

    let wheel = hand_of(&[
        (14, Suit::Club),
        (2, Suit::Heart),
        (4, Suit::Spade),
        (3, Suit::Diamond),
        (5, Suit::Club),
    ]);
    assert!(wheel.have_straight());

    let broadway = hand_of(&[
        (10, Suit::Club),
        (12, Suit::Heart),
        (14, Suit::Spade),
        (11, Suit::Diamond),
        (13, Suit::Club),
    ]);
    assert!(broadway.have_straight());

    let gap = hand_of(&[
        (2, Suit::Club),
        (3, Suit::Heart),
        (4, Suit::Spade),
        (5, Suit::Diamond),
        (7, Suit::Club),
    ]);
    assert!(!gap.have_straight());

    let pair = hand_of(&[
        (2, Suit::Club),
        (2, Suit::Heart),
        (3, Suit::Spade),
        (4, Suit::Diamond),
        (5, Suit::Club),
    ]);
    assert!(!pair.have_straight());
}

#[test]
fn classification_scenarios() {
    let mut quad = hand_of(&[
        (2, Suit::Club),
        (2, Suit::Heart),
        (2, Suit::Spade),
        (2, Suit::Diamond),
        (10, Suit::Club),
    ]);
    quad.set_hand_type().unwrap();
    assert_eq!(quad.poker_hand_type, Some(PokerHandType::FourOfAKind));

    let mut full = hand_of(&[
        (2, Suit::Club),
        (2, Suit::Heart),
        (2, Suit::Spade),
        (10, Suit::Diamond),
        (10, Suit::Club),
    ]);
    full.set_hand_type().unwrap();
    assert_eq!(full.poker_hand_type, Some(PokerHandType::FullHouse));

    let mut royal = hand_of(&[
        (10, Suit::Heart),
        (11, Suit::Heart),
        (12, Suit::Heart),
        (13, Suit::Heart),
        (14, Suit::Heart),
    ]);
    royal.set_hand_type().unwrap();
    assert_eq!(royal.poker_hand_type, Some(PokerHandType::RoyalFlush));

    let mut steel_wheel = hand_of(&[
        (2, Suit::Spade),
        (3, Suit::Spade),
        (4, Suit::Spade),
        (5, Suit::Spade),
        (14, Suit::Spade),
    ]);
    steel_wheel.set_hand_type().unwrap();
    assert_eq!(steel_wheel.poker_hand_type, Some(PokerHandType::StraightFlush));

    let mut wheel = hand_of(&[
        (2, Suit::Club),
        (3, Suit::Heart),
        (4, Suit::Spade),
        (5, Suit::Diamond),
        (14, Suit::Club),
    ]);
    wheel.sort_hand().unwrap();
    assert_eq!(wheel.poker_hand_type, Some(PokerHandType::Straight));
    assert_eq!(ranks_of(&wheel), vec![5, 4, 3, 2, 14]);
}

#[test]
fn more_classification_shapes() {
    let mut trips = hand_of(&[
        (7, Suit::Club),
        (7, Suit::Heart),
        (7, Suit::Spade),
        (10, Suit::Diamond),
        (2, Suit::Club),
    ]);
    trips.set_hand_type().unwrap();
    assert_eq!(trips.poker_hand_type, Some(PokerHandType::ThreeOfAKind));

    let mut two_pair = hand_of(&[
        (7, Suit::Club),
        (7, Suit::Heart),
        (10, Suit::Spade),
        (10, Suit::Diamond),
        (2, Suit::Club),
    ]);
    two_pair.set_hand_type().unwrap();
    assert_eq!(two_pair.poker_hand_type, Some(PokerHandType::TwoPair));

    let mut one_pair = hand_of(&[
        (7, Suit::Club),
        (7, Suit::Heart),
        (10, Suit::Spade),
        (9, Suit::Diamond),
        (2, Suit::Club),
    ]);
    one_pair.set_hand_type().unwrap();
    assert_eq!(one_pair.poker_hand_type, Some(PokerHandType::OnePair));

    let mut flush = hand_of(&[
        (7, Suit::Club),
        (9, Suit::Club),
        (11, Suit::Club),
        (13, Suit::Club),
        (2, Suit::Club),
    ]);
    flush.set_hand_type().unwrap();
    assert_eq!(flush.poker_hand_type, Some(PokerHandType::Flush));

    let mut high = hand_of(&[
        (7, Suit::Club),
        (9, Suit::Heart),
        (11, Suit::Spade),
        (13, Suit::Diamond),
        (2, Suit::Club),
    ]);
    high.set_hand_type().unwrap();
    assert_eq!(high.poker_hand_type, Some(PokerHandType::HighCard));
}

#[test]
fn one_pair_sorts_priority_rank_first_then_kickers_descending() {
    let mut hand = hand_of(&[
        (2, Suit::Club),
        (10, Suit::Diamond),
        (14, Suit::Spade),
        (2, Suit::Heart),
        (9, Suit::Club),
    ]);
    hand.sort_hand().unwrap();
    assert_eq!(ranks_of(&hand), vec![2, 2, 14, 10, 9]);
}

#[test]
fn stronger_category_always_wins() {
    let mut quad = hand_of(&[
        (2, Suit::Club),
        (2, Suit::Heart),
        (2, Suit::Spade),
        (2, Suit::Diamond),
        (3, Suit::Club),
    ]);
    quad.sort_hand().unwrap();
    let mut high = hand_of(&[
        (14, Suit::Club),
        (13, Suit::Heart),
        (11, Suit::Spade),
        (9, Suit::Diamond),
        (7, Suit::Club),
    ]);
    high.sort_hand().unwrap();
    assert_eq!(quad.cmp(&high), Ordering::Greater);
    assert_eq!(high.cmp(&quad), Ordering::Less);
}

#[test]
fn equal_categories_compare_by_cards_under_value_order() {
    let mut pair_of_nines = hand_of(&[
        (9, Suit::Club),
        (9, Suit::Heart),
        (14, Suit::Spade),
        (7, Suit::Diamond),
        (3, Suit::Club),
    ]);
    pair_of_nines.sort_hand().unwrap();
    let mut pair_of_eights = hand_of(&[
        (8, Suit::Club),
        (8, Suit::Heart),
        (14, Suit::Spade),
        (7, Suit::Diamond),
        (3, Suit::Club),
    ]);
    pair_of_eights.sort_hand().unwrap();
    assert_eq!(pair_of_nines.cmp(&pair_of_eights), Ordering::Greater);

    let mut same_a = hand_of(&[
        (9, Suit::Club),
        (9, Suit::Heart),
        (14, Suit::Spade),
        (7, Suit::Diamond),
        (3, Suit::Club),
    ]);
    same_a.sort_hand().unwrap();
    let mut same_b = hand_of(&[
        (9, Suit::Spade),
        (9, Suit::Diamond),
        (14, Suit::Club),
        (7, Suit::Heart),
        (3, Suit::Spade),
    ]);
    same_b.sort_hand().unwrap();
    assert_eq!(same_a.cmp(&same_b), Ordering::Equal);
}

#[test]
fn sorting_twice_changes_nothing() {
    let shapes: Vec<Vec<(u8, Suit)>> = vec![
        // one pair
        vec![
            (2, Suit::Club),
            (10, Suit::Diamond),
            (14, Suit::Spade),
            (2, Suit::Heart),
            (9, Suit::Club),
        ],
        // full house
        vec![
            (2, Suit::Club),
            (10, Suit::Diamond),
            (10, Suit::Spade),
            (2, Suit::Heart),
            (2, Suit::Spade),
        ],
        // the wheel straight
        vec![
            (14, Suit::Club),
            (3, Suit::Diamond),
            (5, Suit::Spade),
            (2, Suit::Heart),
            (4, Suit::Club),
        ],
        // high card
        vec![
            (13, Suit::Club),
            (3, Suit::Diamond),
            (7, Suit::Spade),
            (2, Suit::Heart),
            (9, Suit::Club),
        ],
    ];
    for shape in shapes {
        let mut hand = hand_of(&shape);
        hand.sort_hand().unwrap();
        let once = ranks_of(&hand);
        let type_once = hand.poker_hand_type;
        hand.sort_hand().unwrap();
        assert_eq!(ranks_of(&hand), once);
        assert_eq!(hand.poker_hand_type, type_once);
    }
}

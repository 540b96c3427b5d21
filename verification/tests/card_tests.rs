use poker_hands::{Card, HandError, Suit};
use std::cmp::Ordering;

#[test]
fn construction_succeeds_for_every_rank_in_range() {
    for rank in 2..=14u8 {
        let card = Card::new(rank, Suit::Heart).unwrap();
        assert_eq!(card.rank, rank);
        assert_eq!(card.suit, Suit::Heart);
    }
}

#[test]
fn construction_fails_outside_range_with_invalid_rank() {
    assert_eq!(Card::new(0, Suit::Club), Err(HandError::InvalidRank));
    assert_eq!(Card::new(1, Suit::Spade), Err(HandError::InvalidRank));
    assert_eq!(Card::new(15, Suit::Diamond), Err(HandError::InvalidRank));
    assert_eq!(Card::new(255, Suit::Heart), Err(HandError::InvalidRank));
}

#[test]
fn display_order_puts_higher_rank_first() {
    let ace = Card::new(14, Suit::Club).unwrap();
    let ten = Card::new(10, Suit::Heart).unwrap();
    assert_eq!(ace.display_cmp(&ten), Ordering::Less);
    assert_eq!(ten.display_cmp(&ace), Ordering::Greater);
    let other_ace = Card::new(14, Suit::Diamond).unwrap();
    assert_eq!(ace.display_cmp(&other_ace), Ordering::Equal);
}

#[test]
fn value_order_is_natural_ascending_rank() {
    let ace = Card::new(14, Suit::Club).unwrap();
    let ten = Card::new(10, Suit::Heart).unwrap();
    assert_eq!(ace.value_cmp(&ten), Ordering::Greater);
    assert_eq!(ten.value_cmp(&ace), Ordering::Less);
    let other_ten = Card::new(10, Suit::Spade).unwrap();
    assert_eq!(ten.value_cmp(&other_ten), Ordering::Equal);
}

#[test]
fn rank_labels_spell_the_court_cards() {
    assert_eq!(Card::new(2, Suit::Club).unwrap().rank_label(), "2");
    assert_eq!(Card::new(9, Suit::Club).unwrap().rank_label(), "9");
    assert_eq!(Card::new(10, Suit::Club).unwrap().rank_label(), "10");
    assert_eq!(Card::new(11, Suit::Club).unwrap().rank_label(), "J");
    assert_eq!(Card::new(12, Suit::Club).unwrap().rank_label(), "Q");
    assert_eq!(Card::new(13, Suit::Club).unwrap().rank_label(), "K");
    assert_eq!(Card::new(14, Suit::Club).unwrap().rank_label(), "A");
}

//! A five-card poker hand library: build a hand card by card, classify it
//! into its hand-type category, arrange its cards into the canonical
//! presentation order for that category, and rank two classified hands
//! against each other.

pub mod card;
pub mod classify;
pub mod compare;
pub mod counting;
pub mod hand;
pub mod hand_type;
pub mod histogram;
pub mod patterns;
pub mod sorting;

pub use card::{Card, HandError, Suit};
pub use hand::PokerHand;
pub use hand_type::PokerHandType;

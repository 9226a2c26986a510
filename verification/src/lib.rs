//! A five-card poker table: cards, decks, hand classification, players and
//! the betting rules of a table, with their contracts.

pub mod card;
pub mod deck;
pub mod hand;
pub mod player;
pub mod table;

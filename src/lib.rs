//! A two-player Go Fish engine: cards, the deck, players' hands and books,
//! and the turn state machine that drives a game to its end.

pub mod card;
pub mod deck;
pub mod player;
pub mod game;

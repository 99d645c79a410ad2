//! Reconstructs the history of a player's deck across one run of a deck-building
//! game, from per-floor event records, and reconciles it against the final deck.

pub mod card;
pub mod deck;
pub mod events;
pub mod resource;
pub mod run;
pub mod deck_laws;

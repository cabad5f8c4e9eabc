//! A rules engine for the card game Hearts for four players: dealing,
//! card-passing, trick resolution, scoring with the shoot-the-moon rule,
//! and round repetition until a player reaches the losing threshold.
//!
//! Decisions (names, cards to pass, cards to play) come from a
//! [`controller::Controller`], implemented outside the engine. The engine
//! checks the name count, each pass selection (three distinct cards, all in
//! the giver's hand) and each play's hand membership before acting; it does
//! not re-check a play against the legality filter it offers.

pub mod card;
pub mod controller;
pub mod deck;
pub mod game;
pub mod laws;
pub mod player;

pub use card::Card;
pub use card::Rank;
pub use card::Suit;
pub use controller::Controller;
pub use controller::ControllerError;
pub use deck::Deck;
pub use game::Game;
pub use game::GameError;
pub use game::HeartsPlayedState;
pub use game::PassingOrder;
pub use player::Player;

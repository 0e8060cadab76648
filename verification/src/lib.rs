//! The card game Daifugo (also called President) for four seats, as an
//! environment to train an agent in: the deck and its cards, the table of
//! every action a player can take, the local rules, and the game itself with
//! dealing, the card exchange between rounds, turns, the field and the
//! finishing order.

pub mod action;
pub mod bits;
pub mod card;
pub mod common;
pub mod env;
pub mod laws;
pub mod rule;

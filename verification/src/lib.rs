//! A rules engine for the game of reversi, with a small helper module for
//! command-line menu selection.
//!
//! The heart of the crate is [`turn::Turn`]: a board snapshot together with
//! the side to move and the running scores. A move never mutates the turn it
//! is played on; it yields a brand-new turn, so the history of a game is a
//! chain of independent values.

pub mod board;
pub mod menu;
pub mod rules;
pub mod turn;

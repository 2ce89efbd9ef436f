//! An exhaustive solver for a simplified two-player bluffing card game.
//!
//! The game is played with hidden influence cards: each player holds two card
//! slots which start uncommitted (`Void`) and only commit to a concrete role
//! when an action forces them to. The library models positions as values,
//! generates every legal successor of a position, and labels every reachable
//! position with a signed rank saying whether the controller (seat id 0) can
//! force a win, together with a preferred successor realizing that outcome.

pub mod game;
pub mod rules;
pub mod solver;

//! Rotation schedules for four-player table games.
//!
//! A schedule seats every player of a party, round after round, at tables of
//! two teams of two, and lets the players that do not fill a table sit out in
//! turn.

#![allow(non_snake_case)]

pub mod counts;
pub mod draw;
pub mod generate;
pub mod history;
pub mod pool;
pub mod reorder;
pub mod roster;
pub mod seating;
pub mod text;
pub mod wrap;

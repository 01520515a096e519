//! Reads a board of cards from the places at which the cards were found in
//! an image of it.
//!
//! A board has six columns of cards. For each of the nine cards a score map
//! says how well the card's picture fits at each place of the image. The
//! places that score high are collected ([`matcher`]), the 36 that stand
//! first from the top of the image down are kept and put in reading order
//! ([`aggregate`]), and these are dealt onto the six columns ([`board`]).
//! The cards themselves, with their ranks and labels, are in [`card`].

pub mod aggregate;
pub mod board;
pub mod card;
pub mod matcher;

pub use aggregate::{collect, select, sort_stably, Order, SLOTS};
pub use board::{Board, COLUMNS};
pub use card::{Card, CardError, MAX_RANK, MIN_RANK};
pub use matcher::{is_hit, CardMatch, ScoreMap, PERFECT, THRESHOLD};

//! A two-player sowing-and-capture board game: the board, the turns that
//! players make on it, and the bookkeeping that a self-play trainer needs.

pub mod action;
pub mod board;
pub mod episode;
pub mod generator;
pub mod progress;
pub mod rules;

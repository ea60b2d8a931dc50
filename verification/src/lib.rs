//! A verified engine for the 4x4 sliding-tile merge puzzle: packing and
//! merging lines of power-of-two tiles, scoring merges, classifying the
//! session as won, lost or live, and spawning random tiles.
//!
//! The terminal front end around it only reads keys and renders the board;
//! every rule of the game lives here, under contract.

pub mod board;
pub mod game;
pub mod line;
mod rng;

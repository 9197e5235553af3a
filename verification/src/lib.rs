//! Core of a terminal password-cracking puzzle.
//!
//! A grid of punctuation filler ("the ledger") is seeded with a handful of
//! same-length candidate words; the player must find the one target word
//! within a limited number of attempts.  `game` holds the guessing state
//! machine, `ledger` the board generation, geometry and cursor
//! classification, `dict` the dictionary-path table, and `rng` the trusted
//! boundary to the process-wide random source.

pub mod dict;
pub mod game;
pub mod ledger;
mod rng;

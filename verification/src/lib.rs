//! A helper for a five-letter word-guessing game.
//!
//! The crate keeps what the feedback of earlier guesses has revealed
//! ([`game::GameData`]), narrows a word list to the words that agree with it
//! ([`filter::Filter`]), ranks the survivors ([`ranking`]) and plays whole
//! games against a known target ([`solver::Solver`], [`simulate`]).

pub mod letters;
pub mod text;
pub mod game;
pub mod feedback;
pub mod filter;
pub mod analysis;
pub mod ranking;
pub mod stats;
pub mod solver;
pub mod simulate;

//! A verified core for a Wordle-style solving assistant.
//!
//! The library narrows a fixed-length dictionary to the words consistent
//! with a history of guesses, each annotated with per-letter feedback,
//! and ranks the survivors by a letter-coverage heuristic.  Everything
//! here is pure computation; terminal handling, persistence and word-list
//! loading live with the embedding application.

pub mod analysis;
pub mod counting;
pub mod history;
pub mod models;
pub mod scoring;
pub mod solver;
pub mod text;
pub mod ui_state;

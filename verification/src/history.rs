//! Reconstructed game history: the record types and the verified
//! readers for the two log lines the reconstruction keys on.  Walking
//! the log files themselves is the embedding application's business.

use vstd::prelude::*;

use crate::solver::Feedback;
use crate::text::extract_after_marker;
use crate::text::occurs_at;
use crate::text::trim_spec;

verus! {

/// Outcome of a reconstructed game.
#[derive(Debug, Clone, PartialEq, Eq, Structural)]
pub enum GameOutcome {
    Won { guesses: usize },
    Lost,
    Abandoned,
}

/// A single reconstructed guess.
#[derive(Debug, Clone)]
pub struct GameGuess {
    pub word: String,
    pub feedback: Vec<Feedback>,
}

/// A reconstructed game: when it started (microseconds since the Unix
/// epoch), what the target was, the guesses in order, and how it
/// ended.
#[derive(Debug, Clone)]
pub struct GameRecord {
    pub timestamp: i64,
    pub target_word: String,
    pub guesses: Vec<GameGuess>,
    pub outcome: GameOutcome,
}

impl GameRecord {
    /// The number of guesses made in this game.
    pub fn guess_count(&self) -> (n: usize)
        ensures
            n == self.guesses@.len(),
    {
        self.guesses.len()
    }

    /// Whether the game was lost.
    pub fn was_lost(&self) -> (r: bool)
        ensures
            r == (self.outcome is Lost),
    {
        matches!(self.outcome, GameOutcome::Lost)
    }
}

/// Which view the history screen shows.
#[derive(Debug, Clone, PartialEq, Eq, Structural)]
pub enum HistoryViewMode {
    Stats,
    List,
    Detail,
    Solver,
}

/// Reads the target word from a game-start log line: everything after
/// the first occurrence of the marker, trimmed of surrounding
/// whitespace.  `None` when the line is no game-start line.
pub fn extract_new_game(line: &str) -> (r: Option<String>)
    ensures
        r is Some <==> exists|pos: int|
            occurs_at(line@, "New game started with target word: "@, pos),
        r matches Some(w) ==> exists|pos: int|
            {
                &&& #[trigger] occurs_at(line@, "New game started with target word: "@, pos)
                &&& forall|q: int|
                    0 <= q < pos ==> !occurs_at(line@, "New game started with target word: "@, q)
                &&& w@ == trim_spec(
                    line@.subrange(
                        pos + "New game started with target word: "@.len(),
                        line@.len() as int,
                    ),
                )
            },
{
    extract_after_marker(line, "New game started with target word: ")
}

/// Reads the guessed word from a guess-submission log line, in the
/// same way.  `None` when the line is no guess line.
pub fn extract_game_guess(line: &str) -> (r: Option<String>)
    ensures
        r is Some <==> exists|pos: int| occurs_at(line@, "Game guess submitted: "@, pos),
        r matches Some(w) ==> exists|pos: int|
            {
                &&& #[trigger] occurs_at(line@, "Game guess submitted: "@, pos)
                &&& forall|q: int| 0 <= q < pos ==> !occurs_at(line@, "Game guess submitted: "@, q)
                &&& w@ == trim_spec(
                    line@.subrange(pos + "Game guess submitted: "@.len(), line@.len() as int),
                )
            },
{
    extract_after_marker(line, "Game guess submitted: ")
}

} // verus!

//! Record types exchanged with the persistence layer, and their string
//! forms.
//!
//! The storage backend keeps outcomes and feedback as short lowercase
//! strings; the conversions here round-trip losslessly through the
//! three-valued feedback enumeration, and every parser says exactly
//! which strings it accepts.

use vstd::prelude::*;

use crate::solver::Feedback as SolverFeedback;
use crate::text::str_eq;

verus! {

/// How a finished game ended.
#[derive(Debug, Clone, PartialEq, Eq, Structural)]
pub enum GameOutcome {
    Won,
    Lost,
    Abandoned,
}

/// The outcome a stored string denotes, if any.
pub open spec fn game_outcome_of(s: Seq<char>) -> Option<GameOutcome> {
    if s == "won"@ {
        Some(GameOutcome::Won)
    } else if s == "lost"@ {
        Some(GameOutcome::Lost)
    } else if s == "abandoned"@ {
        Some(GameOutcome::Abandoned)
    } else {
        None
    }
}

impl GameOutcome {
    /// Reads an outcome from its stored string form.
    pub fn from_string(s: &str) -> (r: Option<GameOutcome>)
        ensures
            r == game_outcome_of(s@),
    {
        if str_eq(s, "won") {
            Some(GameOutcome::Won)
        } else if str_eq(s, "lost") {
            Some(GameOutcome::Lost)
        } else if str_eq(s, "abandoned") {
            Some(GameOutcome::Abandoned)
        } else {
            None
        }
    }

    /// The stored string form; parsing it back yields the same outcome.
    pub fn as_str(&self) -> (r: &'static str)
        ensures
            game_outcome_of(r@) == Some(*self),
    {
        proof {
            reveal_strlit("won");
            reveal_strlit("lost");
            reveal_strlit("abandoned");
            assert("won"@.len() == 3);
            assert("lost"@.len() == 4);
            assert("abandoned"@.len() == 9);
        }
        match self {
            GameOutcome::Won => "won",
            GameOutcome::Lost => "lost",
            GameOutcome::Abandoned => "abandoned",
        }
    }
}

/// How a solver session ended.
#[derive(Debug, Clone, PartialEq, Eq, Structural)]
pub enum SolverOutcome {
    Completed,
    Abandoned,
}

/// The solver outcome a stored string denotes, if any.
pub open spec fn solver_outcome_of(s: Seq<char>) -> Option<SolverOutcome> {
    if s == "completed"@ {
        Some(SolverOutcome::Completed)
    } else if s == "abandoned"@ {
        Some(SolverOutcome::Abandoned)
    } else {
        None
    }
}

impl SolverOutcome {
    /// Reads a solver outcome from its stored string form.
    pub fn from_string(s: &str) -> (r: Option<SolverOutcome>)
        ensures
            r == solver_outcome_of(s@),
    {
        if str_eq(s, "completed") {
            Some(SolverOutcome::Completed)
        } else if str_eq(s, "abandoned") {
            Some(SolverOutcome::Abandoned)
        } else {
            None
        }
    }

    /// The stored string form; parsing it back yields the same outcome.
    pub fn as_str(&self) -> (r: &'static str)
        ensures
            solver_outcome_of(r@) == Some(*self),
    {
        proof {
            reveal_strlit("completed");
            reveal_strlit("abandoned");
            assert("completed"@[0] == 'c');
            assert("abandoned"@[0] == 'a');
        }
        match self {
            SolverOutcome::Completed => "completed",
            SolverOutcome::Abandoned => "abandoned",
        }
    }
}

/// Per-letter feedback in its stored form.
#[derive(Debug, Clone, PartialEq, Eq, Structural)]
pub enum Feedback {
    Green,
    Yellow,
    Gray,
}

/// The stored feedback a string denotes, if any.
pub open spec fn feedback_name_of(s: Seq<char>) -> Option<Feedback> {
    if s == "green"@ {
        Some(Feedback::Green)
    } else if s == "yellow"@ {
        Some(Feedback::Yellow)
    } else if s == "gray"@ {
        Some(Feedback::Gray)
    } else {
        None
    }
}

impl Feedback {
    /// The stored string form; `from_string` reads it back unchanged,
    /// so the representation round-trips losslessly.
    pub fn to_string(&self) -> (r: &'static str)
        ensures
            feedback_name_of(r@) == Some(*self),
    {
        proof {
            reveal_strlit("green");
            reveal_strlit("yellow");
            reveal_strlit("gray");
            assert("green"@.len() == 5);
            assert("yellow"@.len() == 6);
            assert("gray"@.len() == 4);
        }
        match self {
            Feedback::Green => "green",
            Feedback::Yellow => "yellow",
            Feedback::Gray => "gray",
        }
    }

    /// Reads stored feedback from its string form.
    pub fn from_string(s: &str) -> (r: Option<Feedback>)
        ensures
            r == feedback_name_of(s@),
    {
        if str_eq(s, "green") {
            Some(Feedback::Green)
        } else if str_eq(s, "yellow") {
            Some(Feedback::Yellow)
        } else if str_eq(s, "gray") {
            Some(Feedback::Gray)
        } else {
            None
        }
    }

    /// The stored form of the solver's feedback value.
    pub fn from_solver(sf: &SolverFeedback) -> (r: Feedback)
        ensures
            r == match sf {
                SolverFeedback::Green => Feedback::Green,
                SolverFeedback::Yellow => Feedback::Yellow,
                SolverFeedback::Gray => Feedback::Gray,
            },
    {
        match sf {
            SolverFeedback::Green => Feedback::Green,
            SolverFeedback::Yellow => Feedback::Yellow,
            SolverFeedback::Gray => Feedback::Gray,
        }
    }

    /// The solver's value for this stored feedback; the inverse of
    /// `from_solver`.
    pub fn to_solver(&self) -> (r: SolverFeedback)
        ensures
            r == match self {
                Feedback::Green => SolverFeedback::Green,
                Feedback::Yellow => SolverFeedback::Yellow,
                Feedback::Gray => SolverFeedback::Gray,
            },
            Feedback::from_solver_spec(r) == *self,
    {
        match self {
            Feedback::Green => SolverFeedback::Green,
            Feedback::Yellow => SolverFeedback::Yellow,
            Feedback::Gray => SolverFeedback::Gray,
        }
    }

    /// What `from_solver` returns, as a spec-level function.
    pub open spec fn from_solver_spec(sf: SolverFeedback) -> Feedback {
        match sf {
            SolverFeedback::Green => Feedback::Green,
            SolverFeedback::Yellow => Feedback::Yellow,
            SolverFeedback::Gray => Feedback::Gray,
        }
    }
}

/// One stored guess of a played game.
#[derive(Debug, Clone)]
pub struct GameGuess {
    pub id: i64,
    pub game_id: i64,
    pub guess_number: i64,
    pub word: String,
    pub feedback: Vec<Feedback>,
}

} // verus!

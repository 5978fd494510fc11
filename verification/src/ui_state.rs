//! Pure state carried for the embedding user interface: the bounded
//! log buffer and the input-classification values.  The interface loop
//! itself — key handling, drawing, timing — lives with the embedding
//! application; this module only holds the data it reads and writes.

use vstd::prelude::*;

use crate::solver::Feedback;

verus! {

/// The most log lines the buffer retains.
pub const MAX_LOG_LINES: usize = 300;

/// A bounded log buffer: appending beyond the capacity drops the
/// oldest line.
#[derive(Debug)]
pub struct LogBuffer {
    entries: Vec<String>,
}

impl LogBuffer {
    /// The retained lines, oldest first.
    pub closed spec fn log_lines(&self) -> Seq<String> {
        self.entries@
    }

    /// The buffer never holds more than its capacity.
    pub open spec fn wf(&self) -> bool {
        self.log_lines().len() <= MAX_LOG_LINES
    }

    /// An empty buffer.
    pub fn new() -> (r: LogBuffer)
        ensures
            r.wf(),
            r.log_lines() == Seq::<String>::empty(),
    {
        LogBuffer { entries: Vec::new() }
    }

    /// Appends a line, dropping the oldest line once the buffer is
    /// full.
    pub fn push(&mut self, msg: String)
        requires
            old(self).wf(),
        ensures
            final(self).wf(),
            final(self).log_lines() == if old(self).log_lines().len() < MAX_LOG_LINES {
                old(self).log_lines().push(msg)
            } else {
                old(self).log_lines().push(msg).drop_first()
            },
    {
        self.entries.push(msg);
        if self.entries.len() > MAX_LOG_LINES {
            let _ = self.entries.remove(0);
            proof {
                assert(self.entries@ =~= old(self).log_lines().push(msg).drop_first());
            }
        }
    }

    /// A copy of the retained lines, oldest first.
    pub fn lines(&self) -> (r: Vec<String>)
        ensures
            r@ == self.log_lines(),
    {
        let mut r: Vec<String> = Vec::new();
        for i in 0..self.entries.len()
            invariant
                r@.len() == i,
                forall|j: int| 0 <= j < i ==> #[trigger] r@[j] == self.entries@[j],
        {
            r.push(self.entries[i].clone());
        }
        proof {
            assert(r@ =~= self.log_lines());
        }
        r
    }
}

/// How far a partially typed input has come.
#[derive(Debug)]
pub enum InputStatus {
    Incomplete,
    Invalid(&'static str),
    Valid,
}

/// What a submitted input parsed to.
#[derive(Debug)]
pub enum ParsedInput {
    Incomplete,
    Invalid,
    Valid { word: String, feedback: Vec<Feedback> },
}

/// The mode the interface is operating in.
#[derive(Debug, Clone, PartialEq, Eq, Structural)]
pub enum GameMode {
    Solver,
    Game,
    History,
}

} // verus!

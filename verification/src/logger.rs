//! Logging: the trait wiredock logs through, and the level filter and line
//! format of its stderr logger.

use vstd::prelude::*;

use crate::text::{push_str, string_of};

verus! {

/// Minimal logger contract used by wiredock internals.
pub trait Logger {
    /// Notable internal event that is still normal operation.
    fn info(&self, msg: &str);

    /// Recoverable or noteworthy issue.
    fn warn(&self, msg: &str);

    /// Serious internal failure.
    fn error(&self, msg: &str);
}

/// The stderr logger's settings: messages below `min_level` (trace 0,
/// info 1, warn 2, error 3) are dropped. Writing the lines is the
/// caller's part.
#[derive(Debug)]
pub struct StderrLogger {
    pub min_level: u8,
}

/// The line a logged message is written as (without the newline).
pub open spec fn log_line(tag: Seq<char>, msg: Seq<char>) -> Seq<char> {
    "["@ + tag + "] "@ + msg
}

impl StderrLogger {
    /// Create a logger with the given minimum level.
    pub fn new(min_level: u8) -> (r: StderrLogger)
        ensures
            r.min_level == min_level,
    {
        StderrLogger { min_level }
    }

    /// The line for a message at `level` with `tag`, or `None` when the
    /// level is below the minimum.
    pub fn line(&self, level: u8, tag: &str, msg: &str) -> (r: Option<String>)
        ensures
            match r {
                Some(s) => level >= self.min_level && s@ == log_line(tag@, msg@),
                None => level < self.min_level,
            },
    {
        if level < self.min_level {
            return None;
        }
        let mut s = string_of("[");
        push_str(&mut s, tag);
        push_str(&mut s, "] ");
        push_str(&mut s, msg);
        Some(s)
    }

    /// An info message: level 1, tag `INFO `.
    pub fn info_line(&self, msg: &str) -> (r: Option<String>)
        ensures
            match r {
                Some(s) => 1 >= self.min_level && s@ == log_line("INFO "@, msg@),
                None => 1 < self.min_level,
            },
    {
        self.line(1, "INFO ", msg)
    }

    /// A warning: level 2, tag `WARN `.
    pub fn warn_line(&self, msg: &str) -> (r: Option<String>)
        ensures
            match r {
                Some(s) => 2 >= self.min_level && s@ == log_line("WARN "@, msg@),
                None => 2 < self.min_level,
            },
    {
        self.line(2, "WARN ", msg)
    }

    /// An error: level 3, tag `ERROR`.
    pub fn error_line(&self, msg: &str) -> (r: Option<String>)
        ensures
            match r {
                Some(s) => 3 >= self.min_level && s@ == log_line("ERROR"@, msg@),
                None => 3 < self.min_level,
            },
    {
        self.line(3, "ERROR", msg)
    }
}

} // verus!

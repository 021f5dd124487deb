//! Log levels, kinds and the filtering decision.  Writing the line to a
//! diagnostic stream is the embedding program's business; nothing in the
//! core control flow depends on it.

use vstd::prelude::*;

verus! {

/// Filters messages by severity.
#[derive(Debug)]
pub struct Logger {
    pub level: LogLevel,
}

/// How important a message is; a logger at a given level passes messages at
/// that level and below.
#[derive(Clone, Copy, Debug, PartialEq, Eq, Structural)]
pub enum LogLevel {
    Nothing,
    Important,
    Normal,
    Verbose,
}

/// What a message reports.
#[derive(Clone, Copy, Debug, PartialEq, Eq, Structural)]
pub enum LogKind {
    Error,
    Warning,
    Info,
}

/// Severity order of the levels, most important first.
pub open spec fn spec_level_rank(l: LogLevel) -> int {
    match l {
        LogLevel::Nothing => 0,
        LogLevel::Important => 1,
        LogLevel::Normal => 2,
        LogLevel::Verbose => 3,
    }
}

fn level_rank(l: LogLevel) -> (r: u8)
    ensures
        r == spec_level_rank(l),
{
    match l {
        LogLevel::Nothing => 0,
        LogLevel::Important => 1,
        LogLevel::Normal => 2,
        LogLevel::Verbose => 3,
    }
}

impl Logger {
    pub fn new(level: LogLevel) -> (r: Self)
        ensures
            r.level == level,
    {
        Logger { level }
    }

    /// The filtering decision: a message is emitted exactly when its level
    /// does not exceed the logger's.
    pub fn should_log(&self, level: LogLevel) -> (r: bool)
        ensures
            r == (spec_level_rank(level) <= spec_level_rank(self.level)),
    {
        level_rank(level) <= level_rank(self.level)
    }

    /// The marker an emitted line carries for its kind.
    pub fn prefix_for(kind: LogKind) -> (r: &'static str)
        ensures
            kind == LogKind::Error ==> r@ == "*** "@,
            kind == LogKind::Warning ==> r@ == "!!! "@,
            kind == LogKind::Info ==> r@ == ""@,
    {
        match kind {
            LogKind::Error => "*** ",
            LogKind::Warning => "!!! ",
            LogKind::Info => "",
        }
    }
}

} // verus!

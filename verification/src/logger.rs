//! Logging: which lines are shown.
use vstd::prelude::*;
use vstd::string::*;

use crate::text::opt_text;

verus! {

/// How much is shown.
#[derive(Debug, Clone, Copy, PartialEq, Eq, PartialOrd, Ord, Structural)]
pub enum Level {
    Silent,
    Quiet,
    Standard,
    Verbose,
}

impl Level {
    /// The place of a level among the others.
    pub open spec fn rank(self) -> int {
        match self {
            Level::Silent => 0,
            Level::Quiet => 1,
            Level::Standard => 2,
            Level::Verbose => 3,
        }
    }

    /// Whether a level shows at least as much as another.
    fn at_least(self, other: Level) -> (r: bool)
        ensures
            r == (self.rank() >= other.rank()),
    {
        match other {
            Level::Silent => true,
            Level::Quiet => self != Level::Silent,
            Level::Standard => self == Level::Standard || self == Level::Verbose,
            Level::Verbose => self == Level::Verbose,
        }
    }
}

/// Logging injected into the engine.
///
/// The library NEVER writes to stdout, nor anywhere else: each method hands back the line to be
/// shown, if it is to be shown.
#[derive(Debug, Clone, Copy)]
pub struct Logger {
    pub level: Level,
    pub to_terminal: bool,
}

impl Logger {
    /// Whether a line that requires a level is shown.
    pub open spec fn shows(self, required: Level) -> bool {
        self.to_terminal && self.level.rank() >= required.rank()
    }

    /// The line, where it is shown.
    pub open spec fn shown(self, required: Level, msg: Seq<char>) -> Option<Seq<char>> {
        if self.shows(required) {
            Some(msg)
        } else {
            None
        }
    }

    pub fn new(level: Level, to_terminal: bool) -> (r: Self)
        ensures
            r.level == level,
            r.to_terminal == to_terminal,
    {
        Self { level, to_terminal }
    }

    /// A line about what is going on.
    pub fn status(&self, msg: &str) -> (r: Option<String>)
        ensures
            opt_text(r) == self.shown(Level::Standard, msg@),
    {
        self.emit(Level::Standard, msg)
    }

    /// A line about what may be wrong.
    pub fn warn(&self, msg: &str) -> (r: Option<String>)
        ensures
            opt_text(r) == self.shown(Level::Quiet, msg@),
    {
        self.emit(Level::Quiet, msg)
    }

    /// A line of detail.
    pub fn verbose(&self, msg: &str) -> (r: Option<String>)
        ensures
            opt_text(r) == self.shown(Level::Verbose, msg@),
    {
        self.emit(Level::Verbose, msg)
    }

    fn emit(&self, required: Level, msg: &str) -> (r: Option<String>)
        ensures
            opt_text(r) == self.shown(required, msg@),
    {
        if self.to_terminal && self.level.at_least(required) {
            Some(msg.to_owned())
        } else {
            None
        }
    }
}

impl Default for Logger {
    fn default() -> (r: Self)
        ensures
            r.level == Level::Standard,
            r.to_terminal,
    {
        Self::new(Level::Standard, true)
    }
}

/// A logger that shows more shows everything that one that shows less does.
pub proof fn law_levels_are_nested(less: Logger, more: Logger, required: Level)
    requires
        less.to_terminal == more.to_terminal,
        less.level.rank() <= more.level.rank(),
        less.shows(required),
    ensures
        more.shows(required),
{
}

/// What each level lets through: nothing when silent, warnings when quiet, what is going on as a
/// rule, and details when verbose; and nothing at all where there is no terminal.
pub proof fn law_what_is_shown(logger: Logger, msg: Seq<char>)
    ensures
        logger.shown(Level::Quiet, msg) == if logger.to_terminal && logger.level != Level::Silent {
            Some(msg)
        } else {
            None
        },
        logger.shown(Level::Standard, msg) == if logger.to_terminal && (logger.level
            == Level::Standard || logger.level == Level::Verbose) {
            Some(msg)
        } else {
            None
        },
        logger.shown(Level::Verbose, msg) == if logger.to_terminal && logger.level
            == Level::Verbose {
            Some(msg)
        } else {
            None
        },
{
}

} // verus!

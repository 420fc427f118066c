//! The process-wide log's rules: which severities print, and the one-letter
//! tag each one prints as. Writing the lines, stamping the time and wiring
//! the logger into the logging facade happen outside.

use vstd::prelude::*;

verus! {

/// A severity, `Error` the most severe. This stands in for the logging
/// facade's own severity where the rules below need one.
#[derive(Clone, Copy, Debug, PartialEq, Eq, Structural)]
pub enum LogLevel {
    Error,
    Warn,
    Info,
    Debug,
    Trace,
}

/// The rank of a severity: the most severe ranks lowest.
pub open spec fn log_rank(l: LogLevel) -> int {
    match l {
        LogLevel::Error => 1,
        LogLevel::Warn => 2,
        LogLevel::Info => 3,
        LogLevel::Debug => 4,
        LogLevel::Trace => 5,
    }
}

/// The one-letter tag a severity prints as.
pub open spec fn verbosity_s(l: LogLevel) -> Seq<char> {
    match l {
        LogLevel::Trace => "T"@,
        LogLevel::Debug => "D"@,
        LogLevel::Info => "I"@,
        LogLevel::Warn => "W"@,
        LogLevel::Error => "E"@,
    }
}

/// The one-letter tag a severity prints as.
pub fn verbosity(level: LogLevel) -> (r: &'static str)
    ensures
        r@ == verbosity_s(level),
{
    match level {
        LogLevel::Trace => "T",
        LogLevel::Debug => "D",
        LogLevel::Info => "I",
        LogLevel::Warn => "W",
        LogLevel::Error => "E",
    }
}

/// The logger: it prints every message at or above its configured level.
pub struct Logger {
    level: LogLevel,
}

impl Logger {
    /// The configured level.
    pub closed spec fn spec_level(&self) -> LogLevel {
        self.level
    }

    /// A logger that prints at and above the given level.
    pub fn new(level: LogLevel) -> (r: Logger)
        ensures
            r.spec_level() == level,
    {
        Logger { level: level }
    }

    /// Whether a message of the given severity is printed.
    pub fn enabled(&self, level: LogLevel) -> (r: bool)
        ensures
            r == (log_rank(level) <= log_rank(self.spec_level())),
    {
        let a: u8 = match level {
            LogLevel::Error => 1,
            LogLevel::Warn => 2,
            LogLevel::Info => 3,
            LogLevel::Debug => 4,
            LogLevel::Trace => 5,
        };
        let b: u8 = match self.level {
            LogLevel::Error => 1,
            LogLevel::Warn => 2,
            LogLevel::Info => 3,
            LogLevel::Debug => 4,
            LogLevel::Trace => 5,
        };
        a <= b
    }
}

} // verus!

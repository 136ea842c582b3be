//! Log entries that the surrounding node hands to its host.

use vstd::prelude::*;

verus! {

/// Log level of a log entry.
#[derive(Debug, Clone, Copy, PartialEq, Eq, Structural)]
pub enum LogLevel {
    Error,
    Warn,
    Info,
    Debug,
    Trace,
}

impl LogLevel {
    /// The number of the level: 1 for errors, up to 5 for traces.
    pub open spec fn spec_severity(self) -> u8 {
        match self {
            LogLevel::Error => 1,
            LogLevel::Warn => 2,
            LogLevel::Info => 3,
            LogLevel::Debug => 4,
            LogLevel::Trace => 5,
        }
    }

    /// The number of the level: 1 for errors, up to 5 for traces.
    pub fn severity(&self) -> (n: u8)
        ensures
            n == self.spec_severity(),
            1 <= n <= 5,
    {
        match self {
            LogLevel::Error => 1,
            LogLevel::Warn => 2,
            LogLevel::Info => 3,
            LogLevel::Debug => 4,
            LogLevel::Trace => 5,
        }
    }

    /// The level with the given number, if there is one.
    pub fn from_severity(n: u8) -> (level: Option<LogLevel>)
        ensures
            level matches Some(l) ==> l.spec_severity() == n,
            level is Some <==> 1 <= n <= 5,
    {
        if n == 1 {
            Some(LogLevel::Error)
        } else if n == 2 {
            Some(LogLevel::Warn)
        } else if n == 3 {
            Some(LogLevel::Info)
        } else if n == 4 {
            Some(LogLevel::Debug)
        } else if n == 5 {
            Some(LogLevel::Trace)
        } else {
            None
        }
    }
}

/// Allows generating logs.
pub trait LogCallback {
    /// Adds a log entry.
    fn log(&self, log_level: LogLevel, message: String);
}

} // verus!

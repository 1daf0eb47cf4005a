//! Verbosity levels selectable on the command line.

use vstd::prelude::*;

verus! {

/// Verbosity requested by the user.
#[derive(Debug, Clone, Copy, PartialEq, Eq, Structural)]
pub enum LogLevel {
    Debug,
    Info,
    Warn,
    Error,
    Silent,
}

/// Severity threshold handed to the logging backend.
#[derive(Debug, Clone, Copy, PartialEq, Eq, Structural)]
pub enum TracingLevel {
    Debug,
    Info,
    Warn,
    Error,
}

impl LogLevel {
    /// The threshold this level selects; `Silent` selects none.
    pub open spec fn spec_tracing_level(self) -> Option<TracingLevel> {
        match self {
            LogLevel::Debug => Some(TracingLevel::Debug),
            LogLevel::Info => Some(TracingLevel::Info),
            LogLevel::Warn => Some(TracingLevel::Warn),
            LogLevel::Error => Some(TracingLevel::Error),
            LogLevel::Silent => None,
        }
    }

    /// Maps the level to the backend threshold, or `None` when logging is off.
    pub fn to_tracing_level(&self) -> (level: Option<TracingLevel>)
        ensures
            level == self.spec_tracing_level(),
    {
        match self {
            LogLevel::Debug => Some(TracingLevel::Debug),
            LogLevel::Info => Some(TracingLevel::Info),
            LogLevel::Warn => Some(TracingLevel::Warn),
            LogLevel::Error => Some(TracingLevel::Error),
            LogLevel::Silent => None,
        }
    }
}

impl Default for LogLevel {
    fn default() -> (level: LogLevel)
        ensures
            level == LogLevel::Warn,
    {
        LogLevel::Warn
    }
}

} // verus!

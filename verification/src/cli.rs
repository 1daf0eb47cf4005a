//! The command line, once parsed.

use crate::application::log_level::LogLevel;
use vstd::prelude::*;

verus! {

/// The arguments of one invocation.
#[derive(Debug, Clone)]
pub struct Cli {
    /// The task to build.
    pub target: String,
    /// How much to log.
    pub log_level: LogLevel,
    /// The root directory of the project.
    pub root: String,
}

} // verus!

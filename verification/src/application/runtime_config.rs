//! What a run is asked to do.

use crate::cli::Cli;
use vstd::prelude::*;

verus! {

/// The target to build and the directory that holds the project.
#[derive(Debug, Clone)]
pub struct RuntimeConfig {
    pub target: String,
    pub root: String,
}

impl From<Cli> for RuntimeConfig {
    /// Keeps the target and the root of the command line.
    fn from(cli: Cli) -> (config: Self) {
        RuntimeConfig { target: cli.target, root: cli.root }
    }
}

impl vstd::std_specs::convert::FromSpecImpl<Cli> for RuntimeConfig {
    open spec fn obeys_from_spec() -> bool {
        true
    }

    open spec fn from_spec(cli: Cli) -> Self {
        RuntimeConfig { target: cli.target, root: cli.root }
    }
}

} // verus!

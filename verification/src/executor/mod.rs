//! Graph construction and scheduling decisions.

pub mod dependency_graph;
pub mod executor;

pub use dependency_graph::DependencyGraph;
pub use executor::{
    Dispatch, DispatchStep, ExecutionError, ExecutionState, Executor, ExecutorCreationError,
    Progress,
};

//! The task catalog.

pub mod task_registry;

pub use task_registry::{TaskRegistry, TaskRegistryCreationError};

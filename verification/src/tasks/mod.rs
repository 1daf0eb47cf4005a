//! Tasks: named units of work with declared dependencies, inputs and a command.

pub mod base_task;
pub mod execute_task;
pub mod task;

pub use base_task::BaseTask;
pub use execute_task::{ExecuteTask, ExecuteTaskError, OsFamily};
pub use task::{Task, TaskColor, TaskError};

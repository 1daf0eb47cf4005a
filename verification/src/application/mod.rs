//! Run-wide settings.

pub mod log_level;
pub mod runtime_config;

pub use log_level::{LogLevel, TracingLevel};
pub use runtime_config::RuntimeConfig;

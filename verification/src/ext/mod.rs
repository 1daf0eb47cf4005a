//! Small helpers on paths and times.

pub mod best_effort_path_ext;
pub mod system_time_ext;

pub use best_effort_path_ext::{normalize_path, PathComponent};
pub use system_time_ext::{to_time, TimeOfDay};

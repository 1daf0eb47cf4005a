//! The fingerprint cache that decides whether a task's inputs have changed.

pub mod dependency_tracker;
pub mod file_fingerprint;
pub mod persistence;

pub use dependency_tracker::{DependencyRecord, DependencyTracker, PathProbe};
pub use file_fingerprint::{FileFingerprint, FileMetadata, Fingerprint, FingerprintStep};

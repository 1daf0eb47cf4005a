//! A small build orchestrator: task catalog, dependency graph, scheduling
//! decisions and the file-fingerprint cache that lets unchanged tasks be skipped.

pub mod application;
pub mod cli;
pub mod config;
pub mod executor;
pub mod ext;
pub mod file_dependencies;
pub mod filesystem;
pub mod string_map;
pub mod strings;
pub mod tasks;
pub mod yaml;

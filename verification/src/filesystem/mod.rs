//! A tree of the files and directories that a set of paths names.

pub mod tree;

pub use tree::{CannotInsertIntoFileError, FilesystemNode, FilesystemNodeCreationError, NodeKind};

//! Build orchestration for multi-platform framework bundles.
//!
//! The crate holds the decisions of the tool and a model of the directory
//! trees it works on: which step runs next, when a sequence of commands
//! stops, where the slices of a bundle are, and how the header tree of a
//! slice is replaced by a namespaced copy of the generated headers. Spawning
//! processes and touching the disk is left to the caller.

pub mod console;
pub mod content_laws;
pub mod patch_laws;
pub mod path;
pub mod tree;
pub mod tree_laws;
pub mod xcframework;

pub use console::{Config, Error};
pub use path::TreePath;
pub use tree::FileTree;
pub use xcframework::{
    create_xcframework, patch_subframework, patch_xcframework, search_subframework_paths,
    toolchain_command,
};

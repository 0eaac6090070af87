//! Locates a "projects" root directory and enumerates the subdirectories
//! beneath it to a bounded depth, skipping hidden entries.
//!
//! The crate has two parts. `resolve` picks the root directory from an
//! ordered chain of sources: an explicit override, an environment value,
//! and the home directory's fixed subdirectory. `walk` enumerates
//! directories beneath that root: it is a small state machine that asks
//! its caller for one directory listing at a time, so that the filesystem
//! reads themselves stay outside the crate, while every decision — what
//! to keep, how deep to descend, and in which order paths appear — is
//! made and verified here.

pub mod resolve;
pub mod walk;

pub use resolve::Args;
pub use resolve::find_root_directory;
pub use resolve::find_root_directory_by_arg;
pub use resolve::find_root_directory_by_default;
pub use resolve::find_root_directory_by_env;
pub use walk::Entry;
pub use walk::Walker;
pub use walk::path_should_appear;
pub use walk::starts_with_dot;

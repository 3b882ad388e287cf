//! Cross-instance coordination for a desktop document viewer: which process
//! owns which project root, per-process inboxes of files to open, and the
//! decision of where a newly requested document goes.

pub mod build_info;
pub mod file_tree;
pub mod registry;
pub mod routing;
pub mod store;
pub mod text;
pub mod tree;
pub mod watch;

//! Port and process lookup logic: parsers for the kernel's socket and
//! process tables, pid selection, and process-tree kill planning.
pub mod api;
pub mod linux;
pub mod macos;
pub mod pids;
pub mod text;
pub mod tree;
pub mod windows;

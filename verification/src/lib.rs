//! Building blocks of a directory-tree change watcher: the decoder of the
//! kernel's change records, the bounded directory walk, the registration of
//! watches under the system-wide ceiling, the decisions of the read loop, and
//! the process table that a consumer refreshes on each change.
//!
//! Nothing in this crate touches the operating system. Every function works
//! on plain values that the caller obtained from it, and says in its contract
//! what it returns.

pub mod directory_walker;
pub mod error;
pub mod filesystem_watcher;
pub mod inotify_api;
pub mod process_scanner;
pub mod text;
pub mod watch_loop;
pub mod watch_registrar;
pub mod watch_set;

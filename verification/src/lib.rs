//! Verified core of a recursive file watcher.
//!
//! Paths are byte strings separated by `/` and terminated by a NUL byte, the form in which a unix
//! system call takes them.

pub mod bytes;
pub mod component_laws;
pub mod components;
pub mod config;
pub mod eco;
pub mod events;
pub mod fsevent;
pub mod ids;
pub mod inotify;
pub mod metadata;
pub mod path;
pub mod path_laws;
pub mod pending;
pub mod roots;
pub mod table;
pub mod tree;
pub mod watcher;
pub mod windows;
pub mod worker;

pub use crate::config::Filter;
pub use crate::events::{Event, EventType, Events};
pub use crate::path::{CannonicalPath, CanonicalPathBuf};

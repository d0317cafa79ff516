//! A minimal, immutable FUSE-style filesystem request handler.
//!
//! The crate models a static inode table (one root directory holding a fixed
//! set of regular files), builds file attributes, enumerates directory
//! listings into the kernel's size-bounded directory-entry wire format, and
//! dispatches decoded filesystem operations (lookup, getattr, readdir, read)
//! to a reply or an error class.  Everything here is synchronous, pure
//! computation; mounting and the kernel transport live outside the library.

pub mod dirent;
pub mod dispatch;
pub mod encode;
pub mod table;
pub mod types;

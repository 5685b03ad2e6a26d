//! A verified reconciliation engine for dotfile management.
//!
//! The library tracks a user-selected set of files by relocating them into a
//! managed storage directory and replacing the original location with a
//! symbolic link.  Everything the engine decides — which paths match the
//! configured pattern lists, which paths are already managed, and which
//! filesystem mutations reach the target state — is verified against a
//! model of the filesystem.  The unverified shell around the library performs
//! the real filesystem calls by replaying the actions the engine returns.

pub mod config;
pub mod dotfile;
pub mod errors;
pub mod files;
pub mod fs;
pub mod laws;
pub mod locations;
pub mod matcher;
pub mod paths;

//! A verified versioned storage engine for document workspaces.
//!
//! Each workspace is an independent repository: a content-addressable store
//! of immutable blob, tree and commit objects, a table of branch references
//! with a HEAD pointer, a staging index, and a working directory that mirrors
//! the commit currently checked out.

pub mod config;
pub mod errors;
pub mod history;
pub mod index;
pub mod manager;
pub mod objects;
pub mod order;
pub mod refs;
pub mod store;
pub mod workdir;
pub mod workspace;

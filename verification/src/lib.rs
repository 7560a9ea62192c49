//! Reads a git-style object database that has been loaded into memory:
//! loose objects (zlib-compressed, `"<kind> <size>\0<payload>"`), the typed
//! commit / tree / blob objects parsed from them, version-2 pack index files
//! with their fan-out tables and sorted hash tables, and the variable-length
//! object headers of pack files.  A [`Repo`] resolves branch names to object
//! ids and walks commit trees to a per-path line-count table.

pub mod errors;

pub mod text;

pub mod objects;

pub mod packfiles;

pub mod repo;

pub mod stats;

pub use crate::repo::Repo;

//! The error type shared by every fallible operation of the crate.

use vstd::prelude::*;

verus! {

/// The ways reading an object database can fail.
#[derive(Debug, Clone, Copy, PartialEq, Eq, Structural)]
pub enum GitError {
    /// No object with the requested id exists in the store.
    ObjectNotFound,
    /// The stored bytes are not a valid zlib stream.
    CorruptObject,
    /// The decompressed bytes do not start with `"<kind> <size>\0"`.
    MalformedHeader,
    /// A commit payload is missing one of its mandatory header lines.
    MalformedCommit,
    /// An author or committer line does not follow the author grammar.
    MalformedAuthorLine,
    /// A tree payload cannot be partitioned into whole records.
    MalformedTree,
    /// An object of one kind was handed to the parser of another kind.
    KindMismatch,
    /// A pack index file whose version field is not 2.
    UnsupportedIndexVersion,
    /// No branch ref with the requested name exists.
    BranchNotFound,
    /// A pack entry is delta-encoded and cannot be returned verbatim.
    UnresolvedDelta,
    /// A read failed for a reason other than a missing object.
    IoError,
}

impl GitError {
    /// A short human-readable description of the error.
    pub fn message(&self) -> &'static str {
        match self {
            GitError::ObjectNotFound => "object not found",
            GitError::CorruptObject => "can't decompress data from object",
            GitError::MalformedHeader => "malformed object header",
            GitError::MalformedCommit => "failed to parse commit from object",
            GitError::MalformedAuthorLine => "failed to parse author from string",
            GitError::MalformedTree => "malformed tree record",
            GitError::KindMismatch => "object kind does not match",
            GitError::UnsupportedIndexVersion => "unsupported pack index version",
            GitError::BranchNotFound => "branch not found",
            GitError::UnresolvedDelta => "delta-encoded pack entry left unresolved",
            GitError::IoError => "read failed",
        }
    }
}

} // verus!

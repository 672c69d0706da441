//! Change-capture-and-snapshot pipeline for watched working directories.
//!
//! The library records fine-grained edit operations for the files of a
//! project, aggregates them into sessions, and commits each closed session
//! as a snapshot: a full tree of the project's tracked contents together
//! with the session's delta log, appended to a strictly linear chain.
//! Replaying a session's delta log against its parent snapshot's tree
//! reproduces exactly the contents the session observed; dropping the
//! entries that deletions emptied gives exactly the committed tree.

use vstd::prelude::*;

pub mod debounce;
pub mod delta_log;
pub mod diff;
pub mod engine;
pub mod ops;
pub mod tree;

use crate::engine::ErrorKind;

verus! {

/// Boundary error for the command surface: the engine's closed error
/// kinds flatten into one human-readable message here.
#[derive(Debug)]
pub struct Error {
    pub message: String,
}

impl Error {
    /// The boundary form of an engine error kind.
    pub fn from_kind(kind: &ErrorKind) -> (e: Error)
        ensures
            e.message@.len() > 0,
    {
        let message: String = match kind {
            ErrorKind::ProjectUnreadable => "project path is missing or unreadable".to_owned(),
            ErrorKind::ProjectNotFound => "project not found".to_owned(),
            ErrorKind::TransientIo => "store read or write failed".to_owned(),
            ErrorKind::RefConflict => "snapshot ref moved concurrently".to_owned(),
            ErrorKind::MalformedDeltaLog => "stored delta log is malformed".to_owned(),
            ErrorKind::TimestampsExhausted => "timestamp range exhausted".to_owned(),
        };
        proof {
            reveal_strlit("project path is missing or unreadable");
            reveal_strlit("project not found");
            reveal_strlit("store read or write failed");
            reveal_strlit("snapshot ref moved concurrently");
            reveal_strlit("stored delta log is malformed");
            reveal_strlit("timestamp range exhausted");
        }
        Error { message }
    }
}

impl From<String> for Error {
    fn from(message: String) -> (e: Error) {
        Error { message }
    }
}

impl vstd::std_specs::convert::FromSpecImpl<String> for Error {
    open spec fn obeys_from_spec() -> bool {
        true
    }

    open spec fn from_spec(message: String) -> Error {
        Error { message }
    }
}

} // verus!

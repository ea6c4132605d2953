//! The library's error type.

use vstd::prelude::*;

verus! {

/// What can go wrong. Variants are coarse on purpose: callers match on what stage failed,
/// and the strings carry the detail. Errors raised by outside code (the filesystem, the
/// database, JSON, the walker, the daemon's socket, the embedding model) arrive here as
/// their messages.
#[derive(Debug, Clone, PartialEq, Eq)]
pub enum Error {
    /// A filesystem operation failed on `path`.
    Io {
        /// Path involved in the failed operation.
        path: String,
        /// The operating system's message.
        message: String,
    },
    /// The input could not be parsed.
    Parse {
        /// What was being parsed.
        path: String,
        /// Why it failed.
        reason: String,
    },
    /// A configuration value is invalid.
    Config(String),
    /// A database operation failed.
    Store(String),
    /// JSON (de)serialisation failed.
    Json(String),
    /// A model-produced card did not pass validation.
    Validation {
        /// What was being validated.
        subject: String,
        /// Why it failed.
        reason: String,
    },
    /// The summarization worker could not run or returned something unusable.
    Worker(String),
    /// Walking the watched root failed.
    Walk(String),
    /// A record is missing or inconsistent.
    NotFound(String),
    /// The daemon could not start, watch, or talk to its socket.
    Daemon(String),
    /// The embedding model could not be loaded or run.
    Embed(String),
}

impl Error {
    /// An [`Error::Io`] with the path attached.
    pub fn io(path: String, message: String) -> (e: Error)
        ensures
            e == (Error::Io { path, message }),
    {
        Error::Io { path, message }
    }

    /// An [`Error::Parse`].
    pub fn parse(path: String, reason: String) -> (e: Error)
        ensures
            e == (Error::Parse { path, reason }),
    {
        Error::Parse { path, reason }
    }
}

} // verus!

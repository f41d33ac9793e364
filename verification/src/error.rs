//! The errors of the store.

use vstd::prelude::*;

use crate::text;

verus! {

/// What can go wrong. Failures of the file system, the database file, JSON and
/// glob patterns carry the message of what failed.
#[derive(Debug)]
pub enum MksError {
    Io(String),
    Db(String),
    Serialize(String),
    NotFound(String),
    NodeNotFound(String),
    NoPath(String, String),
    NotInitialized(String),
    Glob(String),
    Other(String),
}

/// A result of the store.
pub type MksResult<T> = Result<T, MksError>;

/// The message of an error.
pub open spec fn message_of(e: MksError) -> Seq<char> {
    match e {
        MksError::Io(m) => "I/O error: "@ + m@,
        MksError::Db(m) => "Database error: "@ + m@,
        MksError::Serialize(m) => "Serialization error: "@ + m@,
        MksError::NotFound(id) => "Document not found: "@ + id@,
        MksError::NodeNotFound(label) => "Graph node not found: '"@ + label@ + "'"@,
        MksError::NoPath(from, to) => "No path between '"@ + from@ + "' and '"@ + to@ + "'"@,
        MksError::NotInitialized(path) => "Store not initialized at "@ + path@
            + " — run `mks init` first"@,
        MksError::Glob(m) => "Glob error: "@ + m@,
        MksError::Other(m) => m@,
    }
}

impl MksError {
    /// The message of the error.
    pub fn message(&self) -> (r: String)
        ensures
            r@ == message_of(*self),
    {
        match self {
            MksError::Io(m) => text::concat("I/O error: ", m.as_str()),
            MksError::Db(m) => text::concat("Database error: ", m.as_str()),
            MksError::Serialize(m) => text::concat("Serialization error: ", m.as_str()),
            MksError::NotFound(id) => text::concat("Document not found: ", id.as_str()),
            MksError::NodeNotFound(label) => {
                let mut r = text::concat("Graph node not found: '", label.as_str());
                r.append("'");
                r
            },
            MksError::NoPath(from, to) => {
                let mut r = text::concat("No path between '", from.as_str());
                r.append("' and '");
                r.append(to.as_str());
                r.append("'");
                r
            },
            MksError::NotInitialized(path) => {
                let mut r = text::concat("Store not initialized at ", path.as_str());
                r.append(" — run `mks init` first");
                r
            },
            MksError::Glob(m) => text::concat("Glob error: ", m.as_str()),
            MksError::Other(m) => m.clone(),
        }
    }
}

} // verus!

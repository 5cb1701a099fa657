//! The closed set of failure kinds.

use vstd::prelude::*;

verus! {

/// Every way an engine or protocol operation can fail.
///
/// Variants that stem from an underlying library carry that library's
/// message as text, so that the kind survives a trip over the wire.
#[derive(Debug)]
pub enum KvError {
    /// A file or socket operation failed.
    Io(String),
    /// A record, payload or frame was malformed.
    Codec(String),
    /// A key to be removed is not in the store.
    KeyNotFound,
    /// A lookup for a `Set` record found another kind of record.
    UnexpectedRecord,
    /// Bytes that should be text are not UTF-8.
    Utf8(String),
    /// The worker pool could not be built.
    PoolBuild(String),
    /// The server answered a request with this error text.
    Remote(String),
    /// Any other failure.
    Other(String),
}

impl KvError {
    /// The text shown to a user for this error.
    pub open spec fn message_text(self) -> Seq<char> {
        match self {
            KvError::KeyNotFound => "Key not found"@,
            KvError::UnexpectedRecord => "Unexpected command type"@,
            KvError::Io(text) => text@,
            KvError::Codec(text) => text@,
            KvError::Utf8(text) => text@,
            KvError::PoolBuild(text) => text@,
            KvError::Remote(text) => text@,
            KvError::Other(text) => text@,
        }
    }

    /// Renders the error as the text that is sent to clients and printed.
    pub fn message(&self) -> (text: String)
        ensures
            text@ == self.message_text(),
    {
        match self {
            KvError::KeyNotFound => "Key not found".to_string(),
            KvError::UnexpectedRecord => "Unexpected command type".to_string(),
            KvError::Io(text) => text.clone(),
            KvError::Codec(text) => text.clone(),
            KvError::Utf8(text) => text.clone(),
            KvError::PoolBuild(text) => text.clone(),
            KvError::Remote(text) => text.clone(),
            KvError::Other(text) => text.clone(),
        }
    }

    /// Whether this is the failure of removing an absent key.
    pub fn is_key_not_found(&self) -> (found: bool)
        ensures
            found == (*self is KeyNotFound),
    {
        match self {
            KvError::KeyNotFound => true,
            _ => false,
        }
    }
}

} // verus!

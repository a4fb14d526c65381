//! Error kinds surfaced by the store and the wire protocol.

use vstd::prelude::*;

verus! {

/// Errors surfaced by the key/value store and its wire protocol.
///
/// Only `KeyNotFound` has user-facing meaning; every other kind reports an
/// operator-visible failure. The engine propagates all errors to the caller
/// and recovers nothing internally.
#[derive(Debug, PartialEq, Eq)]
pub enum KvsError {
    /// `remove` was called on a key that is not present.
    KeyNotFound,
    /// An operating-system I/O failure, with its message.
    Io(String),
    /// A malformed record met on replay, or a malformed wire message.
    Codec(String),
    /// An index entry pointed at bytes that do not decode to the expected `Set` record.
    UnexpectedRecord,
    /// Bytes that should hold a key or a value are not valid UTF-8.
    Utf8,
    /// A worker dropped its result without sending it.
    Channel,
    /// An error message surfaced from the remote side.
    StringError(String),
}

impl KvsError {
    /// The message shown to a user or sent over the wire for this error.
    pub fn message(&self) -> (r: String)
        ensures
            self is KeyNotFound ==> r@ == "Key not found"@,
            self is UnexpectedRecord ==> r@ == "Unexpected command type"@,
    {
        match self {
            KvsError::KeyNotFound => "Key not found".to_owned(),
            KvsError::Io(m) => m.clone(),
            KvsError::Codec(m) => m.clone(),
            KvsError::UnexpectedRecord => "Unexpected command type".to_owned(),
            KvsError::Utf8 => "UTF-8 error".to_owned(),
            KvsError::Channel => "recv error".to_owned(),
            KvsError::StringError(m) => m.clone(),
        }
    }
}

} // verus!

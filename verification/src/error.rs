//! Error kinds surfaced by the store, the wire protocol, and the server.

use vstd::prelude::*;

verus! {

/// The error kinds of the store and its protocol layer.
///
/// `Storage` marks an invariant violation detected at runtime, `IO` a disk
/// or socket failure (raised only by the unverified edges that perform the
/// actual I/O), `KeyNotFound` a remove of an absent key, `ProtocolError` a
/// malformed wire message, and `ServerError` / `Unknown` the catch-alls a
/// client sees for anything else.
#[derive(Clone, Copy, Debug, PartialEq, Eq, Structural)]
pub enum Error {
    Storage,
    IO,
    KeyNotFound,
    ServerError,
    ProtocolError,
    Unknown,
}

impl Error {
    /// A human-readable description, in place of a `Display` impl.
    pub fn message(&self) -> (r: &'static str)
        ensures
            r@ == match self {
                Error::Storage => "Storage error"@,
                Error::IO => "File error"@,
                Error::KeyNotFound => "Key not found"@,
                Error::ServerError => "Server error"@,
                Error::ProtocolError => "Protocol error"@,
                Error::Unknown => "Unknown key-value store error"@,
            },
    {
        match self {
            Error::Storage => "Storage error",
            Error::IO => "File error",
            Error::KeyNotFound => "Key not found",
            Error::ServerError => "Server error",
            Error::ProtocolError => "Protocol error",
            Error::Unknown => "Unknown key-value store error",
        }
    }
}

} // verus!

//! A persistent, log-structured key-value store with a simple network
//! front-end.
//!
//! Keys and values are arbitrary strings.  Every mutation is appended to a
//! log segment as a self-delimiting text record; an in-memory index maps each
//! live key to the location of its most recent `Set` record.  On open, the
//! index is rebuilt by replaying the segments.  The caller (an unverified
//! shell) is responsible only for moving bytes between this library and the
//! file system or a socket.

use vstd::prelude::*;

pub mod codec;
pub mod command;
pub mod engine;
pub mod record;
pub mod server;
pub mod store;
pub mod stream;
pub mod text;

verus! {

/// The error sum for every store operation.
///
/// `Io` and the message-carrying variants exist for callers that wrap file or
/// socket failures; the verified core itself only ever produces `Encoding`
/// (a log record that does not decode) and `KeyNotFound`.
#[derive(Debug)]
pub enum KvsError {
    /// A read, write, seek, open or flush failed.
    Io(String),
    /// A record could not be encoded or decoded.
    Encoding(String),
    /// `remove` was asked for a key that has no value.
    KeyNotFound,
    /// An internal-consistency or protocol violation.
    Protocol(String),
}

impl KvsError {
    /// The human-readable diagnostic for this error.
    pub fn message(&self) -> (r: String)
        ensures
            self is KeyNotFound ==> r@ == "Key not found"@,
            self matches KvsError::Io(m) ==> r@ == m@,
            self matches KvsError::Encoding(m) ==> r@ == m@,
            self matches KvsError::Protocol(m) ==> r@ == m@,
    {
        match self {
            KvsError::KeyNotFound => "Key not found".to_owned(),
            KvsError::Io(m) => m.clone(),
            KvsError::Encoding(m) => m.clone(),
            KvsError::Protocol(m) => m.clone(),
        }
    }
}

} // verus!

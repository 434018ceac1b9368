//! The errors that the store and its protocol report.

use vstd::prelude::*;

verus! {

/// Everything that can go wrong while framing, decoding or storing records.
#[derive(Debug)]
pub enum Error {
    /// The file system or a socket failed; the text says how.
    Io(String),
    /// A record ended early or its header announced an impossible length.
    MalformedRecord,
    /// A key or a value is not valid UTF-8.
    InvalidUtf8,
    /// A record on disk breaks the store's invariants.
    CorruptLog,
    /// `remove` was called on a key that has no value.
    KeyNotFound,
    /// The directory belongs to another engine than the one asked for.
    EngineMismatch,
    /// An engine name that is neither `kvs` nor `sled`.
    UnknownEngine,
    /// The server answered with an error; the text is its message.
    Server(String),
    /// The server answered with a response that does not fit the request.
    UnexpectedResponse,
}

/// The text that describes an error.
pub open spec fn error_text(e: Error) -> Seq<char> {
    match e {
        Error::Io(s) => s@,
        Error::MalformedRecord => "Malformed record"@,
        Error::InvalidUtf8 => "Invalid utf8"@,
        Error::CorruptLog => "Corrupt log"@,
        Error::KeyNotFound => "Key not found"@,
        Error::EngineMismatch => "Directory belongs to another engine"@,
        Error::UnknownEngine => "Unknown engine type"@,
        Error::Server(s) => s@,
        Error::UnexpectedResponse => "Unexpected response"@,
    }
}

impl Error {
    /// The text that describes the error.
    pub fn message(&self) -> (r: String)
        ensures
            r@ == error_text(*self),
    {
        match self {
            Error::Io(s) => s.clone(),
            Error::MalformedRecord => "Malformed record".to_owned(),
            Error::InvalidUtf8 => "Invalid utf8".to_owned(),
            Error::CorruptLog => "Corrupt log".to_owned(),
            Error::KeyNotFound => "Key not found".to_owned(),
            Error::EngineMismatch => "Directory belongs to another engine".to_owned(),
            Error::UnknownEngine => "Unknown engine type".to_owned(),
            Error::Server(s) => s.clone(),
            Error::UnexpectedResponse => "Unexpected response".to_owned(),
        }
    }
}

} // verus!

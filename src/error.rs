//! Errors of the store.
use vstd::prelude::*;

verus! {

/// Every error that an operation of the store can report.
#[derive(Debug)]
pub enum KvError {
    /// A JSON encode or decode failure, with its message.
    Serde(String),
    /// A file or socket failure, with its message.
    Io(String),
    /// `remove` of a key that is not bound.
    KeyNotFound,
    /// Corruption or an impossible state.
    InternalError,
    /// The index refers to a generation that cannot be opened.
    MissingLogFile,
    /// A request from a client could not be decoded.
    MalformedRequest,
}

/// The text that describes an error of a given kind.
pub open spec fn description_of(e: KvError) -> Seq<char> {
    match e {
        KvError::Serde(m) => m@,
        KvError::Io(m) => m@,
        KvError::KeyNotFound => "Key not found"@,
        KvError::InternalError => "Internal error"@,
        KvError::MissingLogFile => "Missing log file"@,
        KvError::MalformedRequest => "MalformedRequest"@,
    }
}

impl KvError {
    /// A short human-readable description of the error.
    pub fn description(&self) -> (r: String)
        ensures
            r@ == description_of(*self),
    {
        match self {
            KvError::Serde(m) => m.clone(),
            KvError::Io(m) => m.clone(),
            KvError::KeyNotFound => String::from_str("Key not found"),
            KvError::InternalError => String::from_str("Internal error"),
            KvError::MissingLogFile => String::from_str("Missing log file"),
            KvError::MalformedRequest => String::from_str("MalformedRequest"),
        }
    }

    /// Whether this is the error of a missing key.
    pub fn is_key_not_found(&self) -> (r: bool)
        ensures
            r == (*self is KeyNotFound),
    {
        match self {
            KvError::KeyNotFound => true,
            _ => false,
        }
    }
}

} // verus!

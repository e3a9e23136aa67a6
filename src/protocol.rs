//! The messages that travel between a client and the server.
use vstd::prelude::*;
use crate::error::{KvError, description_of};

verus! {

/// A command sent from a client to the server.
#[derive(Debug)]
pub enum KvRequest {
    /// Read the value of a key.
    Get(String),
    /// Bind a key (first) to a value (second).
    Put(String, String),
    /// Remove the binding of a key.
    Rm(String),
}

/// The server's answer to one request.
#[derive(Debug)]
pub enum KvResponse {
    /// The request succeeded; a `Get` hit carries the value.
    Success(Option<String>),
    /// The request failed, with a human-readable message.
    Error(String),
}

impl KvResponse {
    /// The response as values: `Ok` for success, `Err` with the message for an error.
    pub open spec fn outcome(&self) -> Result<Option<Seq<char>>, Seq<char>> {
        match self {
            KvResponse::Success(Some(v)) => Ok(Some(v@)),
            KvResponse::Success(None) => Ok(None),
            KvResponse::Error(m) => Err(m@),
        }
    }
}

/// The answer to a `Get`: the value found, a miss as `Success(None)`, or the
/// description of the engine's error.
pub fn get_response(r: Result<Option<String>, KvError>) -> (resp: KvResponse)
    ensures
        resp.outcome() == match r {
            Ok(Some(v)) => Ok(Some(v@)),
            Ok(None) => Ok(None),
            Err(e) => Err(description_of(e)),
        },
{
    match r {
        Ok(v) => KvResponse::Success(v),
        Err(e) => KvResponse::Error(e.description()),
    }
}

/// The answer to a `Set` or an `Rm`: `Success(None)`, or the description of
/// the engine's error.
pub fn mutation_response(r: Result<(), KvError>) -> (resp: KvResponse)
    ensures
        resp.outcome() == match r {
            Ok(()) => Ok(None::<Seq<char>>),
            Err(e) => Err(description_of(e)),
        },
{
    match r {
        Ok(()) => KvResponse::Success(None),
        Err(e) => KvResponse::Error(e.description()),
    }
}

/// The answer when no request could be read from the connection: the
/// description of the decoding error, or a fixed message where the stream
/// ended before any request.
pub fn unreadable_response(e: Option<KvError>) -> (resp: KvResponse)
    ensures
        resp.outcome() == match e {
            Some(e) => Err(description_of(e)),
            None => Err::<Option<Seq<char>>, Seq<char>>("Unable to parse request"@),
        },
{
    proof {
        reveal_strlit("Unable to parse request");
    }
    match e {
        Some(e) => KvResponse::Error(e.description()),
        None => KvResponse::Error(String::from_str("Unable to parse request")),
    }
}

} // verus!

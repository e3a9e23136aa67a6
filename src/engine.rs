//! The capability that the server depends on: an engine with `get`, `set` and
//! `remove`, shared between workers by cloning.
use vstd::prelude::*;
use crate::error::KvError;
use vstd::utf8::{valid_utf8, decode_utf8};

verus! {

/// An engine the server can run on.
pub trait KvsEngine: Clone + Send + 'static {
    /// The current value of `key`, or `None` where it is unbound.
    fn get(&self, key: String) -> Result<Option<String>, KvError>;

    /// Binds `key` to `value`, replacing any earlier binding.
    fn set(&self, key: String, value: String) -> Result<(), KvError>;

    /// Removes the binding of `key`; `KeyNotFound` where it has none.
    fn remove(&self, key: String) -> Result<(), KvError>;
}

/// Relies on `String::from_utf8`: succeeds exactly on valid UTF-8, and the
/// string then holds the characters that the bytes encode.
#[verifier::external_body]
fn utf8_string(bytes: Vec<u8>) -> (r: Option<String>)
    ensures
        r is Some <==> valid_utf8(bytes@),
        r is Some ==> r->Some_0@ == decode_utf8(bytes@),
{
    String::from_utf8(bytes).ok()
}

/// The value that the embedded engine reports for stored bytes: the text they
/// encode, or none where they are absent or not UTF-8.
pub fn embedded_value(stored: Option<Vec<u8>>) -> (r: Option<String>)
    ensures
        r is Some <==> (stored is Some && valid_utf8(stored->Some_0@)),
        r is Some ==> r->Some_0@ == decode_utf8(stored->Some_0@),
{
    match stored {
        Some(bytes) => utf8_string(bytes),
        None => None,
    }
}

/// The result of a removal in the embedded engine: `KeyNotFound` where no
/// value was removed.
pub fn embedded_removal(removed: bool) -> (r: Result<(), KvError>)
    ensures
        removed <==> r is Ok,
        r is Err ==> r->Err_0 is KeyNotFound,
{
    if removed {
        Ok(())
    } else {
        Err(KvError::KeyNotFound)
    }
}

} // verus!

//! The messages of the wire protocol.

use vstd::prelude::*;
use vstd::utf8::{encode_utf8, valid_utf8};

verus! {

/// What a client asks of the server.
#[derive(Debug, PartialEq, Eq)]
pub enum Request {
    /// Get the value of a key.
    Get(GetRequest),
    /// Set the value of a key.
    Put(SetRequest),
    /// Remove a key.
    Remove(RemoveRequest),
}

/// The request to set a key to a value; both are UTF-8 text.
#[derive(Debug, PartialEq, Eq)]
pub struct SetRequest {
    pub key: Vec<u8>,
    pub value: Vec<u8>,
}

/// The request to get the value of a key.
#[derive(Debug, PartialEq, Eq)]
pub struct GetRequest {
    pub key: Vec<u8>,
}

/// The request to remove a key.
#[derive(Debug, PartialEq, Eq)]
pub struct RemoveRequest {
    pub key: Vec<u8>,
}

/// What the server answers.
#[derive(Debug, PartialEq, Eq)]
pub enum Response {
    /// The request was carried out; the bytes are its result.
    Success(Vec<u8>),
    /// The request failed; the text says why.
    Error(String),
}

/// A response by what it holds.
pub enum ResponseView {
    /// The result of a request that was carried out.
    Success(Seq<u8>),
    /// The reason for which a request failed.
    Error(Seq<char>),
}

impl View for Response {
    type V = ResponseView;

    open spec fn view(&self) -> ResponseView {
        match *self {
            Response::Success(bytes) => ResponseView::Success(bytes@),
            Response::Error(text) => ResponseView::Error(text@),
        }
    }
}

/// Calls `String::from_utf8`.  Trusted: it succeeds on valid UTF-8 and only
/// there, and the string that it gives has the given bytes as its encoding.
#[verifier::external_body]
pub(crate) fn text_of(bytes: Vec<u8>) -> (out: Option<String>)
    ensures
        match out {
            Some(text) => valid_utf8(bytes@) && encode_utf8(text@) == bytes@,
            None => !valid_utf8(bytes@),
        },
{
    String::from_utf8(bytes).ok()
}

} // verus!

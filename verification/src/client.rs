//! The client's side of the protocol: the requests that it sends and what it
//! makes of the responses.

use crate::common::{
    text_of, GetRequest, RemoveRequest, Request, Response, ResponseView, SetRequest,
};
use crate::error::KvsError;
use vstd::prelude::*;
use vstd::string::StrSliceExecFns;
use vstd::utf8::{decode_utf8, encode_utf8, valid_utf8};

verus! {

/// The byte that ends a request on the wire.
pub const REQUEST_END: u8 = 10;

/// The request for the value of `key`.
pub fn get_request(key: &str) -> (request: Request)
    ensures
        request matches Request::Get(GetRequest { key: bytes }) && bytes@ == encode_utf8(key@),
{
    Request::Get(GetRequest { key: key.as_bytes_vec() })
}

/// The request to set `key` to `value`.
pub fn set_request(key: &str, value: &str) -> (request: Request)
    ensures
        request matches Request::Put(SetRequest { key: k, value: v }) && k@ == encode_utf8(key@)
            && v@ == encode_utf8(value@),
{
    Request::Put(SetRequest { key: key.as_bytes_vec(), value: value.as_bytes_vec() })
}

/// The request to remove `key`.
pub fn remove_request(key: &str) -> (request: Request)
    ensures
        request matches Request::Remove(RemoveRequest { key: bytes }) && bytes@ == encode_utf8(
            key@,
        ),
{
    Request::Remove(RemoveRequest { key: key.as_bytes_vec() })
}

/// Puts the end mark behind a serialised request.
pub fn frame_request(body: Vec<u8>) -> (framed: Vec<u8>)
    ensures
        framed@ == body@.push(REQUEST_END),
{
    let mut framed = body;
    framed.push(REQUEST_END);
    framed
}

/// What a `get` gives for a response: the text that the server sent on
/// success, the server's error otherwise.  Bytes that are not UTF-8 are a
/// malformed message.
pub fn get_result(response: Response) -> (out: Result<Option<String>, KvsError>)
    ensures
        match response@ {
            ResponseView::Success(bytes) => if valid_utf8(bytes) {
                out matches Ok(Some(text)) && text@ == decode_utf8(bytes)
            } else {
                out matches Err(e) && e is Codec
            },
            ResponseView::Error(reason) => out matches Err(KvsError::Remote(text)) && text@
                == reason,
        },
{
    broadcast use vstd::utf8::encode_utf8_decode_utf8;

    match response {
        Response::Success(bytes) => match text_of(bytes) {
            Some(text) => Ok(Some(text)),
            None => Err(KvsError::Codec),
        },
        Response::Error(reason) => Err(KvsError::Remote(reason)),
    }
}

/// What a `set` gives for a response: nothing on success, the server's error
/// otherwise.
pub fn set_result(response: Response) -> (out: Result<(), KvsError>)
    ensures
        match response@ {
            ResponseView::Success(_) => out is Ok,
            ResponseView::Error(reason) => out matches Err(KvsError::Remote(text)) && text@
                == reason,
        },
{
    match response {
        Response::Success(_) => Ok(()),
        Response::Error(reason) => Err(KvsError::Remote(reason)),
    }
}

/// What a `remove` gives for a response: nothing on success, the server's
/// error otherwise.  A success whose bytes are not UTF-8 is a malformed
/// message.
pub fn remove_result(response: Response) -> (out: Result<(), KvsError>)
    ensures
        match response@ {
            ResponseView::Success(bytes) => if valid_utf8(bytes) {
                out is Ok
            } else {
                out matches Err(e) && e is Codec
            },
            ResponseView::Error(reason) => out matches Err(KvsError::Remote(text)) && text@
                == reason,
        },
{
    match response {
        Response::Success(bytes) => match text_of(bytes) {
            Some(_) => Ok(()),
            None => Err(KvsError::Codec),
        },
        Response::Error(reason) => Err(KvsError::Remote(reason)),
    }
}

} // verus!

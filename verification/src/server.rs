//! The server's side of the protocol: from a request and an engine to a
//! response.

use crate::common::{
    text_of, GetRequest, RemoveRequest, Request, Response, ResponseView, SetRequest,
};
use crate::engine::KvsEngine;
use crate::error::{message_text, KvsError};
use vstd::prelude::*;
use vstd::string::StrSliceExecFns;
use vstd::string::StringExecFns;
use vstd::utf8::{decode_utf8, encode_utf8, valid_utf8};

verus! {

/// The response to a `get` that the engine has answered: the value on a hit,
/// the words `Key not found` on a miss, the text of the error on a failure.
pub open spec fn get_response_view(result: Result<Option<String>, KvsError>) -> ResponseView {
    match result {
        Ok(Some(value)) => ResponseView::Success(encode_utf8(value@)),
        Ok(None) => ResponseView::Success(encode_utf8("Key not found"@)),
        Err(e) => ResponseView::Error(message_text(e)),
    }
}

/// The response to a `set` that the engine has answered.
pub open spec fn set_response_view(result: Result<(), KvsError>) -> ResponseView {
    match result {
        Ok(()) => ResponseView::Success(encode_utf8("SET operation successful"@)),
        Err(e) => ResponseView::Error(message_text(e)),
    }
}

/// The response to a `remove` that the engine has answered.
pub open spec fn remove_response_view(result: Result<(), KvsError>) -> ResponseView {
    match result {
        Ok(()) => ResponseView::Success(encode_utf8("REMOVE operation successful"@)),
        Err(e) => ResponseView::Error(message_text(e)),
    }
}

/// The response to a request that could not be read; `reason` says why.
pub open spec fn invalid_request_view(reason: Seq<char>) -> ResponseView {
    ResponseView::Error("Invalid request: "@ + reason)
}

/// Makes the response to a `get` from the answer of the engine.
pub fn get_response(result: Result<Option<String>, KvsError>) -> (response: Response)
    ensures
        response@ == get_response_view(result),
{
    match result {
        Ok(Some(value)) => Response::Success(value.as_str().as_bytes_vec()),
        Ok(None) => Response::Success("Key not found".as_bytes_vec()),
        Err(e) => Response::Error(e.message()),
    }
}

/// Makes the response to a `set` from the answer of the engine.
pub fn set_response(result: Result<(), KvsError>) -> (response: Response)
    ensures
        response@ == set_response_view(result),
{
    match result {
        Ok(()) => Response::Success("SET operation successful".as_bytes_vec()),
        Err(e) => Response::Error(e.message()),
    }
}

/// Makes the response to a `remove` from the answer of the engine.
pub fn remove_response(result: Result<(), KvsError>) -> (response: Response)
    ensures
        response@ == remove_response_view(result),
{
    match result {
        Ok(()) => Response::Success("REMOVE operation successful".as_bytes_vec()),
        Err(e) => Response::Error(e.message()),
    }
}

/// Makes the response to a request that could not be read.
pub fn invalid_request(reason: &str) -> (response: Response)
    ensures
        response@ == invalid_request_view(reason@),
{
    Response::Error(String::from_str("Invalid request: ").concat(reason))
}

/// Whether the keys and values of a request are UTF-8 text.
pub open spec fn request_is_text(request: Request) -> bool {
    match request {
        Request::Get(GetRequest { key }) => valid_utf8(key@),
        Request::Put(SetRequest { key, value }) => valid_utf8(key@) && valid_utf8(value@),
        Request::Remove(RemoveRequest { key }) => valid_utf8(key@),
    }
}

/// A request whose key and value have been read as text.
#[derive(Debug, PartialEq, Eq)]
pub enum Command {
    /// Get the value of the key.
    Get(String),
    /// Set the key to the value.
    Put(String, String),
    /// Remove the key.
    Remove(String),
}

/// Whether `command` is `request` with its bytes read as UTF-8 text.
pub open spec fn is_command_of(command: Command, request: Request) -> bool {
    match (request, command) {
        (Request::Get(GetRequest { key }), Command::Get(k)) => k@ == decode_utf8(key@),
        (Request::Put(SetRequest { key, value }), Command::Put(k, v)) => k@ == decode_utf8(key@)
            && v@ == decode_utf8(value@),
        (Request::Remove(RemoveRequest { key }), Command::Remove(k)) => k@ == decode_utf8(key@),
        _ => false,
    }
}

/// Reads the key and the value of a request as UTF-8 text.
pub fn parse_request(request: Request) -> (out: Result<Command, KvsError>)
    ensures
        match out {
            Ok(command) => request_is_text(request) && is_command_of(command, request),
            Err(e) => e is Codec && !request_is_text(request),
        },
{
    broadcast use vstd::utf8::encode_utf8_decode_utf8;

    match request {
        Request::Get(GetRequest { key }) => match text_of(key) {
            Some(key) => Ok(Command::Get(key)),
            None => Err(KvsError::Codec),
        },
        Request::Put(SetRequest { key, value }) => match (text_of(key), text_of(value)) {
            (Some(key), Some(value)) => Ok(Command::Put(key, value)),
            _ => Err(KvsError::Codec),
        },
        Request::Remove(RemoveRequest { key }) => match text_of(key) {
            Some(key) => Ok(Command::Remove(key)),
            None => Err(KvsError::Codec),
        },
    }
}

/// Carries a request out on the engine and makes the response.  A request
/// whose key or value is not UTF-8 text is answered with an error and leaves
/// the engine as it is.
pub fn handle_request<E: KvsEngine>(engine: &mut E, request: Request) -> (response: Response)
    requires
        old(engine).valid(),
    ensures
        final(engine).valid(),
        !request_is_text(request) ==> response@ == ResponseView::Error(message_text(KvsError::Codec))
            && final(engine).contents() == old(engine).contents(),
        request_is_text(request) ==> match request {
            Request::Get(GetRequest { key }) => {
                let key = decode_utf8(key@);
                &&& final(engine).contents() == old(engine).contents()
                &&& response@ is Success ==> response@ == if old(engine).contents().contains_key(key) {
                    ResponseView::Success(encode_utf8(old(engine).contents()[key]))
                } else {
                    ResponseView::Success(encode_utf8("Key not found"@))
                }
            },
            Request::Put(SetRequest { key, value }) => {
                let key = decode_utf8(key@);
                let value = decode_utf8(value@);
                if response@ is Success {
                    &&& response@ == ResponseView::Success(encode_utf8("SET operation successful"@))
                    &&& final(engine).contents() == old(engine).contents().insert(key, value)
                } else {
                    final(engine).contents() == old(engine).contents()
                }
            },
            Request::Remove(RemoveRequest { key }) => {
                let key = decode_utf8(key@);
                if response@ is Success {
                    &&& response@ == ResponseView::Success(
                        encode_utf8("REMOVE operation successful"@),
                    )
                    &&& old(engine).contents().contains_key(key)
                    &&& final(engine).contents() == old(engine).contents().remove(key)
                } else {
                    &&& final(engine).contents() == old(engine).contents()
                    &&& !old(engine).contents().contains_key(key) ==> response@
                        == ResponseView::Error("Key not found"@)
                }
            },
        },
{
    match parse_request(request) {
        Ok(Command::Get(key)) => get_response(engine.get(key)),
        Ok(Command::Put(key, value)) => set_response(engine.set(key, value)),
        Ok(Command::Remove(key)) => remove_response(engine.remove(key)),
        Err(e) => Response::Error(e.message()),
    }
}

} // verus!

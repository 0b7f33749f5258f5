//! What a server answers to a request, given what the engine said.

use crate::engine::KvsEngine;
use crate::error::ErrorMessage;
use vstd::prelude::*;

verus! {

/// One request of a client.
#[derive(Debug, PartialEq, Eq)]
pub enum Request {
    Get { key: String },
    Put { key: String, value: String },
    Remove { key: String },
}

/// The one response to a request.
#[derive(Debug, PartialEq, Eq)]
pub enum Response {
    /// The operation went through: the value for a `Get` that found one,
    /// nothing otherwise.
    Success(Option<String>),
    /// The operation failed; the message says why.
    Failed(String),
}

/// The response to a `Get`: the value or its absence on success, the
/// engine's message on failure.
pub fn get_response(result: Result<Option<String>, String>) -> (response: Response)
    ensures
        response == match result {
            Ok(value) => Response::Success(value),
            Err(message) => Response::Failed(message),
        },
{
    match result {
        Ok(value) => Response::Success(value),
        Err(message) => Response::Failed(message),
    }
}

/// The response to a `Put` or a `Remove`: success without a value, or the
/// engine's message on failure.
pub fn update_response(result: Result<(), String>) -> (response: Response)
    ensures
        response == match result {
            Ok(_) => Response::Success(None),
            Err(message) => Response::Failed(message),
        },
{
    match result {
        Ok(_) => Response::Success(None),
        Err(message) => Response::Failed(message),
    }
}

/// Applies one request to the engine and gives the response. Every error of
/// the engine becomes a `Failed` response with the error's message; none is
/// passed on.
///
/// Of an engine that tells what it holds, a `Success` says that the engine
/// did what was asked. For a `Get` it carries the value that the engine holds
/// for the key, or nothing where it holds none, and the engine holds what it
/// held. For a `Put` and a `Remove` it carries nothing, and the engine holds
/// what it held with the key set to the value, or without the key.
pub fn handle_request<E: KvsEngine>(engine: &mut E, request: Request) -> (response: Response)
    ensures
        final(engine).tells_contents() == old(engine).tells_contents(),
        !(request is Get) ==> response is Failed || response == Response::Success(None),
        old(engine).tells_contents() ==> match request {
            Request::Get { key } => response matches Response::Success(found) ==> {
                &&& final(engine).contents() == old(engine).contents()
                &&& match found {
                    Some(value) => old(engine).contents().contains_key(key@) && old(
                        engine,
                    ).contents()[key@] == value@,
                    None => !old(engine).contents().contains_key(key@),
                }
            },
            Request::Put { key, value } => response is Success ==> final(engine).contents()
                == old(engine).contents().insert(key@, value@),
            Request::Remove { key } => response is Success ==> final(engine).contents() == old(
                engine,
            ).contents().remove(key@),
        },
{
    match request {
        Request::Get { key } => match engine.get(key) {
            Ok(value) => get_response(Ok(value)),
            Err(e) => get_response(Err(e.message())),
        },
        Request::Put { key, value } => match engine.set(key, value) {
            Ok(_) => update_response(Ok(())),
            Err(e) => update_response(Err(e.message())),
        },
        Request::Remove { key } => match engine.remove(key) {
            Ok(_) => update_response(Ok(())),
            Err(e) => update_response(Err(e.message())),
        },
    }
}

} // verus!

//! The client's reading of a server response: the logic that turns each
//! reply into the call's result, shared by the client's get, set and
//! delete requests.

use vstd::prelude::*;

use crate::error::Error;
use crate::messages::{ErrorCode, Response, ResponseModel};

verus! {

/// What a get request comes back with: the value, `KeyNotFound` when the
/// server answered not-found, and a server error for anything else.
pub fn interpret_get_response(resp: &Response) -> (r: Result<String, Error>)
    ensures
        match resp@ {
            ResponseModel::GetValue(v) => r matches Ok(s) && s@ == v,
            ResponseModel::Failure(c) => r matches Err(e) && e == (if c == ErrorCode::NotFound {
                Error::KeyNotFound
            } else {
                Error::ServerError
            }),
            ResponseModel::Success => r == Err::<String, Error>(Error::ServerError),
        },
{
    match resp {
        Response::GetValue { value } => Ok(value.clone()),
        Response::Failure { code } => match code {
            ErrorCode::NotFound => Err(Error::KeyNotFound),
            ErrorCode::Unknown => Err(Error::ServerError),
        },
        Response::Success => Err(Error::ServerError),
    }
}

/// What a set request comes back with: only a bare success counts.
pub fn interpret_set_response(resp: &Response) -> (r: Result<(), Error>)
    ensures
        match resp@ {
            ResponseModel::Success => r == Ok::<(), Error>(()),
            _ => r == Err::<(), Error>(Error::ServerError),
        },
{
    match resp {
        Response::Success => Ok(()),
        _ => Err(Error::ServerError),
    }
}

/// What a delete request comes back with: success, `KeyNotFound` when the
/// server answered not-found, and a server error for anything else.
pub fn interpret_delete_response(resp: &Response) -> (r: Result<(), Error>)
    ensures
        match resp@ {
            ResponseModel::Success => r == Ok::<(), Error>(()),
            ResponseModel::Failure(c) => r matches Err(e) && e == (if c == ErrorCode::NotFound {
                Error::KeyNotFound
            } else {
                Error::ServerError
            }),
            ResponseModel::GetValue(v) => r == Err::<(), Error>(Error::ServerError),
        },
{
    match resp {
        Response::Success => Ok(()),
        Response::Failure { code } => match code {
            ErrorCode::NotFound => Err(Error::KeyNotFound),
            ErrorCode::Unknown => Err(Error::ServerError),
        },
        Response::GetValue { value: _ } => Err(Error::ServerError),
    }
}

} // verus!

//! The client's reading of server responses.
//!
//! A client sends one framed request and reads one framed response; the
//! socket work lives with the caller. These functions are the client's
//! decisions: which responses answer which operation, and how a remote
//! failure surfaces.

use vstd::prelude::*;

use crate::common::Response;
use crate::error::KvsError;

verus! {

/// Reads the response to a `Get`: the key's value if the server reported
/// one, the remote message as an error if it failed, and an error on any
/// response that does not answer a `Get`.
pub fn read_get_response(resp: Response) -> (r: Result<Option<String>, KvsError>)
    ensures
        match resp {
            Response::Get(v) => r == Result::<Option<String>, KvsError>::Ok(v),
            Response::Failure(m) => r == Result::<Option<String>, KvsError>::Err(
                KvsError::StringError(m),
            ),
            _ => r is Err,
        },
{
    match resp {
        Response::Get(value) => Ok(value),
        Response::Failure(msg) => Err(KvsError::StringError(msg)),
        _ => Err(KvsError::StringError("Invalid response".to_owned())),
    }
}

/// Reads the response to a `Put`.
pub fn read_set_response(resp: Response) -> (r: Result<(), KvsError>)
    ensures
        match resp {
            Response::Put => r is Ok,
            Response::Failure(m) => r == Result::<(), KvsError>::Err(KvsError::StringError(m)),
            _ => r is Err,
        },
{
    match resp {
        Response::Put => Ok(()),
        Response::Failure(msg) => Err(KvsError::StringError(msg)),
        _ => Err(KvsError::StringError("Invalid response".to_owned())),
    }
}

/// Reads the response to a `Remove`.
pub fn read_remove_response(resp: Response) -> (r: Result<(), KvsError>)
    ensures
        match resp {
            Response::Remove => r is Ok,
            Response::Failure(m) => r == Result::<(), KvsError>::Err(KvsError::StringError(m)),
            _ => r is Err,
        },
{
    match resp {
        Response::Remove => Ok(()),
        Response::Failure(msg) => Err(KvsError::StringError(msg)),
        _ => Err(KvsError::StringError("Invalid response".to_owned())),
    }
}

} // verus!

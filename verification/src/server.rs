//! The server of a key value store.
//!
//! The server holds a storage engine and answers one decoded request with
//! one response; reading and writing framed bytes on a socket lives with the
//! caller, which hands plain `Request` values in and sends the `Response`
//! back.

use vstd::prelude::*;

use crate::common::{Request, Response};
use crate::engine::KvsEngine;
use crate::error::KvsError;

verus! {

/// The response the server writes back for the outcome of a `Get`: the
/// value on success, the error's message on failure.
pub fn response_for_get(r: Result<Option<String>, KvsError>) -> (resp: Response)
    ensures
        match r {
            Ok(v) => resp == Response::Get(v),
            Err(e) => resp is Failure && (e is KeyNotFound ==> resp->Failure_0@
                == "Key not found"@),
        },
{
    match r {
        Ok(value) => Response::Get(value),
        Err(e) => Response::Failure(e.message()),
    }
}

/// The response the server writes back for the outcome of a `Put`.
pub fn response_for_set(r: Result<(), KvsError>) -> (resp: Response)
    ensures
        match r {
            Ok(_) => resp == Response::Put,
            Err(e) => resp is Failure && (e is KeyNotFound ==> resp->Failure_0@
                == "Key not found"@),
        },
{
    match r {
        Ok(_) => Response::Put,
        Err(e) => Response::Failure(e.message()),
    }
}

/// The response the server writes back for the outcome of a `Remove`.
pub fn response_for_remove(r: Result<(), KvsError>) -> (resp: Response)
    ensures
        match r {
            Ok(_) => resp == Response::Remove,
            Err(e) => resp is Failure && (e is KeyNotFound ==> resp->Failure_0@
                == "Key not found"@),
        },
{
    match r {
        Ok(_) => Response::Remove,
        Err(e) => Response::Failure(e.message()),
    }
}

/// The default listening address of `KvsServer`.
pub const DEFAULT_LISTENING_ADDRESS: &'static str = "127.0.0.1:4000";

/// The shape of a listening address.
pub const ADDRESS_FORMAT: &'static str = "IP:PORT";

/// The server of a key value store.
pub struct KvsServer<E: KvsEngine> {
    engine: E,
}

impl<E: KvsEngine> KvsServer<E> {
    /// The engine's invariant, carried by the server.
    pub closed spec fn inv(&self) -> bool {
        self.engine.inv()
    }

    /// The string map the engine holds.
    pub closed spec fn model(&self) -> Map<Seq<char>, Seq<char>> {
        self.engine.model()
    }

    /// Create a `KvsServer` with a given storage engine.
    pub fn new(engine: E) -> (r: Self)
        ensures
            engine.inv() ==> r.inv(),
            r.model() == engine.model(),
    {
        KvsServer { engine }
    }

    /// The engine the server holds.
    pub fn engine(&self) -> (r: &E)
        ensures
            r.inv() == self.inv(),
            r.model() == self.model(),
    {
        &self.engine
    }

    /// Applies one decoded request to the engine and forms the response the
    /// caller writes back: a `Get` leaves the map untouched and reports the
    /// key's value; a successful `Put` or `Remove` moves the map exactly one
    /// step; an engine failure becomes a `Failure` response carrying its
    /// message, with the map unchanged.
    pub fn handle(&mut self, req: Request) -> (resp: Response)
        requires
            old(self).inv(),
        ensures
            final(self).inv(),
            match req {
                Request::Get { key } => final(self).model() == old(self).model() && (match resp {
                    Response::Get(opt) => match opt {
                        Some(v) => old(self).model().contains_key(key@) && v@ == old(
                            self,
                        ).model()[key@],
                        None => !old(self).model().contains_key(key@),
                    },
                    Response::Failure(_) => true,
                    _ => false,
                }),
                Request::Put { key, value } => (match resp {
                    Response::Put => final(self).model() == old(self).model().insert(key@, value@),
                    Response::Failure(_) => final(self).model() == old(self).model(),
                    _ => false,
                }),
                Request::Remove { key } => (match resp {
                    Response::Remove => old(self).model().contains_key(key@) && final(self).model()
                        == old(self).model().remove(key@),
                    Response::Failure(_) => final(self).model() == old(self).model(),
                    _ => false,
                }),
            },
    {
        match req {
            Request::Get { key } => response_for_get(self.engine.get(key)),
            Request::Put { key, value } => response_for_set(self.engine.set(key, value)),
            Request::Remove { key } => response_for_remove(self.engine.remove(key)),
        }
    }
}

} // verus!

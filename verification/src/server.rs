//! The server's request dispatch.
//!
//! The network front end frames requests off each connection and hands
//! them here one at a time; `handle_request` runs the operation against
//! the engine and renders the outcome as the response to send back.

use vstd::prelude::*;
use crate::engines::KvsEngine;
use crate::errors::KvsError;
use crate::protocol::{Request, Response};

verus! {

/// The server of the key value store: dispatches requests to its engine.
pub struct KvsServer<E: KvsEngine> {
    engine: E,
}

impl<E: KvsEngine> KvsServer<E> {
    /// The key/value mapping the server's engine represents.
    pub closed spec fn kv(&self) -> Map<Seq<char>, Seq<char>> {
        self.engine.kv_view()
    }

    /// The server is usable while its engine's invariant holds.
    pub closed spec fn inv(&self) -> bool {
        self.engine.engine_inv()
    }

    /// Creates a `KvsServer` with a given storage engine.
    pub fn new(engine: E) -> (s: Self)
        ensures
            s.inv() <==> engine.engine_inv(),
            s.kv() == engine.kv_view(),
    {
        KvsServer { engine }
    }

    /// Runs one request against the engine and renders the outcome: the
    /// matching success response, or `Err` with the failure's message.
    /// The engine the server dispatches to.
    pub fn engine(&self) -> (e: &E)
        ensures
            e.kv_view() == self.kv(),
            e.engine_inv() == self.inv(),
    {
        &self.engine
    }

    /// Runs one request against the engine and renders the outcome.
    pub fn handle_request(&mut self, req: Request) -> (resp: Response)
        requires
            old(self).inv(),
        ensures
            final(self).inv(),
            match req {
                Request::Get { key } => {
                    &&& final(self).kv() == old(self).kv()
                    &&& (resp matches Response::Get(v) ==> (match v {
                        Some(val) => old(self).kv().dom().contains(key@) && old(self).kv()[key@]
                            == val@,
                        None => !old(self).kv().dom().contains(key@),
                    }))
                    &&& (resp is Get || resp is Failure)
                },
                Request::Put { key, value } => {
                    &&& (resp is Put ==> final(self).kv() == old(self).kv().insert(key@, value@))
                    &&& (resp is Failure ==> final(self).kv() == old(self).kv())
                    &&& (resp is Put || resp is Failure)
                },
                Request::Remove { key } => {
                    &&& (resp is Remove ==> old(self).kv().dom().contains(key@) && final(self).kv() == old(self).kv().remove(key@))
                    &&& (resp is Failure ==> final(self).kv() == old(self).kv())
                    &&& (resp is Remove || resp is Failure)
                },
            },
    {
        match req {
            Request::Get { key } => match self.engine.get(key) {
                Ok(value) => Response::Get(value),
                Err(e) => Response::Failure(e.message()),
            },
            Request::Put { key, value } => match self.engine.set(key, value) {
                Ok(()) => Response::Put,
                Err(e) => Response::Failure(e.message()),
            },
            Request::Remove { key } => match self.engine.remove(key) {
                Ok(()) => Response::Remove,
                Err(e) => Response::Failure(e.message()),
            },
        }
    }
}

} // verus!

//! The key/value server's decision core.
//!
//! Listening, framing and sending are the transport's business and stay
//! with the caller that owns the sockets; what each decoded request does to
//! the engine, and which reply it earns, is decided here.

use vstd::prelude::*;
use crate::common::{GetResponse, RemoveResponse, Request, Response, SetResponse};
use crate::engines::KvsEngine;
use crate::error::KvsError;
use crate::thread_pool::ThreadPool;

verus! {

/// A key/value server: an engine and the pool its connections run on.
pub struct KvsServer<E: KvsEngine, P: ThreadPool> {
    /// The storage engine serving the requests.
    pub engine: E,
    /// The pool that connection handlers run on.
    pub pool: P,
}

impl<E: KvsEngine, P: ThreadPool> KvsServer<E, P> {
    /// Creates a server from a given engine and pool.
    pub fn new(engine: E, pool: P) -> (r: KvsServer<E, P>)
        ensures
            r.engine == engine,
            r.pool == pool,
    {
        KvsServer { engine, pool }
    }

    /// Serves one decoded request: applies it to the engine and renders the
    /// reply, classifying any engine failure as an error message.
    pub fn process_request(&mut self, req: Request) -> (r: Response)
        requires
            old(self).engine.inv(),
        ensures
            final(self).engine.inv(),
            (match req {
                Request::Get { key } => {
                    &&& final(self).engine.kv() == old(self).engine.kv()
                    &&& match r {
                        Response::Get(GetResponse::Value(v)) => match v {
                            Some(value) => old(self).engine.kv().dom().contains(key@) && old(
                                self,
                            ).engine.kv()[key@] == value@,
                            None => !old(self).engine.kv().dom().contains(key@),
                        },
                        Response::Get(GetResponse::Error(_)) => true,
                        _ => false,
                    }
                },
                Request::Put { key, value } => match r {
                    Response::Put(SetResponse::Done) => final(self).engine.kv() == old(
                        self,
                    ).engine.kv().insert(key@, value@),
                    Response::Put(SetResponse::Error(_)) => final(self).engine.kv() == old(
                        self,
                    ).engine.kv(),
                    _ => false,
                },
                Request::Remove { key } => {
                    &&& match r {
                        Response::Remove(RemoveResponse::Done) => old(
                            self,
                        ).engine.kv().dom().contains(key@) && final(self).engine.kv() == old(
                            self,
                        ).engine.kv().remove(key@),
                        Response::Remove(RemoveResponse::Error(_)) => true,
                        _ => false,
                    }
                    &&& (!old(self).engine.kv().dom().contains(key@) ==> r matches Response::Remove(
                        RemoveResponse::Error(_),
                    ))
                },
            }),
    {
        match req {
            Request::Get { key } => {
                match self.engine.get(key) {
                    Ok(value) => Response::Get(GetResponse::Value(value)),
                    Err(e) => Response::Get(GetResponse::Error(e.message().to_owned())),
                }
            },
            Request::Put { key, value } => {
                match self.engine.set(key, value) {
                    Ok(_) => Response::Put(SetResponse::Done),
                    Err(e) => Response::Put(SetResponse::Error(e.message().to_owned())),
                }
            },
            Request::Remove { key } => {
                match self.engine.remove(key) {
                    Ok(_) => Response::Remove(RemoveResponse::Done),
                    Err(e) => Response::Remove(RemoveResponse::Error(e.message().to_owned())),
                }
            },
        }
    }
}

} // verus!

//! The request and response shapes exchanged between client and server.
//!
//! The wire encoding itself is the transport's business; the engine core
//! only decides what each request means.

use vstd::prelude::*;

verus! {

/// A client request.
pub enum Request {
    Get { key: String },
    Put { key: String, value: String },
    Remove { key: String },
}

/// The reply to a `Get`.
pub enum GetResponse {
    Value(Option<String>),
    Error(String),
}

/// The reply to a `Put`.
pub enum SetResponse {
    Done,
    Error(String),
}

/// The reply to a `Remove`.
pub enum RemoveResponse {
    Done,
    Error(String),
}

/// Any reply, tagged by the request kind it answers.
pub enum Response {
    Get(GetResponse),
    Put(SetResponse),
    Remove(RemoveResponse),
}

} // verus!

//! A persistent, log-structured key/value store with string keys and string
//! values.
//!
//! The storage engine is modelled over a plain representation of the store
//! directory: a vector of log files, each holding the characters of an
//! append-only segment. Every mutation appends an encoded command record to
//! the active segment; an in-memory index maps each live key to the location
//! of its most recent `Set` record; compaction copies the live records into a
//! fresh segment and drops the rest.

mod command;
mod common;
pub mod engines;
mod error;
mod index;
mod logfile;
mod server;
pub mod thread_pool;
mod text;

pub use command::{decode_record, encode, Command};
pub use common::{GetResponse, RemoveResponse, Request, Response, SetResponse};
pub use server::KvsServer;
pub use thread_pool::{NaiveThreadPool, ThreadPool};
pub use engines::{KvStore, KvsEngine};
pub use index::CommandPos;
pub use logfile::{parse_gen, LogFile, log_path};
pub use error::KvsError;
pub use engines::kvs::COMPACTION_THRESHOLD;

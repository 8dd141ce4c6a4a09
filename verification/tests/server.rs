//! The server's request handling over a real engine, and the thread pools.

use kvs::{
    GetResponse, KvStore, KvsError, KvsServer, NaiveThreadPool, RemoveResponse, Request, Response,
    SetResponse, ThreadPool,
};
use std::sync::atomic::{AtomicBool, Ordering};
use std::sync::Arc;

struct InlinePool;

impl ThreadPool for InlinePool {
    fn new(_threads: u32) -> Result<Self, KvsError> {
        Ok(InlinePool)
    }

    fn spawn<F: FnOnce() + Send + 'static>(&self, job: F) {
        job()
    }
}

#[test]
fn naive_thread_pool_new_succeeds() {
    assert!(NaiveThreadPool::new(8).is_ok());
}

#[test]
fn server_serves_requests() {
    let engine = KvStore::open(Vec::new()).unwrap();
    let pool = InlinePool::new(4).unwrap();
    let mut server = KvsServer::new(engine, pool);

    let r = server.process_request(Request::Put {
        key: "k".to_owned(),
        value: "v".to_owned(),
    });
    assert!(matches!(r, Response::Put(SetResponse::Done)));

    let r = server.process_request(Request::Get { key: "k".to_owned() });
    match r {
        Response::Get(GetResponse::Value(v)) => assert_eq!(v, Some("v".to_owned())),
        _ => panic!("expected a value"),
    }

    let r = server.process_request(Request::Remove { key: "k".to_owned() });
    assert!(matches!(r, Response::Remove(RemoveResponse::Done)));

    let r = server.process_request(Request::Get { key: "k".to_owned() });
    match r {
        Response::Get(GetResponse::Value(v)) => assert_eq!(v, None),
        _ => panic!("expected an empty value"),
    }

    let r = server.process_request(Request::Remove { key: "k".to_owned() });
    match r {
        Response::Remove(RemoveResponse::Error(msg)) => assert_eq!(msg, "Key not found"),
        _ => panic!("removing an absent key must fail"),
    }
}

#[test]
fn inline_pool_runs_jobs() {
    let pool = InlinePool::new(1).unwrap();
    let ran = Arc::new(AtomicBool::new(false));
    let flag = Arc::clone(&ran);
    pool.spawn(move || flag.store(true, Ordering::SeqCst));
    assert!(ran.load(Ordering::SeqCst));
}

#[test]
fn error_messages() {
    assert_eq!(KvsError::KeyNotFound.message(), "Key not found");
    assert_eq!(KvsError::Serde.message(), "serialization or deserialization error");
}

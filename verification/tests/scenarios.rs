//! End-to-end scenarios: persistence across reopen, last writer wins,
//! removal, bulk writes, and agreement among readers of one snapshot.

use kvs::{encode, Command, KvStore, KvsError};

#[test]
fn failed_remove_writes_nothing() {
    let mut store = KvStore::open(Vec::new()).unwrap();
    store.set("present".to_owned(), "v".to_owned()).unwrap();
    let before: Vec<usize> = store.files().iter().map(|f| f.data.len()).collect();
    assert_eq!(store.remove("absent".to_owned()), Err(KvsError::KeyNotFound));
    let after: Vec<usize> = store.files().iter().map(|f| f.data.len()).collect();
    assert_eq!(before, after);
}

#[test]
fn set_survives_reopen() {
    let mut store = KvStore::open(Vec::new()).unwrap();
    store.set("k".to_owned(), "v".to_owned()).unwrap();
    assert_eq!(store.get("k".to_owned()).unwrap(), Some("v".to_owned()));
    let dir = store.close();
    let mut store = KvStore::open(dir).unwrap();
    assert_eq!(store.get("k".to_owned()).unwrap(), Some("v".to_owned()));
}

#[test]
fn last_writer_wins_across_reopen() {
    let mut store = KvStore::open(Vec::new()).unwrap();
    store.set("k".to_owned(), "v1".to_owned()).unwrap();
    store.set("k".to_owned(), "v2".to_owned()).unwrap();
    assert_eq!(store.get("k".to_owned()).unwrap(), Some("v2".to_owned()));
    let dir = store.close();
    let mut store = KvStore::open(dir).unwrap();
    assert_eq!(store.get("k".to_owned()).unwrap(), Some("v2".to_owned()));
}

#[test]
fn remove_then_remove_again() {
    let mut store = KvStore::open(Vec::new()).unwrap();
    store.set("a".to_owned(), "1".to_owned()).unwrap();
    store.remove("a".to_owned()).unwrap();
    assert_eq!(store.get("a".to_owned()).unwrap(), None);
    assert_eq!(store.remove("a".to_owned()), Err(KvsError::KeyNotFound));
}

#[test]
fn removal_survives_reopen() {
    let mut store = KvStore::open(Vec::new()).unwrap();
    store.set("a".to_owned(), "1".to_owned()).unwrap();
    store.remove("a".to_owned()).unwrap();
    let dir = store.close();
    let mut store = KvStore::open(dir).unwrap();
    assert_eq!(store.get("a".to_owned()).unwrap(), None);
    assert_eq!(store.remove("a".to_owned()), Err(KvsError::KeyNotFound));
}

#[test]
fn thousand_keys() {
    let mut store = KvStore::open(Vec::new()).unwrap();
    for i in 0..1000 {
        store.set(format!("key{}", i), "v".to_owned()).unwrap();
    }
    for i in 0..1000 {
        assert_eq!(store.get(format!("key{}", i)).unwrap(), Some("v".to_owned()));
    }
}

#[test]
fn readers_of_one_snapshot_agree() {
    let mut store = KvStore::open(Vec::new()).unwrap();
    for i in 0..100 {
        store.set(format!("key{}", i), format!("value{}", i)).unwrap();
    }
    let dir = store.close();
    // several independent handles over the same snapshot
    let mut a = KvStore::open(dir.clone()).unwrap();
    let mut b = KvStore::open(dir.clone()).unwrap();
    let mut c = KvStore::open(dir).unwrap();
    for i in 0..100 {
        let key = format!("key{}", i);
        let va = a.get(key.clone()).unwrap();
        let vb = b.get(key.clone()).unwrap();
        let vc = c.get(key).unwrap();
        assert_eq!(va, Some(format!("value{}", i)));
        assert_eq!(va, vb);
        assert_eq!(vb, vc);
    }
}

#[test]
fn compaction_reclaims_space() {
    let mut store = KvStore::open(Vec::new()).unwrap();
    // overwrite one key until the dead bytes cross the threshold and
    // compaction advances the generation
    let big = "x".repeat(4096);
    let mut compacted = false;
    for _ in 0..1000 {
        store.set("key".to_owned(), big.clone()).unwrap();
        if store.current_gen() > 1 {
            compacted = true;
            break;
        }
    }
    assert!(compacted, "no compaction detected");
    // right after compaction the directory holds exactly the one live
    // record and an empty active segment
    let total: usize = store.files().iter().map(|f| f.data.len()).sum();
    let live = encode(&Command::set("key".to_owned(), big.clone())).len();
    assert_eq!(total, live);
    assert_eq!(store.get("key".to_owned()).unwrap(), Some(big));
}

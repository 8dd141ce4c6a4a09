//! The store's basic behaviour, including across a close and reopen.

use kvs::{KvStore, LogFile};

fn dir_size(store: &KvStore) -> u64 {
    let mut total: u64 = 0;
    for f in store.files().iter() {
        total += f.data.len() as u64;
    }
    total
}

#[test]
fn get_stored_value() {
    let mut store = KvStore::open(Vec::new()).unwrap();
    store.set("key1".to_owned(), "value1".to_owned()).unwrap();
    store.set("key2".to_owned(), "value2".to_owned()).unwrap();
    assert_eq!(store.get("key1".to_owned()).unwrap(), Some("value1".to_owned()));
    assert_eq!(store.get("key2".to_owned()).unwrap(), Some("value2".to_owned()));
    let dir = store.close();
    let mut store = KvStore::open(dir).unwrap();
    assert_eq!(store.get("key1".to_owned()).unwrap(), Some("value1".to_owned()));
    assert_eq!(store.get("key2".to_owned()).unwrap(), Some("value2".to_owned()));
}

#[test]
fn overwrite_value() {
    let mut store = KvStore::open(Vec::new()).unwrap();
    store.set("key1".to_owned(), "value1".to_owned()).unwrap();
    assert_eq!(store.get("key1".to_owned()).unwrap(), Some("value1".to_owned()));
    store.set("key1".to_owned(), "value2".to_owned()).unwrap();
    assert_eq!(store.get("key1".to_owned()).unwrap(), Some("value2".to_owned()));

    let dir = store.close();
    let mut store = KvStore::open(dir).unwrap();
    assert_eq!(store.get("key1".to_owned()).unwrap(), Some("value2".to_owned()));
    store.set("key1".to_owned(), "value3".to_owned()).unwrap();
    assert_eq!(store.get("key1".to_owned()).unwrap(), Some("value3".to_owned()));
}

#[test]
fn get_non_existent_value() {
    let mut store = KvStore::open(Vec::new()).unwrap();
    store.set("key1".to_owned(), "value1".to_owned()).unwrap();
    assert_eq!(store.get("key2".to_owned()).unwrap(), None);

    let dir = store.close();
    let mut store = KvStore::open(dir).unwrap();
    assert_eq!(store.get("key2".to_owned()).unwrap(), None);
}

#[test]
fn remove_non_existent_key() {
    let mut store = KvStore::open(Vec::new()).unwrap();
    assert!(store.remove("key1".to_owned()).is_err());
}

#[test]
fn remove_key() {
    let mut store = KvStore::open(Vec::new()).unwrap();
    store.set("key1".to_owned(), "value1".to_owned()).unwrap();
    assert!(store.remove("key1".to_owned()).is_ok());
    assert_eq!(store.get("key1".to_owned()).unwrap(), None);
}

#[test]
fn compaction() {
    let mut store = KvStore::open(Vec::new()).unwrap();
    let mut cur_size = dir_size(&store);
    for iter in 0..1000 {
        for key_id in 0..1000 {
            let key = format!("key{}", key_id);
            let value = format!("{}", iter);
            store.set(key, value).unwrap();
        }
        let new_size = dir_size(&store);
        if new_size > cur_size {
            cur_size = new_size;
            continue;
        }
        // compaction triggered: reopen and check that the data survived
        let dir = store.close();
        let mut store = KvStore::open(dir).unwrap();
        for key_id in 0..1000 {
            let key = format!("key{}", key_id);
            assert_eq!(store.get(key).unwrap(), Some(format!("{}", iter)));
        }
        return;
    }
    panic!("no compaction detected");
}

#[test]
fn files_named_by_generation() {
    let mut store = KvStore::open(Vec::new()).unwrap();
    store.set("k".to_owned(), "v".to_owned()).unwrap();
    let dir: Vec<LogFile> = store.close();
    assert_eq!(dir.len(), 1);
    assert_eq!(dir[0].name, "1.log");
    let dir2 = KvStore::open(dir).unwrap().close();
    assert_eq!(dir2.len(), 2);
    assert_eq!(dir2[1].name, "2.log");
}

use kvs::error::KvError;
use kvs::logs::LogDir;
use kvs::store::{KvStore, KvsEngine};

fn reopen(store: KvStore) -> KvStore {
    KvStore::open(store.close()).expect("the directory of a store opens again")
}

// Should get previously stored value
#[test]
fn get_stored_value() {
    let mut store = KvStore::open(LogDir::new()).unwrap();

    store.set("key1".to_owned(), "value1".to_owned()).unwrap();
    store.set("key2".to_owned(), "value2".to_owned()).unwrap();

    assert_eq!(store.get("key1".to_owned()).unwrap(), Some("value1".to_owned()));
    assert_eq!(store.get("key2".to_owned()).unwrap(), Some("value2".to_owned()));

    // Open from disk again and check persistent data
    let mut store = reopen(store);
    assert_eq!(store.get("key1".to_owned()).unwrap(), Some("value1".to_owned()));
    assert_eq!(store.get("key2".to_owned()).unwrap(), Some("value2".to_owned()));
}

// Should overwrite existent value
#[test]
fn overwrite_value() {
    let mut store = KvStore::open(LogDir::new()).unwrap();

    store.set("key1".to_owned(), "value1".to_owned()).unwrap();
    assert_eq!(store.get("key1".to_owned()).unwrap(), Some("value1".to_owned()));
    store.set("key1".to_owned(), "value2".to_owned()).unwrap();
    assert_eq!(store.get("key1".to_owned()).unwrap(), Some("value2".to_owned()));

    let mut store = reopen(store);
    assert_eq!(store.get("key1".to_owned()).unwrap(), Some("value2".to_owned()));
    store.set("key1".to_owned(), "value3".to_owned()).unwrap();
    assert_eq!(store.get("key1".to_owned()).unwrap(), Some("value3".to_owned()));
}

// Should get `None` when getting a non-existent key
#[test]
fn get_non_existent_value() {
    let mut store = KvStore::open(LogDir::new()).unwrap();

    store.set("key1".to_owned(), "value1".to_owned()).unwrap();
    assert_eq!(store.get("key2".to_owned()).unwrap(), None);

    let mut store = reopen(store);
    assert_eq!(store.get("key2".to_owned()).unwrap(), None);
}

#[test]
fn remove_non_existent_key() {
    let mut store = KvStore::open(LogDir::new()).unwrap();
    assert_eq!(store.get("x".to_owned()).unwrap(), None);
    assert_eq!(store.remove("x".to_owned()), Err(KvError::KeyNotFound));
}

#[test]
fn remove_key() {
    let mut store = KvStore::open(LogDir::new()).unwrap();
    store.set("key1".to_owned(), "value1".to_owned()).unwrap();
    assert!(store.remove("key1".to_owned()).is_ok());
    assert_eq!(store.get("key1".to_owned()).unwrap(), None);

    let mut store = reopen(store);
    assert_eq!(store.get("key1".to_owned()).unwrap(), None);
}

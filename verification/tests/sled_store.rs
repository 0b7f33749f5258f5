use kvs::protocol::handle_request;
use kvs::{ErrorMessage, KvsEngine, Request, Response, SledStore, SledStoreError};
use std::path::PathBuf;

#[test]
fn sled_store_keeps_what_was_set() {
    let mut store = SledStore::open(PathBuf::from("/tmp/kvs_sled_store_keeps")).unwrap();
    store.remove("a".to_string()).unwrap();
    assert_eq!(store.get("a".to_string()).unwrap(), None);
    store.set("a".to_string(), "1".to_string()).unwrap();
    store.set("b".to_string(), "2".to_string()).unwrap();
    store.set("a".to_string(), "3".to_string()).unwrap();
    assert_eq!(store.get("a".to_string()).unwrap().as_deref(), Some("3"));
    assert_eq!(store.get("b".to_string()).unwrap().as_deref(), Some("2"));
    store.remove("a".to_string()).unwrap();
    assert_eq!(store.get("a".to_string()).unwrap(), None);
    store.remove("a".to_string()).unwrap();
    store.remove("b".to_string()).unwrap();
}

#[test]
fn sled_value_of_reads_utf8() {
    assert_eq!(SledStore::value_of(None).unwrap(), None);
    assert_eq!(
        SledStore::value_of(Some("grüß".as_bytes().to_vec())).unwrap().as_deref(),
        Some("grüß")
    );
    assert_eq!(SledStore::value_of(Some(Vec::new())).unwrap().as_deref(), Some(""));
}

#[test]
fn sled_value_of_rejects_other_bytes() {
    assert!(matches!(
        SledStore::value_of(Some(vec![0x66, 0xff, 0x6f])),
        Err(SledStoreError::FromUtf8Error(_))
    ));
}

#[test]
fn sled_errors_say_what_went_wrong() {
    match SledStore::value_of(Some(vec![0x66, 0xff, 0x6f])) {
        Err(e) => assert_eq!(e.message(), "invalid utf-8 sequence of 1 bytes from index 1"),
        Ok(_) => panic!("bytes that are not UTF-8 were read as text"),
    }
}

#[test]
fn sled_open_fails_where_no_directory_can_be() {
    match SledStore::open(PathBuf::from("/dev/null/kvs_sled_store")) {
        Err(e) => {
            assert!(matches!(e, SledStoreError::SledError(_)));
            assert!(!e.message().is_empty());
        }
        Ok(_) => panic!("a database was opened below a file"),
    }
}

#[test]
fn sled_store_reopens_with_its_contents() {
    let path = PathBuf::from("/tmp/kvs_sled_store_reopens");
    {
        let mut store = SledStore::open(path.clone()).unwrap();
        store.set("kept".to_string(), "value".to_string()).unwrap();
    }
    let mut store = SledStore::open(path).unwrap();
    assert_eq!(store.get("kept".to_string()).unwrap().as_deref(), Some("value"));
    store.remove("kept".to_string()).unwrap();
}

#[test]
fn sled_store_answers_requests() {
    let mut store = SledStore::open(PathBuf::from("/tmp/kvs_sled_store_answers")).unwrap();
    let rm = Request::Remove { key: "foo".to_string() };
    assert_eq!(handle_request(&mut store, rm), Response::Success(None));
    let get = Request::Get { key: "foo".to_string() };
    assert_eq!(handle_request(&mut store, get), Response::Success(None));
    let put = Request::Put { key: "foo".to_string(), value: "bar".to_string() };
    assert_eq!(handle_request(&mut store, put), Response::Success(None));
    let put = Request::Put { key: "other".to_string(), value: "baz".to_string() };
    assert_eq!(handle_request(&mut store, put), Response::Success(None));
    let get = Request::Get { key: "foo".to_string() };
    assert_eq!(handle_request(&mut store, get), Response::Success(Some("bar".to_string())));
    let rm = Request::Remove { key: "foo".to_string() };
    assert_eq!(handle_request(&mut store, rm), Response::Success(None));
    let get = Request::Get { key: "foo".to_string() };
    assert_eq!(handle_request(&mut store, get), Response::Success(None));
    let get = Request::Get { key: "other".to_string() };
    assert_eq!(handle_request(&mut store, get), Response::Success(Some("baz".to_string())));
    let rm = Request::Remove { key: "other".to_string() };
    assert_eq!(handle_request(&mut store, rm), Response::Success(None));
}

use kvs::protocol::{get_response, handle_request, update_response};
use kvs::{KvStore, KvsEngine, KvsStoreError, Request, Response};

/// The engine over a log kept in memory.
struct MemoryStore {
    engine: KvStore,
    log: Vec<u8>,
}

impl MemoryStore {
    fn new() -> MemoryStore {
        MemoryStore { engine: KvStore::open(&[]), log: Vec::new() }
    }

    fn apply(&mut self, update: kvs::LogUpdate) {
        self.log.extend(update.record);
        if let Some(plan) = update.rewrite {
            let mut sibling = Vec::new();
            for e in plan {
                sibling.extend_from_slice(&self.log[e.offset as usize..(e.offset + e.length) as usize]);
            }
            self.log = sibling;
        }
    }
}

impl KvsEngine for MemoryStore {
    type Error = KvsStoreError;

    fn set(&mut self, key: String, value: String) -> Result<(), KvsStoreError> {
        let update = self.engine.set(key, value)?;
        self.apply(update);
        Ok(())
    }

    fn get(&mut self, key: String) -> Result<Option<String>, KvsStoreError> {
        match self.engine.get(key) {
            None => Ok(None),
            Some(e) => KvStore::value_in(&self.log[e.offset as usize..(e.offset + e.length) as usize]),
        }
    }

    fn remove(&mut self, key: String) -> Result<(), KvsStoreError> {
        let update = self.engine.remove(key)?;
        self.apply(update);
        Ok(())
    }
}

#[test]
fn get_response_carries_value_or_message() {
    assert_eq!(get_response(Ok(Some("v".to_string()))), Response::Success(Some("v".to_string())));
    assert_eq!(get_response(Ok(None)), Response::Success(None));
    assert_eq!(get_response(Err("broken".to_string())), Response::Failed("broken".to_string()));
}

#[test]
fn update_response_carries_nothing_or_message() {
    assert_eq!(update_response(Ok(())), Response::Success(None));
    assert_eq!(update_response(Err("broken".to_string())), Response::Failed("broken".to_string()));
}

#[test]
fn requests_are_answered_from_the_engine() {
    let mut store = MemoryStore::new();
    let set = Request::Put { key: "foo".to_string(), value: "bar".to_string() };
    assert_eq!(handle_request(&mut store, set), Response::Success(None));
    let get = Request::Get { key: "foo".to_string() };
    assert_eq!(handle_request(&mut store, get), Response::Success(Some("bar".to_string())));
    let rm = Request::Remove { key: "foo".to_string() };
    assert_eq!(handle_request(&mut store, rm), Response::Success(None));
    let rm = Request::Remove { key: "foo".to_string() };
    assert_eq!(
        handle_request(&mut store, rm),
        Response::Failed("key foo not exist".to_string())
    );
    let get = Request::Get { key: "foo".to_string() };
    assert_eq!(handle_request(&mut store, get), Response::Success(None));
}

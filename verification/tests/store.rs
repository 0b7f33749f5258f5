use kvs::codec::{decode, encode_put};
use kvs::{Command, KvStore, KvsStoreError, LogUpdate};

/// Does to an in-memory log what the engine says is to be done to the files.
fn apply(disk: &mut Vec<u8>, update: LogUpdate) {
    disk.extend(update.record);
    if let Some(plan) = update.rewrite {
        let mut sibling = Vec::new();
        for extent in plan {
            let from = extent.offset as usize;
            sibling.extend_from_slice(&disk[from..from + extent.length as usize]);
        }
        *disk = sibling;
    }
}

fn set(store: &mut KvStore, disk: &mut Vec<u8>, key: &str, value: &str) {
    let update = store.set(key.to_string(), value.to_string()).unwrap();
    apply(disk, update);
    assert_eq!(store.log_len(), disk.len() as u64);
}

fn remove(store: &mut KvStore, disk: &mut Vec<u8>, key: &str) -> Result<(), KvsStoreError> {
    let update = store.remove(key.to_string())?;
    apply(disk, update);
    assert_eq!(store.log_len(), disk.len() as u64);
    Ok(())
}

fn get(store: &KvStore, disk: &[u8], key: &str) -> Option<String> {
    let extent = store.get(key.to_string())?;
    let from = extent.offset as usize;
    KvStore::value_in(&disk[from..from + extent.length as usize]).unwrap()
}

fn count_records(mut log: &[u8]) -> (usize, usize) {
    let (mut puts, mut removes) = (0, 0);
    while let Ok((command, len)) = decode(log) {
        match command {
            Command::Put { .. } => puts += 1,
            Command::Remove { .. } => removes += 1,
        }
        log = &log[len..];
    }
    assert!(log.is_empty());
    (puts, removes)
}

#[test]
fn open_empty_log_gives_empty_index() {
    let store = KvStore::open(&[]);
    assert_eq!(store.len(), 0);
    assert_eq!(store.commands_total(), 0);
    assert_eq!(store.log_len(), 0);
    assert_eq!(store.get("a".to_string()), None);
}

#[test]
fn set_two_keys_and_get_them() {
    let mut disk = Vec::new();
    let mut store = KvStore::open(&disk);
    set(&mut store, &mut disk, "a", "1");
    set(&mut store, &mut disk, "b", "2");
    assert_eq!(get(&store, &disk, "a").as_deref(), Some("1"));
    assert_eq!(get(&store, &disk, "b").as_deref(), Some("2"));
    assert_eq!(get(&store, &disk, "c"), None);
}

#[test]
fn set_survives_a_restart() {
    let mut disk = Vec::new();
    let mut store = KvStore::open(&disk);
    set(&mut store, &mut disk, "k", "v");
    drop(store);
    let reopened = KvStore::open(&disk);
    assert_eq!(get(&reopened, &disk, "k").as_deref(), Some("v"));
    assert_eq!(reopened.len(), 1);
    assert_eq!(reopened.commands_total(), 1);
}

#[test]
fn overwriting_one_key_keeps_the_log_small() {
    let mut disk = Vec::new();
    let mut store = KvStore::open(&disk);
    for i in 1..=1000 {
        set(&mut store, &mut disk, "k", &i.to_string());
        assert!(store.commands_total() <= 2);
    }
    assert_eq!(get(&store, &disk, "k").as_deref(), Some("1000"));
    let single = encode_put("k", "1000").unwrap().len();
    assert!(disk.len() <= 2 * single);
    assert_eq!(disk.len(), 83);
}

#[test]
fn second_remove_fails_with_key_not_exist() {
    let mut disk = Vec::new();
    let mut store = KvStore::open(&disk);
    set(&mut store, &mut disk, "a", "1");
    remove(&mut store, &mut disk, "a").unwrap();
    match remove(&mut store, &mut disk, "a") {
        Err(KvsStoreError::KeyNotExist(key)) => assert_eq!(key, "a"),
        other => panic!("unexpected {:?}", other),
    }
    assert_eq!(get(&store, &disk, "a"), None);
}

#[test]
fn remove_on_empty_store_fails_and_writes_nothing() {
    let mut disk = Vec::new();
    let mut store = KvStore::open(&disk);
    match store.remove("missing".to_string()) {
        Err(KvsStoreError::KeyNotExist(key)) => assert_eq!(key, "missing"),
        other => panic!("unexpected {:?}", other.map(|u| u.record)),
    }
    assert_eq!(store.commands_total(), 0);
    assert_eq!(store.log_len(), 0);
    assert!(remove(&mut store, &mut disk, "").is_err());
}

#[test]
fn key_not_exist_message_names_the_key() {
    let e = KvsStoreError::KeyNotExist("foo".to_string());
    assert_eq!(e.message(), "key foo not exist");
    assert_eq!(KvsStoreError::EncodeError(kvs::EncodeError::RecordTooLong).message(), "record too long");
    assert_eq!(KvsStoreError::EncodeError(kvs::EncodeError::LogTooLong).message(), "log too long");
    assert_eq!(KvsStoreError::DecodeError(kvs::DecodeError::EndOfLog).message(), "end of log");
    assert_eq!(KvsStoreError::DecodeError(kvs::DecodeError::Truncated).message(), "truncated record");
    assert_eq!(KvsStoreError::DecodeError(kvs::DecodeError::Malformed).message(), "malformed record");
}

#[test]
fn torn_tail_is_ignored_and_dropped_by_compaction() {
    let mut disk = Vec::new();
    let mut store = KvStore::open(&disk);
    for i in 0..100 {
        set(&mut store, &mut disk, &format!("key{}", i), &format!("value{}", i));
    }
    drop(store);
    let clean_len = disk.len();
    disk.extend([0x17u8, 0x2a, 0xff, 0x00, 0x91, 0x05, 0x7c]);
    let mut store = KvStore::open(&disk);
    assert_eq!(store.len(), 100);
    assert_eq!(store.commands_total(), 100);
    assert_eq!(store.log_len(), clean_len as u64 + 7);
    for i in 0..100 {
        assert_eq!(get(&store, &disk, &format!("key{}", i)), Some(format!("value{}", i)));
    }
    // Overwrite until the compaction check fires; the new records stand behind the torn tail.
    let mut compacted = false;
    for i in 0..101 {
        let update = store.set(format!("key{}", i % 100), format!("again{}", i)).unwrap();
        compacted = update.rewrite.is_some();
        apply(&mut disk, update);
        if compacted {
            assert_eq!(i, 100);
        }
    }
    assert!(compacted);
    assert_eq!(count_records(&disk), (100, 0));
    assert_eq!(store.commands_total(), 100);
    assert_eq!(store.len(), 100);
    assert_eq!(get(&store, &disk, "key0").as_deref(), Some("again100"));
    for i in 1..100 {
        assert_eq!(get(&store, &disk, &format!("key{}", i)), Some(format!("again{}", i)));
    }
    let reopened = KvStore::open(&disk);
    assert_eq!(reopened.len(), 100);
    assert_eq!(reopened.log_len(), disk.len() as u64);
}

#[test]
fn truncated_last_record_recovers_the_state_before_it() {
    let mut disk = Vec::new();
    let mut store = KvStore::open(&disk);
    set(&mut store, &mut disk, "a", "1");
    set(&mut store, &mut disk, "b", "2");
    let committed = disk.len();
    set(&mut store, &mut disk, "a", "changed");
    for cut in committed..disk.len() {
        let torn = &disk[..cut];
        let reopened = KvStore::open(torn);
        assert_eq!(reopened.len(), 2);
        assert_eq!(reopened.commands_total(), 2);
        assert_eq!(get(&reopened, torn, "a").as_deref(), Some("1"));
        assert_eq!(get(&reopened, torn, "b").as_deref(), Some("2"));
    }
}

#[test]
fn answers_match_a_map() {
    let mut model = std::collections::BTreeMap::new();
    let mut disk = Vec::new();
    let mut store = KvStore::open(&disk);
    let mut seed: u32 = 12345;
    for step in 0..2000 {
        seed = seed.wrapping_mul(1664525).wrapping_add(1013904223);
        let key = format!("k{}", (seed >> 8) % 7);
        match (seed >> 4) % 3 {
            0 => {
                let value = format!("v{}", step);
                set(&mut store, &mut disk, &key, &value);
                model.insert(key, value);
            }
            1 => {
                let expected = model.remove(&key).is_some();
                match remove(&mut store, &mut disk, &key) {
                    Ok(()) => assert!(expected),
                    Err(KvsStoreError::KeyNotExist(missing)) => {
                        assert!(!expected);
                        assert_eq!(missing, key);
                    }
                    Err(other) => panic!("unexpected {:?}", other),
                }
            }
            _ => assert_eq!(get(&store, &disk, &key), model.get(&key).cloned()),
        }
        let live = store.len() as u64;
        assert_eq!(live, model.len() as u64);
        assert!(live <= store.commands_total());
        assert!(store.commands_total() <= 2 * live.max(1) + 1);
        assert!(store.commands_total() <= 2 * live);
        if step % 97 == 0 {
            let reopened = KvStore::open(&disk);
            assert_eq!(reopened.len(), store.len());
            assert_eq!(reopened.commands_total(), store.commands_total());
            for (k, v) in &model {
                assert_eq!(get(&reopened, &disk, k).as_ref(), Some(v));
            }
        }
    }
}

#[test]
fn set_then_get_reads_the_value() {
    let mut disk = Vec::new();
    let mut store = KvStore::open(&disk);
    set(&mut store, &mut disk, "", "");
    assert_eq!(get(&store, &disk, "").as_deref(), Some(""));
    set(&mut store, &mut disk, "new\nline", "nul\0byte");
    assert_eq!(get(&store, &disk, "new\nline").as_deref(), Some("nul\0byte"));
    set(&mut store, &mut disk, "ключ", "значение");
    assert_eq!(get(&store, &disk, "ключ").as_deref(), Some("значение"));
}

#[test]
fn second_set_wins() {
    let mut disk = Vec::new();
    let mut store = KvStore::open(&disk);
    set(&mut store, &mut disk, "k", "v1");
    set(&mut store, &mut disk, "k", "v2");
    assert_eq!(get(&store, &disk, "k").as_deref(), Some("v2"));
    let reopened = KvStore::open(&disk);
    assert_eq!(get(&reopened, &disk, "k").as_deref(), Some("v2"));
}

#[test]
fn set_then_remove_reads_nothing() {
    let mut disk = Vec::new();
    let mut store = KvStore::open(&disk);
    set(&mut store, &mut disk, "k", "v");
    set(&mut store, &mut disk, "other", "w");
    remove(&mut store, &mut disk, "k").unwrap();
    assert_eq!(get(&store, &disk, "k"), None);
    assert_eq!(get(&store, &disk, "other").as_deref(), Some("w"));
}

#[test]
fn get_does_not_change_the_state() {
    let mut disk = Vec::new();
    let mut store = KvStore::open(&disk);
    set(&mut store, &mut disk, "k", "v");
    let first = store.get("k".to_string());
    let second = store.get("k".to_string());
    assert_eq!(first, second);
    assert_eq!(first, Some(kvs::Extent { offset: 0, length: 39 }));
    assert_eq!(store.commands_total(), 1);
}

#[test]
fn set_says_what_to_append_and_where_it_stands() {
    let mut store = KvStore::open(&[]);
    let update = store.set("a".to_string(), "1".to_string()).unwrap();
    assert_eq!(update.record, encode_put("a", "1").unwrap());
    assert!(update.rewrite.is_none());
    let update = store.set("b".to_string(), "22".to_string()).unwrap();
    assert!(update.rewrite.is_none());
    assert_eq!(store.get("a".to_string()), Some(kvs::Extent { offset: 0, length: 39 }));
    assert_eq!(store.get("b".to_string()), Some(kvs::Extent { offset: 39, length: 40 }));
    assert_eq!(store.log_len(), 79);
}

#[test]
fn compaction_plan_lists_live_extents_in_log_order() {
    let mut disk = Vec::new();
    let mut store = KvStore::open(&disk);
    set(&mut store, &mut disk, "a", "1");
    set(&mut store, &mut disk, "b", "2");
    set(&mut store, &mut disk, "a", "3");
    set(&mut store, &mut disk, "b", "4");
    assert_eq!(store.commands_total(), 4);
    let update = store.set("a".to_string(), "5".to_string()).unwrap();
    let plan = update.rewrite.clone().unwrap();
    assert_eq!(
        plan,
        vec![kvs::Extent { offset: 117, length: 39 }, kvs::Extent { offset: 156, length: 39 }]
    );
    apply(&mut disk, update);
    assert_eq!(disk.len(), 78);
    assert_eq!(store.commands_total(), 2);
    assert_eq!(store.get("b".to_string()), Some(kvs::Extent { offset: 0, length: 39 }));
    assert_eq!(store.get("a".to_string()), Some(kvs::Extent { offset: 39, length: 39 }));
    assert_eq!(get(&store, &disk, "a").as_deref(), Some("5"));
    assert_eq!(get(&store, &disk, "b").as_deref(), Some("4"));
    assert_eq!(count_records(&disk), (2, 0));
}

#[test]
fn removing_the_last_key_empties_the_log() {
    let mut disk = Vec::new();
    let mut store = KvStore::open(&disk);
    set(&mut store, &mut disk, "a", "1");
    remove(&mut store, &mut disk, "a").unwrap();
    assert_eq!(store.len(), 0);
    assert_eq!(store.commands_total(), 0);
    assert!(disk.is_empty());
}

#[test]
fn recovery_accepts_a_remove_of_an_unknown_key() {
    let mut disk = kvs::codec::encode_remove("ghost").unwrap();
    disk.extend(encode_put("a", "1").unwrap());
    let store = KvStore::open(&disk);
    assert_eq!(store.len(), 1);
    assert_eq!(store.commands_total(), 2);
    assert_eq!(get(&store, &disk, "a").as_deref(), Some("1"));
    assert_eq!(store.get("ghost".to_string()), None);
}

#[test]
fn value_in_tells_put_remove_and_damage_apart() {
    assert_eq!(KvStore::value_in(&encode_put("k", "v").unwrap()).unwrap().as_deref(), Some("v"));
    assert_eq!(KvStore::value_in(&kvs::codec::encode_remove("k").unwrap()).unwrap(), None);
    assert!(matches!(
        KvStore::value_in(&[1, 0, 0, 0, 5]),
        Err(KvsStoreError::DecodeError(kvs::DecodeError::Malformed))
    ));
    assert!(matches!(
        KvStore::value_in(&[]),
        Err(KvsStoreError::DecodeError(kvs::DecodeError::EndOfLog))
    ));
    assert!(matches!(
        KvStore::value_in(&encode_put("k", "v").unwrap()[..20]),
        Err(KvsStoreError::DecodeError(kvs::DecodeError::Truncated))
    ));
}

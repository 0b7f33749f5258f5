use kvs::codec::{decode, encode, encode_put, encode_remove};
use kvs::{Command, DecodeError, EncodeError};

fn bson_put(key: &str, value: &str) -> Vec<u8> {
    let mut fields = bson::Document::new();
    fields.insert("key", key);
    fields.insert("value", value);
    let mut doc = bson::Document::new();
    doc.insert("Set", fields);
    let mut bytes = Vec::new();
    doc.to_writer(&mut bytes).unwrap();
    bytes
}

fn bson_remove(key: &str) -> Vec<u8> {
    let mut fields = bson::Document::new();
    fields.insert("key", key);
    let mut doc = bson::Document::new();
    doc.insert("Remove", fields);
    let mut bytes = Vec::new();
    doc.to_writer(&mut bytes).unwrap();
    bytes
}

fn samples() -> Vec<(&'static str, &'static str)> {
    vec![
        ("a", "1"),
        ("", ""),
        ("key", ""),
        ("", "value"),
        ("line\nbreak", "tab\there"),
        ("nul\0inside", "\0"),
        ("schlüssel", "wert €"),
        ("键", "值🦀"),
        ("a longer key with spaces", "a longer value, with punctuation; and more."),
    ]
}

#[test]
fn put_record_has_the_documented_bytes() {
    let expected: Vec<u8> = vec![
        39, 0, 0, 0, // total length
        3, b'S', b'e', b't', 0, // element holding a document
        29, 0, 0, 0, // length of the nested document
        2, b'k', b'e', b'y', 0, 2, 0, 0, 0, b'a', 0, // key
        2, b'v', b'a', b'l', b'u', b'e', 0, 2, 0, 0, 0, b'1', 0, // value
        0, 0,
    ];
    assert_eq!(encode_put("a", "1").unwrap(), expected);
}

#[test]
fn remove_record_has_the_documented_bytes() {
    let expected: Vec<u8> = vec![
        29, 0, 0, 0, 3, b'R', b'e', b'm', b'o', b'v', b'e', 0, 16, 0, 0, 0, 2, b'k', b'e', b'y',
        0, 2, 0, 0, 0, b'a', 0, 0, 0,
    ];
    assert_eq!(encode_remove("a").unwrap(), expected);
}

#[test]
fn put_record_is_the_bson_document() {
    for (key, value) in samples() {
        assert_eq!(encode_put(key, value).unwrap(), bson_put(key, value));
    }
}

#[test]
fn remove_record_is_the_bson_document() {
    for (key, _) in samples() {
        assert_eq!(encode_remove(key).unwrap(), bson_remove(key));
    }
}

#[test]
fn long_values_use_all_length_bytes() {
    let value = "v".repeat(70_000);
    let bytes = encode_put("k", &value).unwrap();
    assert_eq!(bytes.len(), 37 + 1 + 70_000);
    assert_eq!(bytes, bson_put("k", &value));
    match decode(&bytes).unwrap() {
        (Command::Put { key, value: read }, len) => {
            assert_eq!(key, "k");
            assert_eq!(read, value);
            assert_eq!(len, bytes.len());
        }
        other => panic!("unexpected {:?}", other),
    }
}

#[test]
fn bson_reads_back_encoded_records() {
    for (key, value) in samples() {
        let bytes = encode_put(key, value).unwrap();
        let doc = bson::Document::from_reader(&mut &bytes[..]).unwrap();
        let fields = doc.get_document("Set").unwrap();
        assert_eq!(fields.get_str("key").unwrap(), key);
        assert_eq!(fields.get_str("value").unwrap(), value);
        let bytes = encode_remove(key).unwrap();
        let doc = bson::Document::from_reader(&mut &bytes[..]).unwrap();
        assert_eq!(doc.get_document("Remove").unwrap().get_str("key").unwrap(), key);
    }
}

#[test]
fn decode_round_trips_commands() {
    for (key, value) in samples() {
        let put = Command::Put { key: key.to_string(), value: value.to_string() };
        let bytes = encode(&put).unwrap();
        match decode(&bytes).unwrap() {
            (Command::Put { key: k, value: v }, len) => {
                assert_eq!(k, key);
                assert_eq!(v, value);
                assert_eq!(len, bytes.len());
            }
            other => panic!("unexpected {:?}", other),
        }
        let remove = Command::Remove { key: key.to_string() };
        let bytes = encode(&remove).unwrap();
        match decode(&bytes).unwrap() {
            (Command::Remove { key: k }, len) => {
                assert_eq!(k, key);
                assert_eq!(len, bytes.len());
            }
            other => panic!("unexpected {:?}", other),
        }
    }
}

#[test]
fn decode_reads_records_written_by_bson() {
    let bytes = bson_put("from", "bson");
    match decode(&bytes).unwrap() {
        (Command::Put { key, value }, len) => {
            assert_eq!(key, "from");
            assert_eq!(value, "bson");
            assert_eq!(len, 37 + 4 + 4);
        }
        other => panic!("unexpected {:?}", other),
    }
}

#[test]
fn decode_reads_one_record_and_leaves_the_rest() {
    let mut bytes = encode_put("a", "1").unwrap();
    let first = bytes.len();
    bytes.extend(encode_remove("a").unwrap());
    bytes.extend([1u8, 2, 3]);
    let (command, len) = decode(&bytes).unwrap();
    assert!(matches!(command, Command::Put { .. }));
    assert_eq!(len, first);
    let (command, len) = decode(&bytes[first..]).unwrap();
    assert!(matches!(command, Command::Remove { .. }));
    assert_eq!(len, 29);
}

#[test]
fn decode_empty_is_end_of_log() {
    assert_eq!(decode(&[]).unwrap_err(), DecodeError::EndOfLog);
}

#[test]
fn decode_short_prefix_is_truncated() {
    assert_eq!(decode(&[39]).unwrap_err(), DecodeError::Truncated);
    assert_eq!(decode(&[39, 0, 0]).unwrap_err(), DecodeError::Truncated);
}

#[test]
fn decode_cut_record_is_truncated_at_every_length() {
    let bytes = encode_put("key", "value").unwrap();
    for n in 1..bytes.len() {
        assert_eq!(decode(&bytes[..n]).unwrap_err(), DecodeError::Truncated, "cut at {}", n);
    }
}

#[test]
fn decode_garbage_is_malformed() {
    assert_eq!(decode(&[0, 0, 0, 0]).unwrap_err(), DecodeError::Malformed);
    assert_eq!(decode(&[5, 0, 0, 0, 0]).unwrap_err(), DecodeError::Malformed);
    assert_eq!(decode(&[0xff; 64]).unwrap_err(), DecodeError::Malformed);
    let mut bytes = encode_put("key", "value").unwrap();
    bytes[5] = b'X';
    assert_eq!(decode(&bytes).unwrap_err(), DecodeError::Malformed);
    let mut bytes = encode_put("key", "value").unwrap();
    let last = bytes.len() - 1;
    bytes[last] = 1;
    assert_eq!(decode(&bytes).unwrap_err(), DecodeError::Malformed);
    let mut bytes = encode_remove("key").unwrap();
    bytes[21] = 9;
    assert_eq!(decode(&bytes).unwrap_err(), DecodeError::Malformed);
}

#[test]
fn decode_invalid_utf8_is_malformed() {
    let mut bytes = encode_put("k", "v").unwrap();
    bytes[22] = 0xff;
    assert_eq!(decode(&bytes).unwrap_err(), DecodeError::Malformed);
    let mut bytes = encode_remove("k").unwrap();
    bytes[25] = 0xc0;
    assert_eq!(decode(&bytes).unwrap_err(), DecodeError::Malformed);
}

#[test]
fn decode_announced_length_beyond_the_limit_is_malformed() {
    let mut bytes = vec![0xff, 0xff, 0xff, 0xff];
    bytes.extend([0u8; 40]);
    assert_eq!(decode(&bytes).unwrap_err(), DecodeError::Malformed);
}

#[test]
fn encode_rejects_what_the_length_prefix_cannot_state() {
    let longest_record = 0x7fff_ffffusize;
    let key = String::from_utf8(vec![0u8; longest_record - 27]).unwrap();
    assert_eq!(encode_remove(&key).unwrap_err(), EncodeError::RecordTooLong);
    assert_eq!(encode_put(&key[..longest_record - 36], "").unwrap_err(), EncodeError::RecordTooLong);
    assert_eq!(encode_put("", &key[..longest_record - 36]).unwrap_err(), EncodeError::RecordTooLong);
    assert_eq!(encode_put(&key[..longest_record - 40], "four").unwrap_err(), EncodeError::RecordTooLong);
    let command = Command::Remove { key };
    assert_eq!(encode(&command).unwrap_err(), EncodeError::RecordTooLong);
}

#[test]
fn decode_accepts_only_what_encode_writes() {
    let originals =
        vec![encode_put("key", "value").unwrap(), encode_put("", "").unwrap(), encode_remove("gone").unwrap()];
    let mut seed: u32 = 7;
    let mut accepted = 0;
    for original in &originals {
        for _ in 0..4000 {
            let mut bytes = original.clone();
            seed = seed.wrapping_mul(1664525).wrapping_add(1013904223);
            let at = (seed >> 8) as usize % bytes.len();
            seed = seed.wrapping_mul(1664525).wrapping_add(1013904223);
            bytes[at] = (seed >> 16) as u8;
            if let Ok((command, len)) = decode(&bytes) {
                accepted += 1;
                assert_eq!(len, bytes.len());
                assert_eq!(encode(&command).unwrap(), bytes);
                let doc = bson::Document::from_reader(&mut &bytes[..]).unwrap();
                match command {
                    Command::Put { key, value } => {
                        let fields = doc.get_document("Set").unwrap();
                        assert_eq!(fields.get_str("key").unwrap(), key);
                        assert_eq!(fields.get_str("value").unwrap(), value);
                    }
                    Command::Remove { key } => {
                        assert_eq!(doc.get_document("Remove").unwrap().get_str("key").unwrap(), key);
                    }
                }
            }
        }
    }
    assert!(accepted > 0);
}

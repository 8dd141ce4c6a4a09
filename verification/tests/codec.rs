//! The record encoding: exact forms, escaping, self-delimitation, and
//! decoding of hand-written reference records.

use kvs::{decode_record, encode, Command, KvStore, KvsError, LogFile};

fn encode_to_string(c: &Command) -> String {
    encode(c).iter().collect()
}

#[test]
fn encode_set_exact() {
    let cmd = Command::set("key1".to_owned(), "value1".to_owned());
    assert_eq!(encode_to_string(&cmd), "{\"Set\":{\"key\":\"key1\",\"value\":\"value1\"}}");
}

#[test]
fn encode_remove_exact() {
    let cmd = Command::remove("key1".to_owned());
    assert_eq!(encode_to_string(&cmd), "{\"Remove\":{\"key\":\"key1\"}}");
}

#[test]
fn encode_escapes_quotes_and_backslashes() {
    let cmd = Command::set("a\"b".to_owned(), "c\\d".to_owned());
    assert_eq!(encode_to_string(&cmd), "{\"Set\":{\"key\":\"a\\\"b\",\"value\":\"c\\\\d\"}}");
}

#[test]
fn decode_one_record() {
    let data: Vec<char> = "{\"Set\":{\"key\":\"k\",\"value\":\"v\"}}".chars().collect();
    let (cmd, end) = decode_record(&data, 0).unwrap();
    assert_eq!(end, data.len());
    match cmd {
        Command::Put { key, value } => {
            assert_eq!(key, "k");
            assert_eq!(value, "v");
        },
        _ => panic!("expected an assignment"),
    }
}

#[test]
fn decode_concatenated_records() {
    let text = "{\"Set\":{\"key\":\"k\",\"value\":\"v1\"}}{\"Remove\":{\"key\":\"k\"}}";
    let data: Vec<char> = text.chars().collect();
    let (first, mid) = decode_record(&data, 0).unwrap();
    match first {
        Command::Put { key, value } => {
            assert_eq!(key, "k");
            assert_eq!(value, "v1");
        },
        _ => panic!("expected an assignment"),
    }
    let (second, end) = decode_record(&data, mid).unwrap();
    assert_eq!(end, data.len());
    match second {
        Command::Remove { key } => assert_eq!(key, "k"),
        _ => panic!("expected a removal"),
    }
}

#[test]
fn decode_rejects_garbage() {
    let data: Vec<char> = "not a record".chars().collect();
    assert!(decode_record(&data, 0).is_none());
    let truncated: Vec<char> = "{\"Set\":{\"key\":\"k\"".chars().collect();
    assert!(decode_record(&truncated, 0).is_none());
}

#[test]
fn round_trip_through_encode_and_decode() {
    let cases = vec![
        ("plain", "value"),
        ("with \"quotes\"", "and \\ backslash"),
        ("", ""),
        ("unicode \u{00e9}\u{4e16}", "\u{754c}"),
    ];
    for (k, v) in cases {
        let cmd = Command::set(k.to_owned(), v.to_owned());
        let data = encode(&cmd);
        let (decoded, end) = decode_record(&data, 0).unwrap();
        assert_eq!(end, data.len());
        match decoded {
            Command::Put { key, value } => {
                assert_eq!(key, k);
                assert_eq!(value, v);
            },
            _ => panic!("expected an assignment"),
        }
    }
}

#[test]
fn opens_reference_format_segments() {
    // a segment written in the reference JSON form is replayed as-is
    let text = "{\"Set\":{\"key\":\"a\",\"value\":\"1\"}}{\"Set\":{\"key\":\"b\",\"value\":\"2\"}}{\"Remove\":{\"key\":\"a\"}}";
    let file = LogFile { name: "1.log".to_owned(), data: text.chars().collect() };
    let mut store = KvStore::open(vec![file]).unwrap();
    assert_eq!(store.get("a".to_owned()).unwrap(), None);
    assert_eq!(store.get("b".to_owned()).unwrap(), Some("2".to_owned()));
}

#[test]
fn open_fails_on_malformed_segment() {
    let file = LogFile { name: "1.log".to_owned(), data: "garbage".chars().collect() };
    match KvStore::open(vec![file]) {
        Err(e) => assert_eq!(e, KvsError::Serde),
        Ok(_) => panic!("malformed segment must be fatal"),
    }
}

#[test]
fn open_fails_on_trailing_partial_record() {
    let text = "{\"Set\":{\"key\":\"a\",\"value\":\"1\"}}{\"Set\":{\"key\":\"b\"";
    let file = LogFile { name: "1.log".to_owned(), data: text.chars().collect() };
    assert!(KvStore::open(vec![file]).is_err());
}

#[test]
fn foreign_files_are_ignored() {
    let stray = LogFile { name: "engine".to_owned(), data: "kvs".chars().collect() };
    let seg = LogFile {
        name: "3.log".to_owned(),
        data: "{\"Set\":{\"key\":\"k\",\"value\":\"v\"}}".chars().collect(),
    };
    let mut store = KvStore::open(vec![stray, seg]).unwrap();
    assert_eq!(store.get("k".to_owned()).unwrap(), Some("v".to_owned()));
    assert_eq!(store.current_gen(), 4);
}

use rust_kv::common::{Request, Response};
use rust_kv::json::{quotes_back, Flaw};
use rust_kv::record::{read_value, Command};

#[test]
fn set_record_is_written_as_tagged_pair() {
    let bytes = Command::Put("k1".to_string(), "v1".to_string()).encode();
    assert_eq!(bytes, b"{\"Set\":[\"k1\",\"v1\"]}".to_vec());
}

#[test]
fn remove_record_is_written_as_tagged_text() {
    let bytes = Command::Remove("k1".to_string()).encode();
    assert_eq!(bytes, b"{\"Remove\":\"k1\"}".to_vec());
}

#[test]
fn quoting_escapes_what_json_requires() {
    let bytes = Command::Remove("a\"b\\c\nd".to_string()).encode();
    assert_eq!(bytes, b"{\"Remove\":\"a\\\"b\\\\c\\nd\"}".to_vec());
    match Command::decode(&bytes) {
        Ok(Command::Remove(key)) => assert_eq!(key, "a\"b\\c\nd"),
        other => panic!("unexpected {:?}", other),
    }
}

#[test]
fn record_round_trips() {
    let bytes = Command::Put("key \u{e9}\u{4e2d}".to_string(), "va\tlue".to_string()).encode();
    match Command::decode(&bytes) {
        Ok(Command::Put(key, value)) => {
            assert_eq!(key, "key \u{e9}\u{4e2d}");
            assert_eq!(value, "va\tlue");
        }
        other => panic!("unexpected {:?}", other),
    }
}

#[test]
fn blanks_between_tokens_are_accepted() {
    let bytes = b" { \"Set\" : [ \"a\" ,\n\"b\" ] } \r\n";
    match Command::decode(bytes) {
        Ok(Command::Put(key, value)) => {
            assert_eq!(key, "a");
            assert_eq!(value, "b");
        }
        other => panic!("unexpected {:?}", other),
    }
}

#[test]
fn cut_off_record_is_truncated() {
    assert!(matches!(Command::decode(b"{\"Set\":[\"a\",\"b"), Err(Flaw::Truncated)));
    assert!(matches!(Command::decode(b"{\"Se"), Err(Flaw::Truncated)));
    assert!(matches!(Command::decode(b""), Err(Flaw::Truncated)));
}

#[test]
fn wrong_bytes_are_malformed() {
    assert!(matches!(Command::decode(b"{\"Get\":\"a\"}"), Err(Flaw::Malformed)));
    assert!(matches!(Command::decode(b"{\"Remove\":\"a\"}x"), Err(Flaw::Malformed)));
    assert!(matches!(Command::decode(b"{\"Remove\":\"\\q\"}"), Err(Flaw::Malformed)));
    assert!(matches!(Command::decode(b"[1]"), Err(Flaw::Malformed)));
}

#[test]
fn value_is_read_from_a_set_record() {
    let value = read_value(b"{\"Set\":[\"k\",\"v\"]}");
    assert_eq!(value.unwrap(), Some("v".to_string()));
}

#[test]
fn remove_record_where_a_value_is_expected() {
    let error = read_value(b"{\"Remove\":\"k\"}").unwrap_err();
    assert_eq!(error.message(), "Unexpected command type");
}

#[test]
fn requests_match_their_wire_form() {
    assert_eq!(Request::Get("x".to_string()).encode(), b"{\"Get\":\"x\"}".to_vec());
    assert_eq!(
        Request::Put("x".to_string(), "1".to_string()).encode(),
        b"{\"Set\":[\"x\",\"1\"]}".to_vec()
    );
    assert_eq!(Request::Remove("x".to_string()).encode(), b"{\"Remove\":\"x\"}".to_vec());
}

#[test]
fn responses_match_their_wire_form() {
    assert_eq!(Response::Done(None).encode(), b"{\"Ok\":null}".to_vec());
    assert_eq!(Response::Done(Some("2".to_string())).encode(), b"{\"Ok\":\"2\"}".to_vec());
    assert_eq!(Response::Failed("Key not found".to_string()).encode(), b"{\"Err\":\"Key not found\"}".to_vec());
}

#[test]
fn request_round_trips() {
    let sent = Request::Put("a b".to_string(), "{\"x\":1}".to_string());
    match Request::decode(&sent.encode()) {
        Ok(Request::Put(key, value)) => {
            assert_eq!(key, "a b");
            assert_eq!(value, "{\"x\":1}");
        }
        other => panic!("unexpected {:?}", other),
    }
    assert!(matches!(Request::decode(&Request::Get("k".to_string()).encode()), Ok(Request::Get(k)) if k == "k"));
    assert!(matches!(Request::decode(&Request::Remove("k".to_string()).encode()), Ok(Request::Remove(k)) if k == "k"));
}

#[test]
fn response_round_trips() {
    assert!(matches!(Response::decode(&Response::Done(None).encode()), Ok(Response::Done(None))));
    assert!(matches!(
        Response::decode(&Response::Done(Some("null".to_string())).encode()),
        Ok(Response::Done(Some(v))) if v == "null"
    ));
    assert!(matches!(
        Response::decode(&Response::Failed("no".to_string()).encode()),
        Ok(Response::Failed(m)) if m == "no"
    ));
}

#[test]
fn quoting_is_faithful_on_every_kind_of_text() {
    assert!(quotes_back(""));
    assert!(quotes_back("plain"));
    assert!(quotes_back("\"{}[]:,\\ /"));
    assert!(quotes_back("\u{0}\u{1}\u{8}\u{9}\n\u{b}\u{c}\r\u{1f}\u{7f}"));
    assert!(quotes_back("\u{e9}\u{4e2d}\u{6587}\u{1f600}\u{10ffff}\u{2028}"));
    for code in 0u32..0x3000 {
        if let Some(c) = char::from_u32(code) {
            let text: String = [c, 'x', c].iter().collect();
            assert!(quotes_back(&text), "U+{:04X}", code);
        }
    }
}

#[test]
fn every_text_round_trips_through_a_record() {
    for code in (0u32..0x11_0000).step_by(257) {
        if let Some(c) = char::from_u32(code) {
            let key = format!("k{}", c);
            let value = format!("{}v\\{}", c, c);
            match Command::decode(&Command::Put(key.clone(), value.clone()).encode()) {
                Ok(Command::Put(k, v)) => {
                    assert_eq!(k, key);
                    assert_eq!(v, value);
                }
                other => panic!("U+{:04X}: {:?}", code, other),
            }
        }
    }
}

#[test]
fn records_follow_one_another_in_a_log() {
    let mut log = Command::Put("a".to_string(), "1".to_string()).encode();
    let first = log.len();
    log.extend_from_slice(&Command::Remove("a".to_string()).encode());
    match Command::next_in(&log, 0) {
        Ok(Some((Command::Put(key, value), end))) => {
            assert_eq!((key.as_str(), value.as_str(), end), ("a", "1", first));
        }
        other => panic!("unexpected {:?}", other),
    }
    match Command::next_in(&log, first) {
        Ok(Some((Command::Remove(key), end))) => assert_eq!((key.as_str(), end), ("a", log.len())),
        other => panic!("unexpected {:?}", other),
    }
    assert!(matches!(Command::next_in(&log, log.len()), Ok(None)));
    assert!(matches!(Command::next_in(b"  \n", 0), Ok(None)));
}

#[test]
fn encoding_agrees_with_serde_json_values() {
    let key = "k\"ey\n";
    let value = "v\u{e9}";
    let mut pair = serde_json::Map::new();
    pair.insert(
        "Set".to_string(),
        serde_json::Value::Array(vec![
            serde_json::Value::String(key.to_string()),
            serde_json::Value::String(value.to_string()),
        ]),
    );
    let expected = serde_json::to_vec(&serde_json::Value::Object(pair)).unwrap();
    assert_eq!(Command::Put(key.to_string(), value.to_string()).encode(), expected);
    let parsed: serde_json::Value =
        serde_json::from_slice(&Response::Done(Some(value.to_string())).encode()).unwrap();
    assert_eq!(parsed["Ok"], serde_json::Value::String(value.to_string()));
    let parsed: serde_json::Value = serde_json::from_slice(&Response::Done(None).encode()).unwrap();
    assert_eq!(parsed["Ok"], serde_json::Value::Null);
}

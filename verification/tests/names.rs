use rust_kv::files::{log_file_id, log_file_name, sorted_log_ids, stale_ids};
use rust_kv::selection::{select_engine, Engine};

#[test]
fn log_names_are_decimal_ids_with_suffix() {
    assert_eq!(log_file_name(0), b"0.log".to_vec());
    assert_eq!(log_file_name(7), b"7.log".to_vec());
    assert_eq!(log_file_name(1234567890), b"1234567890.log".to_vec());
    assert_eq!(log_file_name(u64::MAX), b"18446744073709551615.log".to_vec());
}

#[test]
fn log_names_are_read_back() {
    for id in [0u64, 1, 9, 10, 99, 100, 4096, u64::MAX - 1, u64::MAX] {
        assert_eq!(log_file_id(&log_file_name(id)), Some(id));
    }
}

#[test]
fn other_names_are_no_logs() {
    for name in [
        &b""[..], b".log", b"a.log", b"1.txt", b"1.log.log", b"01.log", b"+1.log", b"-1.log", b"1 .log",
        b"1.LOG", b"engine", b"18446744073709551616.log", b"99999999999999999999999.log", b"1.lo", b"1log",
    ] {
        assert_eq!(log_file_id(name), None, "{:?}", String::from_utf8_lossy(name));
    }
}

#[test]
fn directory_listing_is_sorted_and_filtered() {
    let names: Vec<Vec<u8>> = ["10.log", "engine", "2.log", "x.log", "33.log", "2.log", "0.log", "7.txt"]
        .iter()
        .map(|name| name.as_bytes().to_vec())
        .collect();
    assert_eq!(sorted_log_ids(&names), vec![0, 2, 10, 33]);
    assert_eq!(sorted_log_ids(&Vec::new()), Vec::<u64>::new());
}

#[test]
fn ids_below_the_safe_point_are_stale() {
    assert_eq!(stale_ids(&vec![5, 1, 9, 3, 4], 4), vec![1, 3]);
    assert_eq!(stale_ids(&vec![5, 1, 9], 0), Vec::<u64>::new());
    assert_eq!(stale_ids(&vec![5, 1, 9], 10), vec![5, 1, 9]);
}

#[test]
fn engine_names() {
    assert_eq!(Engine::Kvs.name(), "kvs");
    assert_eq!(Engine::Sled.name(), "sled");
    assert_eq!(Engine::named("kvs"), Some(Engine::Kvs));
    assert_eq!(Engine::named("sled"), Some(Engine::Sled));
    assert_eq!(Engine::named("kvs\n"), None);
    assert_eq!(Engine::named(""), None);
}

#[test]
fn engine_selection() {
    assert_eq!(select_engine(None, None).unwrap(), Engine::Kvs);
    assert_eq!(select_engine(None, Some(Engine::Sled)).unwrap(), Engine::Sled);
    assert_eq!(select_engine(Some(Engine::Sled), None).unwrap(), Engine::Sled);
    assert_eq!(select_engine(Some(Engine::Kvs), Some(Engine::Kvs)).unwrap(), Engine::Kvs);
    assert!(select_engine(Some(Engine::Kvs), Some(Engine::Sled)).is_err());
    assert!(select_engine(Some(Engine::Sled), Some(Engine::Kvs)).is_err());
}

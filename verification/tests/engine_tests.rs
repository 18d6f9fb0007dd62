use kvs::engine::sled::Sled;
use kvs::engine::KvsEngine;
use kvs::error::Error;
use kvs::wal::{is_wal_file, parse_wal_file_name, wal_file_name};

// The wrapped engine satisfies the engine contract end to end.
#[test]
fn sled_engine_round_trip() {
    let mut db = Sled::open("/tmp/kvs_sled_engine_test_dir").unwrap();
    db.set("alpha".to_owned(), "one".to_owned()).unwrap();
    assert_eq!(db.get("alpha".to_owned()).unwrap(), Some("one".to_owned()));
    db.set("alpha".to_owned(), "two".to_owned()).unwrap();
    assert_eq!(db.get("alpha".to_owned()).unwrap(), Some("two".to_owned()));
    db.remove("alpha".to_owned()).unwrap();
    assert_eq!(db.get("alpha".to_owned()).unwrap(), None);
    match db.remove("alpha".to_owned()) {
        Err(e) => assert_eq!(e, Error::KeyNotFound),
        Ok(()) => panic!("expected KeyNotFound"),
    }
}

#[test]
fn wal_file_names() {
    assert_eq!(wal_file_name(0), "0000.wal");
    assert_eq!(wal_file_name(42), "0042.wal");
    assert_eq!(wal_file_name(9999), "9999.wal");
    assert_eq!(wal_file_name(12345), "12345.wal");
    assert_eq!(parse_wal_file_name("0042.wal"), Some(42));
    assert_eq!(parse_wal_file_name("9999.wal"), Some(9999));
    assert_eq!(parse_wal_file_name("004.wal"), None);
    assert_eq!(parse_wal_file_name("00x2.wal"), None);
    assert_eq!(parse_wal_file_name("0042.txt"), None);
    assert_eq!(parse_wal_file_name(""), None);
    assert!(is_wal_file("0000.wal"));
    assert!(!is_wal_file("conf"));
}

// A value that another program stored as non-UTF-8 bytes is outside the
// engine's map: reading it is a storage error, never a wrong answer, and
// removing it reports the key as not found.
#[test]
fn sled_engine_rejects_undecodable_value() {
    let mut db = Sled::open("/tmp/kvs_sled_engine_raw_dir").unwrap();
    db.db.insert("raw".as_bytes(), &[0xff, 0xfe][..]).unwrap();
    match db.get("raw".to_owned()) {
        Err(e) => assert_eq!(e, Error::Storage),
        Ok(v) => panic!("expected Storage error, got {:?}", v),
    }
    match db.remove("raw".to_owned()) {
        Err(e) => assert_eq!(e, Error::KeyNotFound),
        Ok(()) => panic!("expected KeyNotFound"),
    }
    assert_eq!(db.get("raw".to_owned()).unwrap(), None);
}

use kvs::error::Error;
use kvs::store::DiskOp;
use kvs::store::KvStore;
use kvs::wal::Segment;

fn open_empty() -> KvStore {
    KvStore::open(Vec::new()).unwrap()
}

// Should get previously stored value
#[test]
fn get_stored_value() {
    let mut store = open_empty();

    store.set("key1".to_owned(), "value1".to_owned()).unwrap();
    store.set("key2".to_owned(), "value2".to_owned()).unwrap();

    assert_eq!(store.get("key1".to_owned()).unwrap(), Some("value1".to_owned()));
    assert_eq!(store.get("key2".to_owned()).unwrap(), Some("value2".to_owned()));
}

// Should overwrite existent value
#[test]
fn overwrite_value() {
    let mut store = open_empty();

    store.set("key1".to_owned(), "value1".to_owned()).unwrap();
    assert_eq!(store.get("key1".to_owned()).unwrap(), Some("value1".to_owned()));

    store.set("key1".to_owned(), "value2".to_owned()).unwrap();
    assert_eq!(store.get("key1".to_owned()).unwrap(), Some("value2".to_owned()));
}

// Should get `None` when getting a non-existent key
#[test]
fn get_non_existent_value() {
    let mut store = open_empty();

    store.set("key1".to_owned(), "value1".to_owned()).unwrap();
    assert_eq!(store.get("key2".to_owned()).unwrap(), None);
}

#[test]
fn remove_key() {
    let mut store = open_empty();

    store.set("key1".to_owned(), "value1".to_owned()).unwrap();
    store.remove("key1".to_owned()).unwrap();
    assert_eq!(store.get("key1".to_owned()).unwrap(), None);
}

#[test]
fn remove_absent_key_fails() {
    let mut store = open_empty();
    match store.remove("missing".to_owned()) {
        Err(Error::KeyNotFound) => {}
        other => panic!("expected KeyNotFound, got {:?}", other),
    }
}

// Overwrite survives restart.
#[test]
fn overwrite_survives_restart() {
    let mut store = open_empty();
    store.set("k".to_owned(), "v1".to_owned()).unwrap();
    store.set("k".to_owned(), "v2".to_owned()).unwrap();
    let segments = store.into_segments();
    let mut reopened = KvStore::open(segments).unwrap();
    assert_eq!(reopened.get("k".to_owned()).unwrap(), Some("v2".to_owned()));
}

// Delete survives restart.
#[test]
fn delete_survives_restart() {
    let mut store = open_empty();
    store.set("a".to_owned(), "1".to_owned()).unwrap();
    store.remove("a".to_owned()).unwrap();
    let segments = store.into_segments();
    let mut reopened = KvStore::open(segments).unwrap();
    assert_eq!(reopened.get("a".to_owned()).unwrap(), None);
    match reopened.remove("a".to_owned()) {
        Err(Error::KeyNotFound) => {}
        other => panic!("expected KeyNotFound, got {:?}", other),
    }
}

// Rotation correctness: 250 distinct keys cross the rotation threshold
// twice, leaving segments 0000, 0002 and 0004.
#[test]
fn rotation_correctness() {
    let mut store = open_empty();
    for i in 0..250 {
        store.set(format!("k{}", i), format!("v{}", i)).unwrap();
    }
    let ids = store.segment_ids();
    assert!(ids.len() >= 3);
    assert_eq!(&ids[..3], &[0, 2, 4]);
    for i in 0..250 {
        assert_eq!(store.get(format!("k{}", i)).unwrap(), Some(format!("v{}", i)));
    }
}

// Compaction triggered by segment count: once six segments exist, the
// next rotation compacts first, producing merged segment `active - 1` and
// shrinking the segment set; every live key keeps its value.
#[test]
fn compaction_triggered_by_segment_count() {
    let mut store = open_empty();
    for i in 0..600 {
        store.set(format!("k{}", i), format!("v{}", i)).unwrap();
    }
    assert_eq!(store.segment_ids(), vec![0, 2, 4, 6, 8, 10]);
    assert_eq!(store.num_segments(), 6);

    // the next set rotates, which compacts first
    store.set("k600".to_owned(), "v600".to_owned()).unwrap();
    let ids = store.segment_ids();
    assert_eq!(ids, vec![9, 10, 12]);
    assert!(store.num_segments() < 6);
    assert_eq!(store.active_segment_id(), 12);

    for i in 0..601 {
        assert_eq!(store.get(format!("k{}", i)).unwrap(), Some(format!("v{}", i)));
    }
}

// Compaction preserves every live binding and every absence.
#[test]
fn compaction_preserves_bindings() {
    let mut store = open_empty();
    for i in 0..550 {
        store.set(format!("k{}", i), format!("v{}", i)).unwrap();
    }
    store.remove("k3".to_owned()).unwrap();
    store.set("k5".to_owned(), "fresh".to_owned()).unwrap();
    store.merge().unwrap();
    assert_eq!(store.get("k3".to_owned()).unwrap(), None);
    assert_eq!(store.get("k5".to_owned()).unwrap(), Some("fresh".to_owned()));
    assert_eq!(store.get("k4".to_owned()).unwrap(), Some("v4".to_owned()));
    assert_eq!(store.get("k549".to_owned()).unwrap(), Some("v549".to_owned()));
}

// Crash tail tolerance: a partial line at the end of the active segment
// is ignored by recovery; the records before it survive.
#[test]
fn crash_tail_tolerance() {
    let mut store = open_empty();
    store.set("good".to_owned(), "kept".to_owned()).unwrap();
    let mut segments = store.into_segments();
    let last = segments.last_mut().unwrap();
    for c in "{\"Set\":[\"torn".chars() {
        last.data.push(c);
    }
    let mut reopened = KvStore::open(segments).unwrap();
    assert_eq!(reopened.get("good".to_owned()).unwrap(), Some("kept".to_owned()));
    assert_eq!(reopened.get("torn".to_owned()).unwrap(), None);
    // the store keeps working after recovery
    reopened.set("after".to_owned(), "ok".to_owned()).unwrap();
    assert_eq!(reopened.get("after".to_owned()).unwrap(), Some("ok".to_owned()));
}

// A corrupt complete line stops replay at the last good record.
#[test]
fn corrupt_line_stops_replay() {
    let mut store = open_empty();
    store.set("good".to_owned(), "kept".to_owned()).unwrap();
    store.set("later".to_owned(), "lost".to_owned()).unwrap();
    let mut segments = store.into_segments();
    let last = segments.last_mut().unwrap();
    // overwrite the second record's opening brace
    let good_len = "{\"Set\":[\"good\",\"kept\"]}\n".len();
    last.data[good_len] = '#';
    let mut reopened = KvStore::open(segments).unwrap();
    assert_eq!(reopened.get("good".to_owned()).unwrap(), Some("kept".to_owned()));
    assert_eq!(reopened.get("later".to_owned()).unwrap(), None);
}

// Keys and values with quotes, backslashes, newlines and non-ASCII
// characters survive a write, a restart and a compaction.
#[test]
fn escaping_round_trip() {
    let mut store = open_empty();
    let key = "we\"ird\\key\n\ttab".to_owned();
    let val = "v\u{7}al\u{1f}ue\r\u{c}\u{8}éß".to_owned();
    store.set(key.clone(), val.clone()).unwrap();
    assert_eq!(store.get(key.clone()).unwrap(), Some(val.clone()));
    let segments = store.into_segments();
    let mut reopened = KvStore::open(segments).unwrap();
    assert_eq!(reopened.get(key.clone()).unwrap(), Some(val));
}

// Opening out-of-order segments is refused only for duplicate ids.
#[test]
fn open_duplicate_ids_is_storage_error() {
    let segments = vec![
        Segment { id: 4, data: Vec::new() },
        Segment { id: 4, data: Vec::new() },
    ];
    match KvStore::open(segments) {
        Err(e) => assert_eq!(e, Error::Storage),
        Ok(_) => panic!("expected Storage error"),
    }
}

// The active segment is the one with the largest id.
#[test]
fn active_wal_file_picks_largest() {
    assert_eq!(KvStore::active_wal_file(&Vec::new()), None);
    let segments = vec![
        Segment { id: 0, data: Vec::new() },
        Segment { id: 6, data: Vec::new() },
        Segment { id: 2, data: Vec::new() },
    ];
    assert_eq!(KvStore::active_wal_file(&segments), Some(6));
}

// Every segment mutation is mirrored into the pending disk operations.
#[test]
fn pending_ops_record_appends() {
    let mut store = open_empty();
    let ops = store.take_pending_ops();
    assert_eq!(ops.len(), 1);
    match &ops[0] {
        DiskOp::CreateSegment(id) => assert_eq!(*id, 0),
        other => panic!("expected CreateSegment, got {:?}", other),
    }
    store.set("k".to_owned(), "v".to_owned()).unwrap();
    let ops = store.take_pending_ops();
    assert_eq!(ops.len(), 1);
    match &ops[0] {
        DiskOp::AppendSegment(id, text) => {
            assert_eq!(*id, 0);
            let line: String = text.iter().collect();
            assert_eq!(line, "{\"Set\":[\"k\",\"v\"]}\n");
        }
        other => panic!("expected AppendSegment, got {:?}", other),
    }
    assert!(store.take_pending_ops().is_empty());
}

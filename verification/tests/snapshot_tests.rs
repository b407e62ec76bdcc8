use miniredis::db::DB;
use miniredis::resp::Value;
use miniredis::snapshot::fallback_snapshot;

#[test]
fn parse_rdb_test() {
    let db = DB::new(vec![]);
    db.parse_rdb(&fallback_snapshot()).expect("the built-in snapshot must decode");
}

#[test]
fn fallback_holds_exactly_banana_mango_without_expiry() {
    let db = DB::new(vec![]);
    let mut db = db.parse_rdb(&fallback_snapshot()).expect("must decode");
    let keys = db.keys();
    assert_eq!(keys.len(), 1);
    assert_eq!(keys[0], b"banana".to_vec());
    let v = db.get(b"banana", 0).expect("key must be present");
    match v {
        Value::SimpleString(s) => assert_eq!(s, b"mango".to_vec()),
        _ => panic!("expected a string value"),
    }
    // No expiry: still present at the latest representable time.
    assert!(db.get(b"banana", u64::MAX).is_some());
}

#[test]
fn snapshot_with_expiry_opcodes() {
    // 0xFE db 0xFB sizes, record with 0xFD (seconds) expiry, then EOF.
    let bytes = vec![
        0xfe, 0x00, 0xfb, 0x01, 0x01, // selector, index, resize hint
        0xfd, 0x02, 0x00, 0x00, 0x00, // expiry: 2 seconds since the epoch
        0x00, // value type
        0x01, b'k', // key "k"
        0x01, b'v', // value "v"
        0xff,
    ];
    let db = DB::new(vec![]);
    let mut db = db.parse_rdb(&bytes).expect("must decode");
    // 2 seconds = 2000 ms: live just before, gone from that instant on.
    assert!(db.get(b"k", 1999).is_some());
    assert!(db.get(b"k", 2000).is_none());
}

#[test]
fn snapshot_with_millisecond_expiry_opcode() {
    let bytes = vec![
        0xfe, 0x00, 0xfb, 0x01, 0x01,
        0xfc, 0xd0, 0x07, 0x00, 0x00, 0x00, 0x00, 0x00, 0x00, // 2000 ms
        0x00, 0x01, b'k', 0x01, b'v',
        0xff,
    ];
    let db = DB::new(vec![]);
    let mut db = db.parse_rdb(&bytes).expect("must decode");
    assert!(db.get(b"k", 1999).is_some());
    assert!(db.get(b"k", 2000).is_none());
}

#[test]
fn snapshot_length_encodings() {
    // A 14-bit length key (0x40 prefix) and an immediate-integer value.
    let mut bytes = vec![0xfe, 0x00, 0xfb, 0x01, 0x00, 0x00];
    bytes.extend_from_slice(&[0x40, 0x03]); // 14-bit length: 3
    bytes.extend_from_slice(b"abc");
    bytes.extend_from_slice(&[0xc0, 0x40]); // immediate 8-bit integer 64
    bytes.push(0xff);
    let db = DB::new(vec![]);
    let mut db = db.parse_rdb(&bytes).expect("must decode");
    let v = db.get(b"abc", 0).expect("key must be present");
    match v {
        Value::SimpleString(s) => assert_eq!(s, b"64".to_vec()),
        _ => panic!("expected a string value"),
    }
}

#[test]
fn truncated_snapshot_is_fatal() {
    // Missing records and end-of-file marker.
    let bytes = vec![0xfe, 0x00, 0xfb, 0x01, 0x01];
    assert!(DB::new(vec![]).parse_rdb(&bytes).is_err());
    // No database selector at all.
    assert!(DB::new(vec![]).parse_rdb(&[0x52, 0x45, 0x44]).is_err());
    // Selector present but resize-hint marker missing.
    assert!(DB::new(vec![]).parse_rdb(&[0xfe, 0x00, 0x00, 0xff]).is_err());
    // Record key runs past the end.
    assert!(DB::new(vec![]).parse_rdb(&[0xfe, 0x00, 0xfb, 0x01, 0x01, 0x00, 0x05, b'a']).is_err());
}

#[test]
fn later_record_overwrites_earlier_for_same_key() {
    let bytes = vec![
        0xfe, 0x00, 0xfb, 0x02, 0x00,
        0x00, 0x01, b'k', 0x01, b'1',
        0x00, 0x01, b'k', 0x01, b'2',
        0xff,
    ];
    let db = DB::new(vec![]);
    let mut db = db.parse_rdb(&bytes).expect("must decode");
    assert_eq!(db.keys().len(), 1);
    let v = db.get(b"k", 0).expect("present");
    match v {
        Value::SimpleString(s) => assert_eq!(s, b"2".to_vec()),
        _ => panic!("expected a string value"),
    }
}

use miniredis::db::DB;
use miniredis::resp::Value;

fn empty_db() -> DB {
    DB::new(vec![])
}

#[test]
fn set_then_get_returns_the_value() {
    let mut db = empty_db();
    db.set(b"k".to_vec(), Value::BulkString(b"v".to_vec()), None);
    let got = db.get(b"k", 0).expect("key must be present");
    assert_eq!(got.serialize(), Value::BulkString(b"v".to_vec()).serialize());
}

#[test]
fn second_set_overwrites_wholesale() {
    let mut db = empty_db();
    db.set(b"k".to_vec(), Value::BulkString(b"v".to_vec()), None);
    db.set(b"k".to_vec(), Value::BulkString(b"v2".to_vec()), None);
    let got = db.get(b"k", 0).expect("key must be present");
    assert_eq!(got.serialize(), Value::BulkString(b"v2".to_vec()).serialize());
    assert_ne!(got.serialize(), Value::BulkString(b"v".to_vec()).serialize());
    assert_eq!(db.keys().len(), 1);
}

#[test]
fn get_of_absent_key_is_none() {
    let mut db = empty_db();
    assert!(db.get(b"missing", 0).is_none());
}

#[test]
fn expiry_boundary() {
    let now: u64 = 1_000_000;
    let mut db = empty_db();
    db.set(b"k".to_vec(), Value::BulkString(b"v".to_vec()), Some(now + 100));
    assert!(db.get(b"k", now).is_some());
    assert!(db.get(b"k", now + 99).is_some());
    // From the expiry instant on the entry reads as absent and is removed.
    assert!(db.get(b"k", now + 150).is_none());
    assert_eq!(db.keys().len(), 0);
}

#[test]
fn entry_without_expiry_never_expires() {
    let mut db = empty_db();
    db.set(b"k".to_vec(), Value::BulkString(b"v".to_vec()), None);
    assert!(db.get(b"k", u64::MAX).is_some());
}

#[test]
fn append_to_list_creates_and_extends() {
    let mut db = empty_db();
    let first = vec![Value::BulkString(b"a".to_vec())];
    assert_eq!(db.append_to_list(b"list", &first), Ok(1));
    let more = vec![
        Value::BulkString(b"b".to_vec()),
        Value::BulkString(b"c".to_vec()),
    ];
    assert_eq!(db.append_to_list(b"list", &more), Ok(3));
    let got = db.get(b"list", 0).expect("list must be present");
    let expected = Value::Array(vec![
        Value::BulkString(b"a".to_vec()),
        Value::BulkString(b"b".to_vec()),
        Value::BulkString(b"c".to_vec()),
    ]);
    assert_eq!(got.serialize(), expected.serialize());
}

#[test]
fn append_to_list_against_string_fails_and_changes_nothing() {
    let mut db = empty_db();
    db.set(b"k".to_vec(), Value::BulkString(b"text".to_vec()), None);
    let pushed = vec![Value::BulkString(b"x".to_vec())];
    assert_eq!(db.append_to_list(b"k", &pushed), Err(()));
    let got = db.get(b"k", 0).expect("entry must be unchanged");
    assert_eq!(got.serialize(), Value::BulkString(b"text".to_vec()).serialize());
}

#[test]
fn keys_lists_all_keys_in_storage_order() {
    let mut db = empty_db();
    db.set(b"one".to_vec(), Value::Integer(1), None);
    db.set(b"two".to_vec(), Value::Integer(2), None);
    let keys = db.keys();
    assert_eq!(keys, vec![b"one".to_vec(), b"two".to_vec()]);
}

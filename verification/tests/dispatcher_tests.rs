use miniredis::commands::{eval_command, CommandError};
use miniredis::db::DB;
use miniredis::process;
use miniredis::resp::Value;

fn request(parts: &[&[u8]]) -> Value {
    Value::Array(parts.iter().map(|p| Value::BulkString(p.to_vec())).collect())
}

fn empty_db() -> DB {
    DB::new(vec![])
}

#[test]
fn ping_returns_pong() {
    let mut db = empty_db();
    let r = eval_command(&request(&[b"PING"]), &mut db, 0).expect("ping must succeed");
    assert_eq!(r.serialize(), b"+PONG\r\n".to_vec());
}

#[test]
fn ping_with_message_returns_the_message() {
    let mut db = empty_db();
    let r = eval_command(&request(&[b"PING", b"Hello"]), &mut db, 0).expect("must succeed");
    assert_eq!(r.serialize(), b"$5\r\nHello\r\n".to_vec());
}

#[test]
fn echo_returns_its_argument() {
    let mut db = empty_db();
    let r =
        eval_command(&request(&[b"ECHO", b"test message"]), &mut db, 0).expect("must succeed");
    assert_eq!(r.serialize(), b"$12\r\ntest message\r\n".to_vec());
}

#[test]
fn set_and_get() {
    let mut db = empty_db();
    let r = eval_command(&request(&[b"SET", b"key1", b"value1"]), &mut db, 0)
        .expect("set must succeed");
    assert_eq!(r.serialize(), b"+OK\r\n".to_vec());
    let r = eval_command(&request(&[b"GET", b"key1"]), &mut db, 0).expect("get must succeed");
    assert_eq!(r.serialize(), b"$6\r\nvalue1\r\n".to_vec());
}

#[test]
fn get_nonexistent_key_is_null() {
    let mut db = empty_db();
    let r = eval_command(&request(&[b"GET", b"nonexistent"]), &mut db, 0)
        .expect("get must succeed");
    assert_eq!(r.serialize(), b"$-1\r\n".to_vec());
}

#[test]
fn set_with_expiry_modifier() {
    let now: u64 = 5_000;
    let mut db = empty_db();
    let r = eval_command(
        &request(&[b"SET", b"tempkey", b"tempvalue", b"px", b"100"]),
        &mut db,
        now,
    )
    .expect("set must succeed");
    assert_eq!(r.serialize(), b"+OK\r\n".to_vec());
    let r = eval_command(&request(&[b"GET", b"tempkey"]), &mut db, now).expect("get");
    assert_eq!(r.serialize(), b"$9\r\ntempvalue\r\n".to_vec());
    let r = eval_command(&request(&[b"GET", b"tempkey"]), &mut db, now + 150).expect("get");
    assert_eq!(r.serialize(), b"$-1\r\n".to_vec());
}

#[test]
fn set_with_unparsable_expiry_fails() {
    let mut db = empty_db();
    let r = eval_command(&request(&[b"SET", b"k", b"v", b"px", b"soon"]), &mut db, 0);
    assert!(matches!(r, Err(CommandError::BadExpiry)));
    let r = eval_command(&request(&[b"GET", b"k"]), &mut db, 0).expect("get");
    assert_eq!(r.serialize(), b"$-1\r\n".to_vec());
}

#[test]
fn set_with_wrong_argument_count_fails() {
    let mut db = empty_db();
    let r = eval_command(&request(&[b"SET", b"key"]), &mut db, 0);
    assert!(matches!(r, Err(CommandError::WrongArgCount)));
}

#[test]
fn unknown_command_is_reported_with_its_name() {
    let mut db = empty_db();
    let r = eval_command(&request(&[b"FROBNICATE", b"x"]), &mut db, 0);
    match r {
        Err(CommandError::UnknownCommand(name)) => assert_eq!(name, b"FROBNICATE".to_vec()),
        _ => panic!("expected an unknown-command failure"),
    }
    // The store is unaltered.
    assert_eq!(db.keys().len(), 0);
}

#[test]
fn unknown_command_reply_names_the_command() {
    let reply = CommandError::UnknownCommand(b"FROBNICATE".to_vec()).reply();
    assert_eq!(reply, b"-ERR unknown command 'FROBNICATE'\r\n".to_vec());
}

#[test]
fn rpush_against_string_fails_with_type_mismatch() {
    let mut db = empty_db();
    eval_command(&request(&[b"SET", b"mykey", b"string_value"]), &mut db, 0)
        .expect("set must succeed");
    let r = eval_command(&request(&[b"RPUSH", b"mykey", b"element"]), &mut db, 0);
    assert!(matches!(r, Err(CommandError::WrongType)));
    let reply = CommandError::WrongType.reply();
    assert!(reply.starts_with(b"-WRONGTYPE"));
    // The entry is left unchanged.
    let r = eval_command(&request(&[b"GET", b"mykey"]), &mut db, 0).expect("get");
    assert_eq!(r.serialize(), b"$12\r\nstring_value\r\n".to_vec());
}

#[test]
fn rpush_returns_new_length() {
    let mut db = empty_db();
    let r = eval_command(&request(&[b"RPUSH", b"mylist", b"element1"]), &mut db, 0)
        .expect("rpush must succeed");
    assert_eq!(r.serialize(), b":1\r\n".to_vec());
    let r = eval_command(
        &request(&[b"RPUSH", b"mylist", b"element2", b"element3"]),
        &mut db,
        0,
    )
    .expect("rpush must succeed");
    assert_eq!(r.serialize(), b":3\r\n".to_vec());
}

#[test]
fn keys_universal_pattern_lists_keys() {
    let mut db = empty_db();
    eval_command(&request(&[b"SET", b"a", b"1"]), &mut db, 0).expect("set");
    eval_command(&request(&[b"SET", b"b", b"2"]), &mut db, 0).expect("set");
    let r = eval_command(&request(&[b"KEYS", b"*"]), &mut db, 0).expect("keys must succeed");
    assert_eq!(r.serialize(), b"*2\r\n$1\r\na\r\n$1\r\nb\r\n".to_vec());
}

#[test]
fn keys_with_other_pattern_is_unsupported() {
    let mut db = empty_db();
    let r = eval_command(&request(&[b"KEYS", b"a*"]), &mut db, 0);
    assert!(matches!(r, Err(CommandError::UnsupportedPattern)));
}

#[test]
fn config_get_returns_field_and_value() {
    let mut db = DB::new(vec![
        "--dir".to_string(),
        "/data".to_string(),
        "--dbfilename".to_string(),
        "snap.rdb".to_string(),
    ]);
    let r = eval_command(&request(&[b"CONFIG", b"GET", b"dir"]), &mut db, 0).expect("config");
    assert_eq!(r.serialize(), b"*2\r\n$3\r\ndir\r\n$5\r\n/data\r\n".to_vec());
    let r =
        eval_command(&request(&[b"CONFIG", b"GET", b"dbfilename"]), &mut db, 0).expect("config");
    assert_eq!(r.serialize(), b"*2\r\n$10\r\ndbfilename\r\n$8\r\nsnap.rdb\r\n".to_vec());
    let r = eval_command(&request(&[b"CONFIG", b"GET", b"other"]), &mut db, 0);
    assert!(matches!(r, Err(CommandError::UnknownConfig(_))));
}

#[test]
fn echo_without_argument_is_rejected() {
    let mut db = empty_db();
    let r = eval_command(&request(&[b"ECHO"]), &mut db, 0);
    assert!(matches!(r, Err(CommandError::WrongArgCount)));
}

#[test]
fn ping_with_two_arguments_is_rejected() {
    let mut db = empty_db();
    let r = eval_command(&request(&[b"PING", b"a", b"b"]), &mut db, 0);
    assert!(matches!(r, Err(CommandError::WrongArgCount)));
}

#[test]
fn command_names_match_case_sensitively() {
    let mut db = empty_db();
    let r = eval_command(&request(&[b"ping"]), &mut db, 0);
    match r {
        Err(CommandError::UnknownCommand(name)) => assert_eq!(name, b"ping".to_vec()),
        _ => panic!("lower-case name must not match"),
    }
}

#[test]
fn process_parses_one_value_and_ignores_trailing_bytes() {
    let mut db = empty_db();
    let out = process(b"*1\r\n$4\r\nPING\r\n*1\r\n$4\r\nPING\r\n", &mut db, 0)
        .expect("first frame is complete");
    assert_eq!(out, b"+PONG\r\n".to_vec());
}

#[test]
fn non_string_argument_is_rejected() {
    let mut db = empty_db();
    let req = Value::Array(vec![
        Value::BulkString(b"GET".to_vec()),
        Value::Integer(5),
    ]);
    let r = eval_command(&req, &mut db, 0);
    assert!(matches!(r, Err(CommandError::BadArgument)));
}

#[test]
fn expiry_too_large_for_the_clock_is_rejected() {
    let mut db = empty_db();
    let r = eval_command(
        &request(&[b"SET", b"k", b"v", b"px", b"99999999999999999999999999"]),
        &mut db,
        0,
    );
    assert!(matches!(r, Err(CommandError::BadExpiry)));
}

#[test]
fn malformed_requests_fail() {
    let mut db = empty_db();
    let r = eval_command(&Value::Integer(1), &mut db, 0);
    assert!(matches!(r, Err(CommandError::Malformed)));
    let r = eval_command(&Value::Array(vec![]), &mut db, 0);
    assert!(matches!(r, Err(CommandError::Malformed)));
    let r = eval_command(&Value::Array(vec![Value::Integer(1)]), &mut db, 0);
    assert!(matches!(r, Err(CommandError::Malformed)));
}

#[test]
fn process_handles_one_wire_request() {
    let mut db = empty_db();
    let out = process(b"*1\r\n$4\r\nPING\r\n", &mut db, 0).expect("well-formed frame");
    assert_eq!(out, b"+PONG\r\n".to_vec());
}

#[test]
fn process_serializes_command_errors() {
    let mut db = empty_db();
    let out = process(b"*2\r\n$7\r\nUNKNOWN\r\n$3\r\narg\r\n", &mut db, 0)
        .expect("well-formed frame");
    assert!(out.starts_with(b"-ERR"));
    let text = String::from_utf8(out).expect("ascii reply");
    assert!(text.contains("UNKNOWN"));
}

#[test]
fn process_rejects_protocol_errors() {
    let mut db = empty_db();
    assert!(process(b"garbage", &mut db, 0).is_none());
    assert!(process(b"*1\r\n$4\r\nPI", &mut db, 0).is_none());
}

#[test]
fn process_set_is_visible_to_later_get() {
    let mut db = empty_db();
    let out = process(b"*3\r\n$3\r\nSET\r\n$6\r\nshared\r\n$4\r\ndata\r\n", &mut db, 0)
        .expect("set frame");
    assert_eq!(out, b"+OK\r\n".to_vec());
    // A get issued after the set's response was observed sees the value,
    // whichever connection sends it: the store is the single shared state.
    let out = process(b"*2\r\n$3\r\nGET\r\n$6\r\nshared\r\n", &mut db, 0).expect("get frame");
    assert_eq!(out, b"$4\r\ndata\r\n".to_vec());
}

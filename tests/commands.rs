use bytes::{Bytes, BytesMut};
use miniredis::commands::{lookup_reply, Command};
use miniredis::protocol::{decode, RespType};
use miniredis::storage::{Db, Store};

fn bulk(s: &[u8]) -> RespType {
    RespType::BulkString(s.to_vec())
}

fn request(parts: &[&[u8]]) -> RespType {
    RespType::Array(parts.iter().map(|p| bulk(p)).collect())
}

fn reply_error(r: Result<Command, String>) -> String {
    match r {
        Err(msg) => msg,
        Ok(_) => panic!("expected the request to be refused"),
    }
}

#[test]
fn test_parse_get_command() {
    let input = RespType::Array(vec![
        RespType::BulkString(b"GET".to_vec()),
        RespType::BulkString(b"mykey".to_vec()),
    ]);

    let cmd = Command::from_resp(input).unwrap();

    match cmd {
        Command::Get(key) => assert_eq!(key, "mykey"),
        _ => panic!("Expected Get command"),
    }
}

#[test]
fn test_set_and_get_execution() {
    let mut db = Store::new();

    let set_cmd = Command::SetKey("foo".to_string(), Bytes::from("bar"));
    let res1 = set_cmd.execute(&mut db);

    match res1 {
        RespType::SimpleString(s) => assert_eq!(s, "OK"),
        _ => panic!("Expected OK response"),
    }

    let get_cmd = Command::Get("foo".to_string());
    let res2 = get_cmd.execute(&mut db);

    match res2 {
        RespType::BulkString(data) => assert_eq!(data, b"bar"),
        _ => panic!("Expected BulkString('bar')"),
    }
}

#[test]
fn test_parse_invalid_command() {
    let input = RespType::Array(vec![
        RespType::BulkString(b"SET".to_vec()),
        RespType::BulkString(b"key".to_vec()),
    ]);

    let result = Command::from_resp(input);
    assert!(result.is_err());
}

#[test]
fn test_del_execution() {
    let mut db = Store::new();

    db.set("temp".to_string(), Bytes::from("val"));

    let del_cmd = Command::Del("temp".to_string());
    let res = del_cmd.execute(&mut db);

    match res {
        RespType::Integer(n) => assert_eq!(n, 1),
        _ => panic!("Expected Integer(1)"),
    }

    assert!(db.get("temp").is_none());
}

#[test]
fn decoded_request_becomes_get() {
    let mut buffer = BytesMut::from("*2\r\n$3\r\nGET\r\n$3\r\nfoo\r\n");
    let frame = decode(&mut buffer).unwrap().unwrap();
    match Command::from_resp(frame).unwrap() {
        Command::Get(key) => assert_eq!(key, "foo"),
        _ => panic!("expected Get"),
    }
}

#[test]
fn set_get_delete_get() {
    let mut db = Store::new();
    let r = Command::SetKey("foo".to_string(), Bytes::from("bar")).execute(&mut db);
    assert!(matches!(r, RespType::SimpleString(ref s) if s == "OK"));
    match Command::Get("foo".to_string()).execute(&mut db) {
        RespType::BulkString(d) => assert_eq!(d, b"bar"),
        other => panic!("got {:?}", other),
    }
    assert!(matches!(Command::Del("foo".to_string()).execute(&mut db), RespType::Integer(1)));
    assert!(matches!(Command::Get("foo".to_string()).execute(&mut db), RespType::Null));
    // Deleting a key that is not there answers 1 all the same.
    assert!(matches!(Command::Del("foo".to_string()).execute(&mut db), RespType::Integer(1)));
}

#[test]
fn name_case_does_not_matter() {
    for name in [&b"get"[..], b"GET", b"gEt"] {
        match Command::from_resp(request(&[name, b"k"])).unwrap() {
            Command::Get(key) => assert_eq!(key, "k"),
            _ => panic!("expected Get"),
        }
    }
    match Command::from_resp(request(&[b"sEt", b"k", b"v"])).unwrap() {
        Command::SetKey(key, value) => {
            assert_eq!(key, "k");
            assert_eq!(value, "v");
        }
        _ => panic!("expected SetKey"),
    }
    assert!(matches!(Command::from_resp(request(&[b"del", b"k"])).unwrap(), Command::Del(_)));
    assert!(matches!(Command::from_resp(request(&[b"Ping"])).unwrap(), Command::Ping(None)));
}

#[test]
fn arity_errors() {
    assert_eq!(
        reply_error(Command::from_resp(request(&[b"SET", b"key"]))),
        "SET requires exactly 2 arguments"
    );
    assert_eq!(
        reply_error(Command::from_resp(request(&[b"GET"]))),
        "GET requires exactly 1 argument"
    );
    assert_eq!(
        reply_error(Command::from_resp(request(&[b"DEL", b"a", b"b"]))),
        "DEL requires exactly 1 argument"
    );
    assert_eq!(
        reply_error(Command::from_resp(request(&[b"PING", b"a", b"b"]))),
        "PING accepts at most 1 argument"
    );
}

#[test]
fn shape_errors() {
    assert_eq!(reply_error(Command::from_resp(bulk(b"GET"))), "Command must be an Array");
    assert_eq!(reply_error(Command::from_resp(RespType::Null)), "Command must be an Array");
    assert_eq!(reply_error(Command::from_resp(RespType::Array(vec![]))), "Empty command");
    assert_eq!(
        reply_error(Command::from_resp(RespType::Array(vec![RespType::Integer(1)]))),
        "Command name must be a BulkString"
    );
    assert_eq!(
        reply_error(Command::from_resp(RespType::Array(vec![bulk(b"GET"), RespType::Integer(1)]))),
        "GET key must be a BulkString"
    );
    assert_eq!(
        reply_error(Command::from_resp(RespType::Array(vec![
            bulk(b"SET"),
            bulk(b"k"),
            RespType::Null
        ]))),
        "SET value must be a BulkString"
    );
    assert_eq!(
        reply_error(Command::from_resp(request(&[b"GET", b"\xff"]))),
        "GET key must be valid UTF-8"
    );
    assert_eq!(
        reply_error(Command::from_resp(request(&[b"\xff"]))),
        "Command name must be valid UTF-8"
    );
}

#[test]
fn unknown_command_is_answered_with_an_error() {
    let cmd = Command::from_resp(request(&[b"flushall", b"x"])).unwrap();
    match cmd {
        Command::Unknown(ref name) => assert_eq!(name, "FLUSHALL"),
        _ => panic!("expected Unknown"),
    }
    let mut store = Store::new();
    store.set("k".to_string(), Bytes::from("v"));
    match cmd.execute(&mut store) {
        RespType::Error(msg) => assert_eq!(msg, "unknown command 'FLUSHALL'"),
        other => panic!("got {:?}", other),
    }
    assert_eq!(store.get("k").unwrap(), "v");
}

#[test]
fn ping_replies() {
    let mut db = Store::new();
    match Command::from_resp(request(&[b"PING"])).unwrap().execute(&mut db) {
        RespType::SimpleString(s) => assert_eq!(s, "PONG"),
        other => panic!("got {:?}", other),
    }
    match Command::from_resp(request(&[b"PING", b"hi there"])).unwrap().execute(&mut db) {
        RespType::BulkString(d) => assert_eq!(d, b"hi there"),
        other => panic!("got {:?}", other),
    }
}

#[test]
fn set_value_may_be_any_bytes() {
    let mut db = Store::new();
    let cmd = Command::from_resp(request(&[b"SET", b"k", b"\x00\xff\r\n"])).unwrap();
    cmd.execute(&mut db);
    match Command::Get("k".to_string()).execute(&mut db) {
        RespType::BulkString(d) => assert_eq!(d, b"\x00\xff\r\n"),
        other => panic!("got {:?}", other),
    }
}

#[test]
fn lookup_reply_shapes() {
    match lookup_reply(Some(Bytes::from("xyz"))) {
        RespType::BulkString(d) => assert_eq!(d, b"xyz"),
        other => panic!("got {:?}", other),
    }
    assert!(matches!(lookup_reply(None), RespType::Null));
}

#[test]
fn shared_store_runs_commands() {
    let db = Db::new();
    let other = db.clone();
    assert!(matches!(
        other.run(Command::SetKey("foo".to_string(), Bytes::from("bar"))),
        RespType::SimpleString(ref s) if s == "OK"
    ));
    match db.run(Command::Get("foo".to_string())) {
        RespType::BulkString(d) => assert_eq!(d, b"bar"),
        other => panic!("got {:?}", other),
    }
    assert!(matches!(db.run(Command::Del("foo".to_string())), RespType::Integer(1)));
    assert!(matches!(db.run(Command::Get("foo".to_string())), RespType::Null));
    assert!(db.get("foo").is_none());
}

#[test]
fn get_and_ping_leave_the_store_as_it_was() {
    let mut db = Store::new();
    db.set("a".to_string(), Bytes::from("1"));
    Command::Get("a".to_string()).execute(&mut db);
    Command::Get("b".to_string()).execute(&mut db);
    Command::Ping(None).execute(&mut db);
    assert_eq!(db.get("a").unwrap(), "1");
    assert!(db.get("b").is_none());
}

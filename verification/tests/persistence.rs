use anand_redis::commands::persistence::{decode, encode, load, save, DumpError};
use anand_redis::commands::{dispatch, Action, Data, Db, Entry};
use anand_redis::resp::{parse, serialize, RespError, Value};

const NOW: u64 = 1_700_000_000_000;

fn cmd(words: &[&str]) -> Value {
    Value::Array(words.iter().map(|w| Value::BulkString(w.as_bytes().to_vec())).collect())
}

fn run(db: &mut Db, words: &[&str], now: u64) -> Action {
    dispatch(cmd(words), db, now)
}

fn bulk(s: &str) -> Value {
    Value::BulkString(s.as_bytes().to_vec())
}

#[test]
fn save_then_restart_keeps_data() {
    let mut db = Db::new();
    run(&mut db, &["SET", "name", "alice"], NOW);
    run(&mut db, &["SET", "session", "token", "EX", "60"], NOW);
    run(&mut db, &["RPUSH", "letters", "a", "b"], NOW);
    run(&mut db, &["SET", "gone", "x", "PX", "1"], NOW);
    let bytes = match run(&mut db, &["SAVE"], NOW + 5) {
        Action::Save(bytes) => bytes,
        other => panic!("expected a save, got {other:?}"),
    };
    let mut restored = load(&bytes, NOW + 10).unwrap();
    assert_eq!(restored.len(), 3);
    assert_eq!(run(&mut restored, &["GET", "name"], NOW + 10), Action::Reply(bulk("alice")));
    assert_eq!(
        run(&mut restored, &["LRANGE", "letters", "0", "-1"], NOW + 10),
        Action::Reply(Value::Array(vec![bulk("a"), bulk("b")]))
    );
    // The TTL survives the restart as an absolute deadline.
    assert_eq!(run(&mut restored, &["GET", "session"], NOW + 60_000), Action::Reply(bulk("token")));
    assert_eq!(run(&mut restored, &["GET", "session"], NOW + 60_001), Action::Reply(Value::Null));
    assert_eq!(run(&mut restored, &["GET", "gone"], NOW + 10), Action::Reply(Value::Null));
}

#[test]
fn dump_format() {
    let mut db = Db::new();
    db.insert(b"k".to_vec(), Entry { value: Data::String(b"v".to_vec()), expires_at: Some(42) });
    let dump = encode(&db, 0);
    assert_eq!(
        dump,
        Value::Array(vec![Value::Array(vec![bulk("string"), bulk("k"), Value::Integer(42), bulk("v")])])
    );
    assert_eq!(serialize(&dump), b"*1\r\n*4\r\n$6\r\nstring\r\n$1\r\nk\r\n:42\r\n$1\r\nv\r\n".to_vec());
    assert_eq!(encode(&db, 43), Value::Array(vec![]));
    assert_eq!(save(&[], &db, 0), Ok(serialize(&dump)));
    assert!(save(&[b"x".to_vec()], &db, 0).is_err());
    let saved = run(&mut db, &["save"], 0);
    assert_eq!(saved, Action::Save(serialize(&dump)));
    assert_eq!(
        run(&mut db, &["SAVE", "now"], 0),
        Action::Reply(Value::Error("ERR wrong number of arguments for 'save' command".to_string()))
    );
}

#[test]
fn elapsed_deadline_reloads_expired() {
    let entry = Value::Array(vec![bulk("string"), bulk("k"), Value::Integer(100), bulk("v")]);
    let db = decode(&Value::Array(vec![entry]), 500).unwrap();
    assert_eq!(db.get(b"k").unwrap().expires_at, Some(500));
    let mut db = db;
    assert_eq!(run(&mut db, &["GET", "k"], 501), Action::Reply(Value::Null));
}

#[test]
fn decode_errors() {
    let e = |fields: Vec<Value>| decode(&Value::Array(vec![Value::Array(fields)]), 0).err();
    assert_eq!(decode(&Value::Null, 0).err(), Some(DumpError::NotArray));
    assert_eq!(decode(&Value::Array(vec![Value::Integer(1)]), 0).err(), Some(DumpError::EntryNotArray));
    assert_eq!(e(vec![bulk("string"), bulk("k")]), Some(DumpError::MissingFields));
    assert_eq!(e(vec![Value::Integer(1), bulk("k"), Value::Null]), Some(DumpError::TagKeyNotBulk));
    assert_eq!(e(vec![bulk("string"), bulk("k"), Value::Integer(-1), bulk("v")]), Some(DumpError::NegativeExpiry));
    assert_eq!(e(vec![bulk("string"), bulk("k"), bulk("1"), bulk("v")]), Some(DumpError::BadExpiry));
    assert_eq!(e(vec![bulk("list"), bulk("k"), Value::Null, Value::Integer(1)]), Some(DumpError::ValueNotBulk));
    assert_eq!(e(vec![bulk("string"), bulk("k"), Value::Null]), Some(DumpError::StringArity));
    assert_eq!(e(vec![bulk("hash"), bulk("k"), Value::Null]), Some(DumpError::UnknownTag));
    assert_eq!(load(b"*1\r\n", 0).err(), Some(DumpError::Parse(RespError::Incomplete)));
    assert_eq!(DumpError::UnknownTag.message(), "unknown entry type tag");
    let ok = decode(&Value::Array(vec![Value::Array(vec![bulk("list"), bulk("k"), Value::Null])]), 0).unwrap();
    assert_eq!(
        ok.get(b"k"),
        Some(&Entry { value: Data::List(std::collections::VecDeque::new()), expires_at: None })
    );
}

#[test]
fn dump_parses_as_one_value() {
    let mut db = Db::new();
    run(&mut db, &["SET", "a", "1"], NOW);
    let bytes = serialize(&encode(&db, NOW));
    let (v, n) = parse(&bytes).unwrap();
    assert_eq!(n, bytes.len());
    assert_eq!(v, encode(&db, NOW));
}

#[test]
fn far_deadline_saturates_in_dump() {
    let mut db = Db::new();
    db.insert(b"k".to_vec(), Entry { value: Data::String(b"v".to_vec()), expires_at: Some(u64::MAX) });
    let dump = encode(&db, NOW);
    assert_eq!(
        dump,
        Value::Array(vec![Value::Array(vec![bulk("string"), bulk("k"), Value::Integer(i64::MAX), bulk("v")])])
    );
    let restored = load(&serialize(&dump), NOW).unwrap();
    assert_eq!(restored.get(b"k").unwrap().expires_at, Some(i64::MAX as u64));
}

#[test]
fn truncated_dump_fails() {
    let mut db = Db::new();
    run(&mut db, &["SET", "name", "alice", "EX", "60"], NOW);
    run(&mut db, &["RPUSH", "letters", "a", "b"], NOW);
    let bytes = match run(&mut db, &["SAVE"], NOW) {
        Action::Save(bytes) => bytes,
        other => panic!("expected a save, got {other:?}"),
    };
    for p in 0..bytes.len() {
        assert_eq!(load(&bytes[..p], NOW).err(), Some(DumpError::Parse(RespError::Incomplete)), "cut at {p}");
    }
    assert_eq!(load(&bytes, NOW).unwrap().len(), 2);
}

#[test]
fn dump_of_one_list() {
    let mut db = Db::new();
    db.insert(
        b"l".to_vec(),
        Entry { value: Data::List(std::collections::VecDeque::from(vec![b"a".to_vec(), b"b".to_vec()])), expires_at: None },
    );
    assert_eq!(
        encode(&db, NOW),
        Value::Array(vec![Value::Array(vec![bulk("list"), bulk("l"), Value::Null, bulk("a"), bulk("b")])])
    );
}

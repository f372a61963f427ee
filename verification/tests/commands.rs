use anand_redis::commands::generic::{del, echo, exists_keys, ping};
use anand_redis::commands::list::{lrange, push, Side};
use anand_redis::commands::string::{get, incr_by, parse_expiry};
use anand_redis::commands::{
    arity, command_parts, dispatch, dispatch_read, evict_if_expired, is_expired, to_ascii_uppercase, unix_millis_to_instant,
    unix_secs_to_instant, Action, CmdError, Data, Db, Entry,
};
use anand_redis::resp::Value;

const NOW: u64 = 1_700_000_000_000;

fn args(words: &[&str]) -> Vec<Vec<u8>> {
    words.iter().map(|w| w.as_bytes().to_vec()).collect()
}

fn cmd(words: &[&str]) -> Value {
    Value::Array(words.iter().map(|w| Value::BulkString(w.as_bytes().to_vec())).collect())
}

fn reply(db: &mut Db, words: &[&str]) -> Value {
    reply_at(db, words, NOW)
}

fn reply_at(db: &mut Db, words: &[&str], now: u64) -> Value {
    match dispatch(cmd(words), db, now) {
        Action::Reply(v) => v,
        Action::Save(_) => panic!("unexpected save"),
    }
}

fn bulk(s: &str) -> Value {
    Value::BulkString(s.as_bytes().to_vec())
}

fn ok() -> Value {
    Value::SimpleString("OK".to_string())
}

fn err(s: &str) -> Value {
    Value::Error(s.to_string())
}

const WRONGTYPE: &str = "WRONGTYPE Operation against a key holding the wrong kind of value";

#[test]
fn ping_and_echo() {
    let mut db = Db::new();
    assert_eq!(reply(&mut db, &["PING"]), Value::SimpleString("PONG".to_string()));
    assert_eq!(reply(&mut db, &["ping", "hi"]), bulk("hi"));
    assert_eq!(reply(&mut db, &["PING", "a", "b"]), err("ERR wrong number of arguments for 'ping' command"));
    assert_eq!(reply(&mut db, &["ECHO", "x"]), bulk("x"));
    assert_eq!(reply(&mut db, &["ECHO"]), err("ERR wrong number of arguments for 'echo' command"));
    assert_eq!(ping(&args(&[])), Ok(Value::SimpleString("PONG".to_string())));
    assert_eq!(echo(&args(&["m"])), Ok(bulk("m")));
}

#[test]
fn example_session() {
    let mut db = Db::new();
    assert_eq!(reply(&mut db, &["SET", "name", "alice"]), ok());
    assert_eq!(reply(&mut db, &["GET", "name"]), bulk("alice"));
    assert_eq!(reply(&mut db, &["DEL", "name"]), Value::Integer(1));
    assert_eq!(reply(&mut db, &["GET", "name"]), Value::Null);
    assert_eq!(reply(&mut db, &["SET", "a", "1"]), ok());
    assert_eq!(reply(&mut db, &["EXISTS", "a", "missing"]), Value::Integer(1));
    assert_eq!(reply(&mut db, &["EXISTS", "a", "a"]), Value::Integer(2));
    assert_eq!(reply(&mut db, &["INCR", "hits"]), Value::Integer(1));
    assert_eq!(reply(&mut db, &["INCR", "hits"]), Value::Integer(2));
    assert_eq!(reply(&mut db, &["DECR", "hits"]), Value::Integer(1));
    assert_eq!(reply(&mut db, &["GET", "hits"]), bulk("1"));
    assert_eq!(reply(&mut db, &["SET", "word", "hello"]), ok());
    assert_eq!(reply(&mut db, &["INCR", "word"]), err("ERR value is not an integer or out of range"));
    assert_eq!(reply(&mut db, &["RPUSH", "letters", "a", "b", "c"]), Value::Integer(3));
    assert_eq!(reply(&mut db, &["LPUSH", "letters", "z"]), Value::Integer(4));
    assert_eq!(
        reply(&mut db, &["LRANGE", "letters", "0", "-1"]),
        Value::Array(vec![bulk("z"), bulk("a"), bulk("b"), bulk("c")])
    );
    assert_eq!(reply(&mut db, &["LRANGE", "letters", "-2", "-1"]), Value::Array(vec![bulk("b"), bulk("c")]));
    assert_eq!(reply(&mut db, &["GET", "letters"]), err(WRONGTYPE));
}

#[test]
fn set_with_expiry_options() {
    let mut db = Db::new();
    assert_eq!(reply(&mut db, &["SET", "session", "token", "EX", "60"]), ok());
    assert_eq!(reply_at(&mut db, &["GET", "session"], NOW + 60_000), bulk("token"));
    assert_eq!(reply_at(&mut db, &["GET", "session"], NOW + 60_001), Value::Null);
    assert_eq!(reply(&mut db, &["SET", "job", "result", "px", "500"]), ok());
    assert_eq!(reply_at(&mut db, &["GET", "job"], NOW + 500), bulk("result"));
    assert_eq!(reply_at(&mut db, &["GET", "job"], NOW + 501), Value::Null);
    assert_eq!(reply(&mut db, &["SET", "event", "data", "EXAT", "1800000000"]), ok());
    assert_eq!(reply_at(&mut db, &["GET", "event"], 1_800_000_000_000), bulk("data"));
    assert_eq!(reply_at(&mut db, &["GET", "event"], 1_800_000_000_001), Value::Null);
    assert_eq!(reply(&mut db, &["SET", "at", "v", "PXAT", "1700000000123"]), ok());
    assert_eq!(reply_at(&mut db, &["EXISTS", "at"], NOW + 123), Value::Integer(1));
    assert_eq!(reply_at(&mut db, &["EXISTS", "at"], NOW + 124), Value::Integer(0));
    // A moment already past expires at once.
    assert_eq!(reply(&mut db, &["SET", "old", "v", "EXAT", "1"]), ok());
    assert_eq!(reply_at(&mut db, &["GET", "old"], NOW + 1), Value::Null);
    // The last expiry option wins.
    assert_eq!(reply(&mut db, &["SET", "two", "v", "PX", "10", "PX", "1000"]), ok());
    assert_eq!(reply_at(&mut db, &["GET", "two"], NOW + 500), bulk("v"));
}

#[test]
fn set_option_errors() {
    let mut db = Db::new();
    assert_eq!(reply(&mut db, &["SET", "k"]), err("ERR wrong number of arguments for 'set' command"));
    assert_eq!(reply(&mut db, &["SET", "k", "v", "EX"]), err("ERR syntax error: EX requires an argument"));
    assert_eq!(reply(&mut db, &["SET", "k", "v", "pxat"]), err("ERR syntax error: PXAT requires an argument"));
    assert_eq!(reply(&mut db, &["SET", "k", "v", "EX", "0"]), err("ERR invalid expire time in 'set' command"));
    assert_eq!(reply(&mut db, &["SET", "k", "v", "EX", "-5"]), err("ERR invalid expire time in 'set' command"));
    assert_eq!(reply(&mut db, &["SET", "k", "v", "EX", "ten"]), err("ERR invalid expire time in 'set' command"));
    assert_eq!(reply(&mut db, &["SET", "k", "v", "nx"]), err("ERR unknown option 'NX'"));
    assert_eq!(reply(&mut db, &["EXISTS", "k"]), Value::Integer(0));
    assert_eq!(
        parse_expiry(&args(&["keepttl"]), NOW),
        Err(CmdError::UnknownOption("KEEPTTL".to_string()))
    );
    assert_eq!(parse_expiry(&args(&[]), NOW), Ok(None));
    assert_eq!(parse_expiry(&args(&["PX", "5"]), NOW), Ok(Some(NOW + 5)));
}

#[test]
fn set_replaces_a_list() {
    let mut db = Db::new();
    assert_eq!(reply(&mut db, &["RPUSH", "k", "a"]), Value::Integer(1));
    assert_eq!(reply(&mut db, &["SET", "k", "v"]), ok());
    assert_eq!(reply(&mut db, &["GET", "k"]), bulk("v"));
    assert_eq!(reply(&mut db, &["LRANGE", "k", "0", "-1"]), err(WRONGTYPE));
    assert_eq!(reply(&mut db, &["LPUSH", "k", "x"]), err(WRONGTYPE));
    assert_eq!(reply(&mut db, &["INCR", "k"]), err("ERR value is not an integer or out of range"));
    assert_eq!(reply(&mut db, &["RPUSH", "l", "1"]), Value::Integer(1));
    assert_eq!(reply(&mut db, &["INCR", "l"]), err(WRONGTYPE));
}

#[test]
fn incr_and_decr() {
    let mut db = Db::new();
    assert_eq!(reply(&mut db, &["SET", "n", "10"]), ok());
    assert_eq!(reply(&mut db, &["INCR", "n"]), Value::Integer(11));
    assert_eq!(reply(&mut db, &["GET", "n"]), bulk("11"));
    assert_eq!(reply(&mut db, &["DECR", "fresh"]), Value::Integer(-1));
    assert_eq!(reply(&mut db, &["SET", "big", "9223372036854775807"]), ok());
    assert_eq!(reply(&mut db, &["INCR", "big"]), err("ERR increment or decrement would overflow"));
    assert_eq!(reply(&mut db, &["SET", "small", "-9223372036854775808"]), ok());
    assert_eq!(reply(&mut db, &["DECR", "small"]), err("ERR increment or decrement would overflow"));
    assert_eq!(reply(&mut db, &["INCR"]), err("ERR wrong number of arguments for 'incr' command"));
    assert_eq!(reply(&mut db, &["DECR", "a", "b"]), err("ERR wrong number of arguments for 'decr' command"));
    // A TTL survives INCR.
    assert_eq!(reply(&mut db, &["SET", "t", "5", "PX", "100"]), ok());
    assert_eq!(reply(&mut db, &["INCR", "t"]), Value::Integer(6));
    assert_eq!(reply_at(&mut db, &["GET", "t"], NOW + 100), bulk("6"));
    assert_eq!(reply_at(&mut db, &["GET", "t"], NOW + 101), Value::Null);
    // An expired key starts again from 0, without its old TTL.
    assert_eq!(reply_at(&mut db, &["INCR", "t"], NOW + 200), Value::Integer(1));
    assert_eq!(reply_at(&mut db, &["GET", "t"], NOW + 1_000_000), bulk("1"));
    // DECR undoes INCR.
    assert_eq!(reply(&mut db, &["SET", "u", "-3"]), ok());
    assert_eq!(reply(&mut db, &["INCR", "u"]), Value::Integer(-2));
    assert_eq!(reply(&mut db, &["DECR", "u"]), Value::Integer(-3));
    assert_eq!(reply(&mut db, &["GET", "u"]), bulk("-3"));
    assert_eq!(incr_by(&args(&["v"]), &mut db, NOW, 5), Ok(Value::Integer(5)));
}

#[test]
fn push_order_and_lrange() {
    let mut db = Db::new();
    assert_eq!(reply(&mut db, &["LPUSH", "k", "a", "b", "c"]), Value::Integer(3));
    assert_eq!(
        reply(&mut db, &["LRANGE", "k", "0", "-1"]),
        Value::Array(vec![bulk("c"), bulk("b"), bulk("a")])
    );
    assert_eq!(reply(&mut db, &["RPUSH", "r", "a", "b", "c"]), Value::Integer(3));
    assert_eq!(
        reply(&mut db, &["LRANGE", "r", "0", "-1"]),
        Value::Array(vec![bulk("a"), bulk("b"), bulk("c")])
    );
    // Bounds are clamped, not refused.
    assert_eq!(reply(&mut db, &["LRANGE", "r", "-100", "100"]), Value::Array(vec![bulk("a"), bulk("b"), bulk("c")]));
    assert_eq!(reply(&mut db, &["LRANGE", "r", "1", "1"]), Value::Array(vec![bulk("b")]));
    assert_eq!(reply(&mut db, &["LRANGE", "r", "2", "1"]), Value::Array(vec![]));
    assert_eq!(reply(&mut db, &["LRANGE", "r", "5", "10"]), Value::Array(vec![]));
    assert_eq!(reply(&mut db, &["LRANGE", "r", "-1", "-1"]), Value::Array(vec![bulk("c")]));
    assert_eq!(reply(&mut db, &["LRANGE", "missing", "0", "-1"]), Value::Array(vec![]));
    assert_eq!(reply(&mut db, &["LRANGE", "r", "x", "1"]), err("ERR value is not an integer or out of range"));
    assert_eq!(reply(&mut db, &["LRANGE", "r", "0"]), err("ERR wrong number of arguments for 'lrange' command"));
    assert_eq!(reply(&mut db, &["LPUSH", "k"]), err("ERR wrong number of arguments for 'lpush' command"));
    assert_eq!(reply(&mut db, &["RPUSH", "k"]), err("ERR wrong number of arguments for 'rpush' command"));
    assert_eq!(push(&args(&["p", "1", "2"]), &mut db, NOW, Side::Right), Ok(Value::Integer(2)));
    assert_eq!(lrange(&args(&["p", "0", "0"]), &db, NOW), Ok(Value::Array(vec![bulk("1")])));
}

#[test]
fn push_keeps_ttl() {
    let mut db = Db::new();
    assert_eq!(reply(&mut db, &["RPUSH", "k", "a"]), Value::Integer(1));
    let mut store = Db::new();
    store.insert(b"k".to_vec(), Entry { value: Data::String(b"x".to_vec()), expires_at: Some(NOW + 10) });
    assert_eq!(push(&args(&["k", "a"]), &mut store, NOW, Side::Left), Err(CmdError::WrongType));
    store.insert(
        b"l".to_vec(),
        Entry { value: Data::List(std::collections::VecDeque::new()), expires_at: Some(NOW + 10) },
    );
    assert_eq!(push(&args(&["l", "a"]), &mut store, NOW, Side::Left), Ok(Value::Integer(1)));
    assert_eq!(store.get(b"l").unwrap().expires_at, Some(NOW + 10));
}

#[test]
fn del_counts_live_distinct_keys() {
    let mut db = Db::new();
    assert_eq!(reply(&mut db, &["SET", "a", "1"]), ok());
    assert_eq!(reply(&mut db, &["SET", "b", "2", "PX", "5"]), ok());
    assert_eq!(reply(&mut db, &["SET", "c", "3"]), ok());
    // b has expired: it goes, but is not counted; a is named twice and counted once.
    assert_eq!(reply_at(&mut db, &["DEL", "a", "a", "b", "zz"], NOW + 10), Value::Integer(1));
    assert_eq!(db.get(b"b"), None);
    assert_eq!(reply(&mut db, &["EXISTS", "a", "c"]), Value::Integer(1));
    assert_eq!(reply(&mut db, &["DEL"]), err("ERR wrong number of arguments for 'del' command"));
    assert_eq!(reply(&mut db, &["EXISTS"]), err("ERR wrong number of arguments for 'exists' command"));
    assert_eq!(del(&args(&["c"]), &mut db, NOW), Ok(Value::Integer(1)));
    assert_eq!(exists_keys(&args(&["c"]), &db, NOW), Ok(Value::Integer(0)));
}

#[test]
fn protocol_errors() {
    let mut db = Db::new();
    let not_array = dispatch(Value::Integer(3), &mut db, NOW);
    assert_eq!(not_array, Action::Reply(err("ERR expected array command")));
    let mixed = dispatch(Value::Array(vec![bulk("GET"), Value::Integer(1)]), &mut db, NOW);
    assert_eq!(mixed, Action::Reply(err("ERR command must be an array of bulk strings")));
    let empty = dispatch(Value::Array(vec![]), &mut db, NOW);
    assert_eq!(empty, Action::Reply(err("ERR empty command array")));
    assert_eq!(reply(&mut db, &["FLUSHALL"]), err("ERR unknown command 'FLUSHALL'"));
    let odd = dispatch(Value::Array(vec![Value::BulkString(vec![b'x', 0xff])]), &mut db, NOW);
    assert_eq!(odd, Action::Reply(err("ERR unknown command 'X\u{fffd}'")));
    assert_eq!(CmdError::Protocol("p").message(), "ERR p".to_string());
}

#[test]
fn get_misses_and_arity() {
    let mut db = Db::new();
    assert_eq!(reply(&mut db, &["GET", "nope"]), Value::Null);
    assert_eq!(reply(&mut db, &["GET"]), err("ERR wrong number of arguments for 'get' command"));
    assert_eq!(get(&args(&["a", "b"]), &db, NOW), Err(CmdError::WrongArity("get")));
    assert_eq!(anand_redis::commands::string::set(&args(&["a", "b"]), &mut db, NOW), Ok(ok()));
    assert_eq!(arity(&args(&["x"]), 0, Some(0), "save"), Err(CmdError::WrongArity("save")));
    assert_eq!(arity(&args(&["x"]), 1, None, "del"), Ok(()));
}

#[test]
fn expiry_helpers() {
    assert_eq!(unix_millis_to_instant(5, 10), 10);
    assert_eq!(unix_millis_to_instant(50, 10), 50);
    assert_eq!(unix_secs_to_instant(2, 1000), 2000);
    assert_eq!(unix_secs_to_instant(0, 1000), 1000);
    assert_eq!(unix_secs_to_instant(u64::MAX, 0), u64::MAX);
    assert_eq!(unix_secs_to_instant(20_000_000_000_000_000, 0), u64::MAX);
    let e = Entry { value: Data::String(Vec::new()), expires_at: Some(10) };
    assert!(!is_expired(&e, 10));
    assert!(is_expired(&e, 11));
    let mut db = Db::new();
    db.insert(b"k".to_vec(), Entry { value: Data::String(Vec::new()), expires_at: Some(10) });
    evict_if_expired(&mut db, b"k", 10);
    assert!(db.get(b"k").is_some());
    evict_if_expired(&mut db, b"k", 11);
    assert!(db.get(b"k").is_none());
    assert_eq!(to_ascii_uppercase(b"sEt-9\xff"), b"SET-9\xff".to_vec());
}

#[test]
fn sweeper_removes_only_expired() {
    let mut db = Db::new();
    for (k, exp) in [("a", None), ("b", Some(5u64)), ("c", Some(50)), ("d", Some(1))] {
        db.insert(k.as_bytes().to_vec(), Entry { value: Data::String(b"v".to_vec()), expires_at: exp });
    }
    db.remove_expired(10);
    assert!(db.get(b"a").is_some());
    assert!(db.get(b"b").is_none());
    assert!(db.get(b"c").is_some());
    assert!(db.get(b"d").is_none());
    assert_eq!(db.len(), 2);
}

#[test]
fn db_basics() {
    let mut db = Db::new();
    assert_eq!(db.len(), 0);
    db.insert(b"k".to_vec(), Entry { value: Data::String(b"1".to_vec()), expires_at: None });
    db.insert(b"k".to_vec(), Entry { value: Data::String(b"2".to_vec()), expires_at: None });
    assert_eq!(db.len(), 1);
    assert_eq!(db.get(b"k"), Some(&Entry { value: Data::String(b"2".to_vec()), expires_at: None }));
    let (k, _) = db.row(0);
    assert_eq!(k, &b"k".to_vec());
    assert!(db.remove(b"k").is_some());
    assert!(db.remove(b"k").is_none());
}

#[test]
fn read_only_commands_answer_without_a_write() {
    let mut db = Db::new();
    assert_eq!(reply(&mut db, &["SET", "k", "v"]), ok());
    assert_eq!(dispatch_read(&cmd(&["GET", "k"]), &db, NOW), Some(Action::Reply(bulk("v"))));
    assert_eq!(dispatch_read(&cmd(&["exists", "k", "k"]), &db, NOW), Some(Action::Reply(Value::Integer(2))));
    assert_eq!(dispatch_read(&cmd(&["LRANGE", "k", "0", "1"]), &db, NOW), Some(Action::Reply(err(WRONGTYPE))));
    assert_eq!(dispatch_read(&cmd(&["nope"]), &db, NOW), Some(Action::Reply(err("ERR unknown command 'NOPE'"))));
    assert_eq!(dispatch_read(&Value::Null, &db, NOW), Some(Action::Reply(err("ERR expected array command"))));
    assert!(matches!(dispatch_read(&cmd(&["SAVE"]), &db, NOW), Some(Action::Save(_))));
    for write in ["SET", "del", "Incr", "DECR", "LPUSH", "RPUSH"] {
        assert_eq!(dispatch_read(&cmd(&[write, "k"]), &db, NOW), None);
    }
    assert_eq!(command_parts(&cmd(&["a", "b"])), Ok(args(&["a", "b"])));
    assert_eq!(
        command_parts(&Value::Array(vec![Value::Null])),
        Err(CmdError::Protocol("command must be an array of bulk strings"))
    );
}

#[test]
fn set_far_future_expiry() {
    let mut db = Db::new();
    // Ten quadrillion seconds fits a u64 of milliseconds.
    assert_eq!(reply(&mut db, &["SET", "k", "v", "EX", "10000000000000000"]), ok());
    assert_eq!(reply(&mut db, &["GET", "k"]), bulk("v"));
    assert_eq!(
        parse_expiry(&args(&["EX", "10000000000000000"]), NOW),
        Ok(Some(NOW + 10_000_000_000_000_000_000))
    );
    assert_eq!(
        parse_expiry(&args(&["PXAT", "18446744073709551615"]), NOW),
        Ok(Some(18_446_744_073_709_551_615))
    );
    // The last option wins, and the first bad option is the error, after a far one too.
    assert_eq!(
        parse_expiry(&args(&["EX", "10000000000000000", "PX", "10"]), NOW),
        Ok(Some(NOW + 10))
    );
    assert_eq!(
        reply(&mut db, &["SET", "k", "v", "EX", "10000000000000000", "NX"]),
        err("ERR unknown option 'NX'")
    );
    // Past what a u64 of milliseconds holds, the deadline is held as u64::MAX: the key
    // does not expire.
    assert_eq!(reply(&mut db, &["SET", "p", "v", "PX", "18446744073709551615"]), ok());
    assert_eq!(reply(&mut db, &["SET", "e", "v", "EX", "18446744073709551615"]), ok());
    assert_eq!(reply(&mut db, &["SET", "a", "v", "EXAT", "100000000000000000"]), ok());
    assert_eq!(reply_at(&mut db, &["EXISTS", "p", "e", "a"], u64::MAX), Value::Integer(3));
    assert_eq!(parse_expiry(&args(&["EX", "100000000000000000"]), NOW), Ok(Some(u64::MAX)));
    assert_eq!(
        parse_expiry(&args(&["EX", "100000000000000000", "PX", "7"]), NOW),
        parse_expiry(&args(&["PX", "7"]), NOW)
    );
    assert_eq!(
        parse_expiry(&args(&["EX", "100000000000000000", "NX"]), NOW),
        Err(CmdError::UnknownOption("NX".to_string()))
    );
}

#[test]
fn command_names_any_case() {
    let mut a = Db::new();
    let mut b = Db::new();
    assert_eq!(reply(&mut a, &["sEt", "k", "v"]), reply(&mut b, &["SET", "k", "v"]));
    assert_eq!(reply(&mut a, &["get", "k"]), bulk("v"));
    assert_eq!(reply(&mut b, &["GeT", "k"]), bulk("v"));
    assert_eq!(reply(&mut a, &["rpush", "l", "x"]), reply(&mut b, &["RPUSH", "l", "x"]));
    assert_eq!(reply(&mut a, &["nope"]), err("ERR unknown command 'NOPE'"));
    assert_eq!(reply(&mut b, &["NOPE"]), err("ERR unknown command 'NOPE'"));
}

use resp_kv::command::{command_of, option_unit, process_command, CommandName};
use resp_kv::resp::RESP;
use resp_kv::store::Store;

fn bulk(s: &str) -> RESP {
    RESP::BulkString(Some(s.to_string()))
}

fn request(words: &[&str]) -> RESP {
    RESP::Array(words.iter().map(|w| bulk(w)).collect())
}

fn error(s: &str) -> RESP {
    RESP::Error(s.to_string())
}

const WRONG_ARGS: &str = "ERR wrong number of arguments for command";

#[test]
fn ping_answers_pong() {
    let mut store = Store::new();
    assert_eq!(process_command(&request(&["PING"]), &mut store, 0), RESP::SimpleString("PONG".to_string()));
    process_command(&request(&["SET", "a", "1"]), &mut store, 5);
    assert_eq!(process_command(&request(&["PING"]), &mut store, 9), RESP::SimpleString("PONG".to_string()));
    assert_eq!(process_command(&request(&["ping"]), &mut store, 9), RESP::SimpleString("PONG".to_string()));
    assert_eq!(process_command(&request(&["PING", "x"]), &mut store, 9), error(WRONG_ARGS));
}

#[test]
fn echo_arity() {
    let mut store = Store::new();
    assert_eq!(process_command(&request(&["ECHO"]), &mut store, 0), error(WRONG_ARGS));
    assert_eq!(process_command(&request(&["ECHO", "hi"]), &mut store, 0), bulk("hi"));
    assert_eq!(process_command(&request(&["EcHo", "a", "b"]), &mut store, 0), error(WRONG_ARGS));
}

#[test]
fn echo_returns_any_value() {
    let mut store = Store::new();
    let req = RESP::Array(vec![bulk("ECHO"), RESP::Integer(7)]);
    assert_eq!(process_command(&req, &mut store, 0), RESP::Integer(7));
}

#[test]
fn set_then_get_without_ttl() {
    let mut store = Store::new();
    assert_eq!(process_command(&request(&["SET", "k", "v"]), &mut store, 100), RESP::SimpleString("OK".to_string()));
    assert_eq!(process_command(&request(&["GET", "k"]), &mut store, 100), bulk("v"));
    assert_eq!(process_command(&request(&["get", "k"]), &mut store, u128::MAX), bulk("v"));
}

#[test]
fn set_overwrites_value_and_ttl() {
    let mut store = Store::new();
    process_command(&request(&["SET", "k", "v", "PX", "10"]), &mut store, 1000);
    process_command(&request(&["SET", "k", "w"]), &mut store, 1001);
    assert_eq!(process_command(&request(&["GET", "k"]), &mut store, 5000), bulk("w"));
}

#[test]
fn set_with_px_expires() {
    let mut store = Store::new();
    assert_eq!(process_command(&request(&["SET", "k", "v", "PX", "10"]), &mut store, 1000), RESP::SimpleString("OK".to_string()));
    assert_eq!(process_command(&request(&["GET", "k"]), &mut store, 1005), bulk("v"));
    assert_eq!(process_command(&request(&["GET", "k"]), &mut store, 1011), RESP::BulkString(None));
    // the entry was removed, not only hidden
    assert_eq!(store.get(&"k".to_string(), 0), None);
    assert_eq!(process_command(&request(&["GET", "k"]), &mut store, 1011), RESP::BulkString(None));
}

#[test]
fn set_with_ex_is_readable_before_expiry() {
    let mut store = Store::new();
    assert_eq!(process_command(&request(&["SET", "k", "v", "EX", "1"]), &mut store, 2000), RESP::SimpleString("OK".to_string()));
    assert_eq!(process_command(&request(&["GET", "k"]), &mut store, 2000), bulk("v"));
    assert_eq!(process_command(&request(&["GET", "k"]), &mut store, 2999), bulk("v"));
    assert_eq!(process_command(&request(&["GET", "k"]), &mut store, 3001), RESP::BulkString(None));
}

#[test]
fn set_option_errors() {
    let mut store = Store::new();
    assert_eq!(process_command(&request(&["SET", "k"]), &mut store, 0), error(WRONG_ARGS));
    assert_eq!(process_command(&request(&["SET", "k", "v", "XX"]), &mut store, 0), error("ERR syntax error"));
    assert_eq!(process_command(&request(&["SET", "k", "v", "EX"]), &mut store, 0), error("ERR syntax error"));
    assert_eq!(
        process_command(&request(&["SET", "k", "v", "PX", "soon"]), &mut store, 0),
        error("ERR value is not an integer or out of range")
    );
    // nothing was stored by the failed commands
    assert_eq!(process_command(&request(&["GET", "k"]), &mut store, 0), RESP::BulkString(None));
}

#[test]
fn get_arity_and_miss() {
    let mut store = Store::new();
    assert_eq!(process_command(&request(&["GET"]), &mut store, 0), error(WRONG_ARGS));
    assert_eq!(process_command(&request(&["GET", "a", "b"]), &mut store, 0), error(WRONG_ARGS));
    assert_eq!(process_command(&request(&["GET", "missing"]), &mut store, 0), RESP::BulkString(None));
}

#[test]
fn unknown_command() {
    let mut store = Store::new();
    assert_eq!(process_command(&request(&["FOO"]), &mut store, 0), error("unknown command 'FOO'"));
    assert_eq!(process_command(&request(&["flush", "all"]), &mut store, 0), error("unknown command 'flush'"));
}

#[test]
fn invalid_command_shapes() {
    let mut store = Store::new();
    assert_eq!(process_command(&bulk("PING"), &mut store, 0), error("ERR invalid command"));
    assert_eq!(process_command(&RESP::Array(vec![]), &mut store, 0), error("ERR invalid command"));
    assert_eq!(process_command(&RESP::Array(vec![RESP::Integer(1)]), &mut store, 0), error("ERR invalid command"));
    assert_eq!(process_command(&RESP::Array(vec![RESP::BulkString(None)]), &mut store, 0), error("ERR invalid command"));
}

#[test]
fn keys_take_the_text_of_any_value() {
    let mut store = Store::new();
    let set = RESP::Array(vec![bulk("SET"), RESP::Integer(12), RESP::SimpleString("twelve".to_string())]);
    assert_eq!(process_command(&set, &mut store, 0), RESP::SimpleString("OK".to_string()));
    assert_eq!(process_command(&request(&["GET", "12"]), &mut store, 0), bulk("twelve"));
}

#[test]
fn decode_dispatch_encode() {
    let mut store = Store::new();
    let req = RESP::decode("*3\r\n$3\r\nSET\r\n$3\r\nkey\r\n$5\r\nvalue\r\n").unwrap();
    assert_eq!(process_command(&req, &mut store, 0).encode(), "+OK\r\n");
    let req = RESP::decode("*2\r\n$3\r\nGET\r\n$3\r\nkey\r\n").unwrap();
    assert_eq!(process_command(&req, &mut store, 0).encode(), "$5\r\nvalue\r\n");
}

#[test]
fn store_set_and_get() {
    let mut store = Store::new();
    assert_eq!(store.get(&"a".to_string(), 0), None);
    store.set("a".to_string(), "1".to_string(), 0);
    store.set("b".to_string(), "2".to_string(), 50);
    assert_eq!(store.get(&"a".to_string(), 1_000_000), Some("1".to_string()));
    assert_eq!(store.get(&"b".to_string(), 50), Some("2".to_string()));
    assert_eq!(store.get(&"b".to_string(), 51), None);
    assert_eq!(store.get(&"b".to_string(), 0), None);
}

#[test]
fn names_match_by_unicode_upper_case() {
    let mut store = Store::new();
    // U+017F (long s) upper-cases to 'S', U+0131 (dotless i) to 'I'
    assert_eq!(process_command(&request(&["\u{17f}et", "k"]), &mut store, 0), error(WRONG_ARGS));
    assert_eq!(
        process_command(&request(&["\u{17f}et", "k", "v", "XX", "1"]), &mut store, 0),
        error("ERR syntax error")
    );
    assert_eq!(process_command(&request(&["p\u{131}ng"]), &mut store, 0), RESP::SimpleString("PONG".to_string()));
    assert_eq!(process_command(&request(&["Ping"]), &mut store, 0), RESP::SimpleString("PONG".to_string()));
    assert_eq!(
        process_command(&request(&["\u{17f}et", "k", "v", "px", "5"]), &mut store, 10),
        RESP::SimpleString("OK".to_string())
    );
    assert_eq!(process_command(&request(&["gEt", "k"]), &mut store, 14), bulk("v"));
    assert_eq!(process_command(&request(&["GET", "k"]), &mut store, 16), RESP::BulkString(None));
}

#[test]
fn command_of_upper_case_names() {
    assert_eq!(command_of(&"PING".to_string()), CommandName::Ping);
    assert_eq!(command_of(&"ECHO".to_string()), CommandName::Echo);
    assert_eq!(command_of(&"SET".to_string()), CommandName::SetEntry);
    assert_eq!(command_of(&"GET".to_string()), CommandName::GetEntry);
    assert_eq!(command_of(&"get".to_string()), CommandName::Other);
    assert_eq!(command_of(&"GETS".to_string()), CommandName::Other);
    assert_eq!(option_unit(&"EX".to_string()), 1000);
    assert_eq!(option_unit(&"PX".to_string()), 1);
    assert_eq!(option_unit(&"px".to_string()), 0);
    assert_eq!(option_unit(&"NX".to_string()), 0);
}

#[test]
fn ttl_takes_every_u128() {
    let mut store = Store::new();
    // 2^100 milliseconds
    assert_eq!(
        process_command(&request(&["SET", "a", "1", "PX", "1267650600228229401496703205376"]), &mut store, 7),
        RESP::SimpleString("OK".to_string())
    );
    assert_eq!(process_command(&request(&["GET", "a"]), &mut store, 1_000_000_000_000), bulk("1"));
    // u128::MAX seconds: the expiry saturates at the largest instant
    assert_eq!(
        process_command(&request(&["SET", "b", "2", "EX", "340282366920938463463374607431768211455"]), &mut store, 7),
        RESP::SimpleString("OK".to_string())
    );
    assert_eq!(process_command(&request(&["GET", "b"]), &mut store, u128::MAX), bulk("2"));
    assert_eq!(
        process_command(&request(&["SET", "c", "3", "PX", "+15"]), &mut store, 100),
        RESP::SimpleString("OK".to_string())
    );
    assert_eq!(process_command(&request(&["GET", "c"]), &mut store, 116), RESP::BulkString(None));
    // one past u128::MAX does not parse
    assert_eq!(
        process_command(&request(&["SET", "d", "4", "PX", "340282366920938463463374607431768211456"]), &mut store, 0),
        error("ERR value is not an integer or out of range")
    );
    assert_eq!(
        process_command(&request(&["SET", "d", "4", "PX", "+"]), &mut store, 0),
        error("ERR value is not an integer or out of range")
    );
}
